//! Why what is read keeps to its types.
//!
//! Types are worked out in slots, and terms are built afterwards, of the
//! same text but not of the same values. That the two agree is what makes a
//! program that was read one that [`Store::typed`] holds of.

use super::builder::Draft;
use super::infer::{scope_fits, slots_fit, HeldForm, SchemeForm, Slots, WorldForm};
use super::ir::{Arm, Atom, CtorId, Expr, FnId, Local, Range, Store, TypeId};
use super::parse::{BoundForm, TableForm};
use super::syntax::{ClauseForm, FunctionForm, PatternForm, SourceForm, StepForm, TermForm};
use super::{builder, infer, parse, typing};
use crate::pool;
use vstd::prelude::*;

verus! {

/// Whether slots hold all that others did: what was known is known still, and
/// what agreed still does.
pub open spec fn later(before: Slots, after: Slots) -> bool {
    &&& before.fits()
    &&& after.fits()
    &&& before.len() <= after.len()
    &&& forall|i: int|
        #![trigger after.get(i)]
        #![trigger before.get(i)]
        0 <= i < before.len() && before.get(i) is Some ==> after.get(i) == before.get(i)
    &&& forall|i: int, j: int|
        #![trigger before.root[i], before.root[j]]
        #![trigger after.root[i], after.root[j]]
        0 <= i < before.len() && 0 <= j < before.len() && before.root[i] == before.root[j]
            ==> after.root[i] == after.root[j]
}

proof fn later_chains(first: Slots, second: Slots, third: Slots)
    requires
        later(first, second),
        later(second, third),
    ensures
        later(first, third),
{
    assert forall|i: int| 0 <= i < first.len() && first.get(i) is Some implies third.get(i)
        == first.get(i) by {
        assert(second.get(i) == first.get(i));
    }
    assert forall|i: int, j: int|
        0 <= i < first.len() && 0 <= j < first.len() && first.root[i]
            == first.root[j] implies third.root[i] == third.root[j] by {
        assert(second.root[i] == second.root[j]);
    }
}

proof fn a_fresh_slot_is_later(slots: Slots)
    requires
        slots.fits(),
    ensures
        later(slots, slots.fresh()),
        slots.fresh().get(slots.len() as int) is None,
{
}

proof fn a_pin_is_later(slots: Slots, slot: int, id: TypeId)
    requires
        slots.fits(),
        0 <= slot < slots.len(),
    ensures
        slots.pin(slot, id) matches Ok(after) ==> later(slots, after) && after.get(slot) == Some(id)
            && after.len() == slots.len() && after.root == slots.root,
        slots.get(slot) is None ==> slots.pin(slot, id) is Ok,
{
}

proof fn a_union_is_later(slots: Slots, left: int, right: int)
    requires
        slots.fits(),
        0 <= left < slots.len(),
        0 <= right < slots.len(),
    ensures
        slots.union(left, right) matches Ok(after) ==> later(slots, after) && after.root[left]
            == after.root[right] && after.len() == slots.len(),
{
    if let Ok(after) = slots.union(left, right) {
        agreement(slots, left, right);
    }
}

proof fn agreement(slots: Slots, left: int, right: int)
    requires
        slots.fits(),
        0 <= left < slots.len(),
        0 <= right < slots.len(),
        slots.union(left, right) is Ok,
    ensures
        later(slots, slots.union(left, right)->Ok_0),
{
    let after = slots.union(left, right)->Ok_0;
    infer::agreement_is_kept(slots, left, right, left, left);
    assert forall|i: int| 0 <= i < slots.len() && slots.get(i) is Some implies after.get(i)
        == slots.get(i) by {
        infer::knowledge_is_kept(slots, left, right, i);
    }
}

/// Slots of a world go on fitting it.
proof fn a_pinned_slot_fits(world: WorldForm, slots: Slots, slot: int, id: TypeId)
    requires
        slots_fit(world, slots),
        0 <= slot < slots.len(),
        id.0 < world.store.types.len(),
    ensures
        slots.pin(slot, id) matches Ok(after) ==> slots_fit(world, after),
{
}

proof fn a_united_slot_fits(world: WorldForm, slots: Slots, left: int, right: int)
    requires
        slots_fit(world, slots),
        0 <= left < slots.len(),
        0 <= right < slots.len(),
    ensures
        slots.union(left, right) matches Ok(after) ==> slots_fit(world, after),
{
    infer::agreement_is_kept(slots, left, right, left, left);
}

/// A constructor is one of a type there is, and so are its fields.
proof fn a_named_ctor_fits(world: WorldForm, name: Seq<char>)
    requires
        world.wf(),
    ensures
        world.ctor(name) matches Some(ctor) ==> {
            &&& ctor.0 < world.store.ctors.len()
            &&& world.store.is_listed(ctor)
            &&& world.store.ctor(ctor).owner.0 < world.store.types.len()
            &&& forall|i: int|
                0 <= i < world.store.fields(ctor).len() ==> (
                #[trigger] world.store.fields(ctor)[i]).0 < world.store.types.len()
        },
{
    infer::a_named_ctor_is_one(world.store, name, world.ctors);
    if let Some(ctor) = world.ctor(name) {
        let store = world.store;
        assert(store.ctor_fits(ctor.0 as int));
        assert forall|i: int| 0 <= i < store.fields(ctor).len() implies (
        #[trigger] store.fields(ctor)[i]).0 < store.types.len() by {
            assert(store.fields(ctor)[i] == store.types_pool[store.ctor(ctor).fields.start + i]);
        }
    }
}

/// What a constructor builds takes a slot of its own, of its type.
proof fn a_built_slot_is_later(world: WorldForm, slots: Slots, ctor: CtorId)
    requires
        slots_fit(world, slots),
        world.store.ctor(ctor).owner.0 < world.store.types.len(),
    ensures
        ({
            let (after, slot) = world.built(slots, ctor);
            &&& slots_fit(world, after)
            &&& later(slots, after)
            &&& 0 <= slot < after.len()
            &&& after.get(slot) == Some(world.store.ctor(ctor).owner)
        }),
{
    let slot = slots.len() as int;
    let owner = world.store.ctor(ctor).owner;
    a_fresh_slot_is_later(slots);
    a_pin_is_later(slots.fresh(), slot, owner);
    assert(slots_fit(world, slots.fresh())) by {
        assert(world.scheme.fits(slots.fresh().len()));
    }
    a_pinned_slot_fits(world, slots.fresh(), slot, owner);
    later_chains(slots, slots.fresh(), slots.fresh().pin(slot, owner)->Ok_0);
}

/// A name that is looked up is one of the functions, or none is.
proof fn a_named_function_is_one(scheme: SchemeForm, name: Seq<char>, from: int)
    requires
        0 <= from <= scheme.names.len(),
    ensures
        from <= scheme.named_from(name, from) <= scheme.names.len(),
        scheme.named_from(name, from) < scheme.names.len() ==> scheme.names[scheme.named_from(
            name,
            from,
        )] == name,
    decreases scheme.names.len() - from,
{
    if !(from >= scheme.names.len() || scheme.names[from] == name) {
        a_named_function_is_one(scheme, name, from + 1);
    }
}

proof fn a_held_slot_fits(scope: Seq<HeldForm>, name: Seq<char>, count: nat, slots: nat)
    requires
        count <= scope.len(),
        scope_fits(scope, slots),
    ensures
        infer::slot_of(scope, name, count) matches Some(slot) ==> 0 <= slot < slots,
    decreases count,
{
    if count > 0 && scope[count - 1].name != name {
        a_held_slot_fits(scope, name, (count - 1) as nat, slots);
    }
}

/// Whether slots have moved on, and fit their world still.
spec fn moved(world: WorldForm, before: Slots, after: Slots) -> bool {
    later(before, after) && slots_fit(world, after)
}

/// What arguments are told: each the type of a field, or the type of what
/// stands in a run of slots.
spec fn args_told(
    world: WorldForm,
    slots: Slots,
    scope: Seq<HeldForm>,
    caller: Seq<char>,
    args: Seq<TermForm>,
    fields: Seq<TypeId>,
    run: Option<int>,
) -> Result<Slots, Seq<char>> {
    match run {
        None => world.args_pinned(slots, scope, caller, args, fields),
        Some(base) => world.args_united(slots, scope, caller, args, base),
    }
}

/// Telling what a term is only adds to what is known.
proof fn a_term_moves_on(
    world: WorldForm,
    slots: Slots,
    scope: Seq<HeldForm>,
    caller: Seq<char>,
    term: TermForm,
)
    requires
        world.wf(),
        slots_fit(world, slots),
        scope_fits(scope, slots.len()),
    ensures
        world.term_slot(slots, scope, caller, term) matches Ok((after, slot)) ==> moved(
            world,
            slots,
            after,
        ) && 0 <= slot < after.len(),
    decreases term, 0nat,
{
    let name = match term {
        TermForm::Name(name) => name,
        TermForm::Apply(name, _) => name,
    };
    a_held_slot_fits(scope, name, scope.len(), slots.len());
    a_named_ctor_fits(world, name);
    a_named_function_is_one(world.scheme, name, 0);
    let at = world.scheme.named(name);
    if at < world.scheme.names.len() {
        assert(world.scheme.base[at] + world.scheme.arity[at] < slots.len());
    }
    match term {
        TermForm::Name(_) => {
            if let Some(ctor) = world.ctor(name) {
                a_built_slot_is_later(world, slots, ctor);
            }
        },
        TermForm::Apply(_, args) => {
            if let Some(slot) = infer::slot_of(scope, name, scope.len()) {
                if let Some(ctor) = world.ctor(name) {
                    let owner = world.store.ctor(ctor).owner;
                    a_pin_is_later(slots, slot, owner);
                    a_pinned_slot_fits(world, slots, slot, owner);
                } else if at < world.scheme.names.len() {
                    a_union_is_later(slots, slot, world.scheme.result(at));
                }
            } else if let Some(ctor) = world.ctor(name) {
                let fields = world.store.fields(ctor);
                if args.len() == fields.len() {
                    args_move_on(world, slots, scope, caller, args, fields, None);
                    if let Ok(after) = world.args_pinned(slots, scope, caller, args, fields) {
                        a_built_slot_is_later(world, after, ctor);
                        later_chains(slots, after, world.built(after, ctor).0);
                    }
                }
            } else if at < world.scheme.names.len() && args.len() == world.scheme.arity[at] {
                args_move_on(
                    world,
                    slots,
                    scope,
                    caller,
                    args,
                    seq![],
                    Some(world.scheme.base[at]),
                );
            }
        },
    }
}

proof fn args_move_on(
    world: WorldForm,
    slots: Slots,
    scope: Seq<HeldForm>,
    caller: Seq<char>,
    args: Seq<TermForm>,
    fields: Seq<TypeId>,
    run: Option<int>,
)
    requires
        world.wf(),
        slots_fit(world, slots),
        scope_fits(scope, slots.len()),
        match run {
            None => args.len() <= fields.len() && forall|i: int|
                0 <= i < fields.len() ==> (#[trigger] fields[i]).0 < world.store.types.len(),
            Some(base) => 0 <= base && base + args.len() <= slots.len(),
        },
    ensures
        args_told(world, slots, scope, caller, args, fields, run) matches Ok(after) ==> moved(
            world,
            slots,
            after,
        ),
    decreases args, 1nat,
{
    if args.len() > 0 {
        let rest = args.drop_last();
        args_move_on(world, slots, scope, caller, rest, fields, run);
        if let Ok(mid) = args_told(world, slots, scope, caller, rest, fields, run) {
            a_term_moves_on(world, mid, scope, caller, args.last());
            if let Ok((next, slot)) = world.term_slot(mid, scope, caller, args.last()) {
                later_chains(slots, mid, next);
                match run {
                    None => {
                        let id = fields[args.len() - 1];
                        a_pin_is_later(next, slot, id);
                        a_pinned_slot_fits(world, next, slot, id);
                        if let Ok(after) = next.pin(slot, id) {
                            later_chains(slots, next, after);
                        }
                    },
                    Some(base) => {
                        let other = base + args.len() - 1;
                        a_union_is_later(next, slot, other);
                        a_united_slot_fits(world, next, slot, other);
                        if let Ok(after) = next.union(slot, other) {
                            later_chains(slots, next, after);
                        }
                    },
                }
            }
        }
    }
}

/// Each field a pattern names gets a slot of its own, of the field's type.
proof fn fields_move_on(
    world: WorldForm,
    slots: Slots,
    scope: Seq<HeldForm>,
    fields: Seq<TypeId>,
    names: Seq<Seq<char>>,
    count: nat,
)
    requires
        slots_fit(world, slots),
        scope_fits(scope, slots.len()),
        count <= fields.len(),
        forall|i: int|
            0 <= i < fields.len() ==> (#[trigger] fields[i]).0 < world.store.types.len(),
    ensures
        ({
            let (after, held) = world.fields_bound(slots, scope, fields, names, count);
            &&& moved(world, slots, after)
            &&& scope_fits(held, after.len())
            &&& held.len() == scope.len() + count
            &&& forall|i: int| 0 <= i < scope.len() ==> held[i] == #[trigger] scope[i]
            &&& forall|i: int|
                0 <= i < count ==> (#[trigger] held[scope.len() + i]).name == names[i]
                    && after.get(held[scope.len() + i].slot) == Some(fields[i])
        }),
    decreases count,
{
    if count > 0 {
        let fewer = (count - 1) as nat;
        fields_move_on(world, slots, scope, fields, names, fewer);
        let (mid, held) = world.fields_bound(slots, scope, fields, names, fewer);
        let slot = mid.len() as int;
        let id = fields[fewer as int];
        a_fresh_slot_is_later(mid);
        a_pin_is_later(mid.fresh(), slot, id);
        assert(slots_fit(world, mid.fresh())) by {
            assert(world.scheme.fits(mid.fresh().len()));
        }
        a_pinned_slot_fits(world, mid.fresh(), slot, id);
        let after = mid.fresh().pin(slot, id)->Ok_0;
        later_chains(mid, mid.fresh(), after);
        later_chains(slots, mid, after);
        let more = world.fields_bound(slots, scope, fields, names, count).1;
        assert(more == held.push(HeldForm { name: names[fewer as int], slot }));
        assert forall|i: int| 0 <= i < count implies (#[trigger] more[scope.len() + i]).name
            == names[i] && after.get(more[scope.len() + i].slot) == Some(fields[i]) by {
            if i < fewer {
                assert(more[scope.len() + i] == held[scope.len() + i]);
                assert(after.get(held[scope.len() + i].slot) == mid.get(
                    held[scope.len() + i].slot,
                ));
            }
        }
    }
}

/// How many of a constructor's fields a pattern names.
spec fn named_fields(fields: Seq<TypeId>, names: Seq<Seq<char>>) -> nat {
    if fields.len() < names.len() {
        fields.len()
    } else {
        names.len()
    }
}

proof fn a_pattern_moves_on(
    world: WorldForm,
    slots: Slots,
    scope: Seq<HeldForm>,
    pattern: PatternForm,
    slot: int,
)
    requires
        world.wf(),
        slots_fit(world, slots),
        scope_fits(scope, slots.len()),
        0 <= slot < slots.len(),
    ensures
        world.pattern_bound(slots, scope, pattern, slot) matches Ok((after, held)) ==> moved(
            world,
            slots,
            after,
        ) && scope_fits(held, after.len()),
{
    if let PatternForm::Ctor(name, names) = world.resolved(pattern) {
        a_named_ctor_fits(world, name);
        if let Some(ctor) = world.ctor(name) {
            let owner = world.store.ctor(ctor).owner;
            let fields = world.store.fields(ctor);
            a_pin_is_later(slots, slot, owner);
            a_pinned_slot_fits(world, slots, slot, owner);
            if let Ok(mid) = slots.pin(slot, owner) {
                let count = named_fields(fields, names);
                fields_move_on(world, mid, scope, fields, names, count);
                let (after, held) = world.fields_bound(mid, scope, fields, names, count);
                later_chains(slots, mid, after);
            }
        }
    }
}

proof fn patterns_move_on(
    world: WorldForm,
    slots: Slots,
    patterns: Seq<PatternForm>,
    base: int,
    count: nat,
)
    requires
        world.wf(),
        slots_fit(world, slots),
        0 <= base,
        base + count <= slots.len(),
    ensures
        world.patterns_bound(slots, patterns, base, count) matches Ok((after, held)) ==> moved(
            world,
            slots,
            after,
        ) && scope_fits(held, after.len()),
    decreases count,
{
    if count > 0 {
        let fewer = (count - 1) as nat;
        patterns_move_on(world, slots, patterns, base, fewer);
        if let Ok((mid, scope)) = world.patterns_bound(slots, patterns, base, fewer) {
            let pattern = patterns[fewer as int];
            a_pattern_moves_on(world, mid, scope, pattern, base + fewer);
            if let Ok((after, held)) = world.pattern_bound(mid, scope, pattern, base + fewer) {
                later_chains(slots, mid, after);
            }
        }
    }
}

proof fn steps_move_on(
    world: WorldForm,
    slots: Slots,
    scope: Seq<HeldForm>,
    caller: Seq<char>,
    steps: Seq<StepForm>,
    count: nat,
)
    requires
        world.wf(),
        slots_fit(world, slots),
        scope_fits(scope, slots.len()),
    ensures
        world.steps_bound(slots, scope, caller, steps, count) matches Ok((after, held)) ==> moved(
            world,
            slots,
            after,
        ) && scope_fits(held, after.len()),
    decreases count,
{
    if count > 0 {
        let fewer = (count - 1) as nat;
        steps_move_on(world, slots, scope, caller, steps, fewer);
        if let Ok((mid, held)) = world.steps_bound(slots, scope, caller, steps, fewer) {
            a_term_moves_on(world, mid, held, caller, steps[fewer as int].term);
            if let Ok((after, slot)) = world.term_slot(
                mid,
                held,
                caller,
                steps[fewer as int].term,
            ) {
                later_chains(slots, mid, after);
            }
        }
    }
}

/// Whether a clause takes as much as the function it is one of.
spec fn takes(world: WorldForm, at: int, clause: ClauseForm) -> bool {
    clause.patterns.len() == world.scheme.arity[at]
}

proof fn a_clause_moves_on(world: WorldForm, slots: Slots, at: int, clause: ClauseForm)
    requires
        world.wf(),
        slots_fit(world, slots),
        0 <= at < world.scheme.names.len(),
        takes(world, at, clause),
    ensures
        world.clause_told(slots, at, clause) matches Ok(after) ==> moved(world, slots, after),
{
    let caller = world.scheme.names[at];
    let base = world.scheme.base[at];
    let count = clause.patterns.len();
    assert(base + world.scheme.arity[at] < slots.len());
    patterns_move_on(world, slots, clause.patterns, base, count);
    if let Ok((first, scope)) = world.patterns_bound(slots, clause.patterns, base, count) {
        let steps = clause.steps;
        steps_move_on(world, first, scope, caller, steps, steps.len());
        if let Ok((second, held)) = world.steps_bound(first, scope, caller, steps, steps.len()) {
            later_chains(slots, first, second);
            a_term_moves_on(world, second, held, caller, clause.body);
            if let Ok((third, answer)) = world.term_slot(second, held, caller, clause.body) {
                later_chains(slots, second, third);
                let result = world.scheme.result(at);
                assert(0 <= result < third.len());
                a_union_is_later(third, answer, result);
                a_united_slot_fits(world, third, answer, result);
                if let Ok(after) = third.union(answer, result) {
                    later_chains(slots, third, after);
                }
            }
        }
    }
}

proof fn clauses_move_on(
    world: WorldForm,
    slots: Slots,
    at: int,
    clauses: Seq<ClauseForm>,
    count: nat,
)
    requires
        world.wf(),
        slots_fit(world, slots),
        0 <= at < world.scheme.names.len(),
        count <= clauses.len(),
        forall|c: int| 0 <= c < clauses.len() ==> takes(world, at, #[trigger] clauses[c]),
    ensures
        world.clauses_told(slots, at, clauses, count) matches Ok(after) ==> moved(
            world,
            slots,
            after,
        ),
    decreases count,
{
    if count > 0 {
        let fewer = (count - 1) as nat;
        clauses_move_on(world, slots, at, clauses, fewer);
        if let Ok(mid) = world.clauses_told(slots, at, clauses, fewer) {
            a_clause_moves_on(world, mid, at, clauses[fewer as int]);
            if let Ok(after) = world.clause_told(mid, at, clauses[fewer as int]) {
                later_chains(slots, mid, after);
            }
        }
    }
}

/// Whether every clause of the functions takes as much as its function, and
/// every function has one.
pub open spec fn steady(world: WorldForm, functions: Seq<FunctionForm>) -> bool {
    &&& functions.len() <= world.scheme.names.len()
    &&& forall|f: int|
        0 <= f < functions.len() ==> (#[trigger] functions[f]).clauses.len() > 0 && forall|c: int|
            0 <= c < functions[f].clauses.len() ==> (
            #[trigger] functions[f].clauses[c]).patterns.len() == world.scheme.arity[f]
}

proof fn functions_move_on(
    world: WorldForm,
    slots: Slots,
    functions: Seq<FunctionForm>,
    count: nat,
)
    requires
        world.wf(),
        slots_fit(world, slots),
        steady(world, functions),
        count <= functions.len(),
    ensures
        world.functions_told(slots, functions, count) matches Ok(after) ==> moved(
            world,
            slots,
            after,
        ),
    decreases count,
{
    if count > 0 {
        let fewer = (count - 1) as nat;
        functions_move_on(world, slots, functions, fewer);
        if let Ok(mid) = world.functions_told(slots, functions, fewer) {
            let clauses = functions[fewer as int].clauses;
            clauses_move_on(world, mid, fewer as int, clauses, clauses.len());
            if let Ok(after) = world.clauses_told(mid, fewer as int, clauses, clauses.len()) {
                later_chains(slots, mid, after);
            }
        }
    }
}

/// What was known where a clause was told, of all that came to be known.
proof fn where_a_clause_was_told(
    world: WorldForm,
    slots: Slots,
    at: int,
    clauses: Seq<ClauseForm>,
    count: nat,
    full: Slots,
    clause: int,
) -> (told: Slots)
    requires
        world.wf(),
        slots_fit(world, slots),
        0 <= at < world.scheme.names.len(),
        0 <= clause < count <= clauses.len(),
        forall|c: int| 0 <= c < clauses.len() ==> takes(world, at, #[trigger] clauses[c]),
        world.clauses_told(slots, at, clauses, count) matches Ok(after) && later(after, full),
    ensures
        slots_fit(world, told),
        world.clause_told(told, at, clauses[clause]) matches Ok(after) && later(after, full),
    decreases count,
{
    let fewer = (count - 1) as nat;
    let mid = world.clauses_told(slots, at, clauses, fewer)->Ok_0;
    clauses_move_on(world, slots, at, clauses, fewer);
    if clause == fewer {
        mid
    } else {
        a_clause_moves_on(world, mid, at, clauses[fewer as int]);
        let after = world.clause_told(mid, at, clauses[fewer as int])->Ok_0;
        later_chains(mid, after, full);
        where_a_clause_was_told(world, slots, at, clauses, fewer, full, clause)
    }
}

proof fn where_it_was_told(
    world: WorldForm,
    slots: Slots,
    functions: Seq<FunctionForm>,
    count: nat,
    full: Slots,
    function: int,
    clause: int,
) -> (told: Slots)
    requires
        world.wf(),
        slots_fit(world, slots),
        steady(world, functions),
        0 <= function < count <= functions.len(),
        0 <= clause < functions[function].clauses.len(),
        world.functions_told(slots, functions, count) matches Ok(after) && later(after, full),
    ensures
        slots_fit(world, told),
        world.clause_told(told, function, functions[function].clauses[clause]) matches Ok(after)
            && later(after, full),
    decreases count,
{
    let fewer = (count - 1) as nat;
    let mid = world.functions_told(slots, functions, fewer)->Ok_0;
    functions_move_on(world, slots, functions, fewer);
    let clauses = functions[fewer as int].clauses;
    if function == fewer {
        where_a_clause_was_told(
            world,
            mid,
            function,
            clauses,
            clauses.len(),
            full,
            clause,
        )
    } else {
        clauses_move_on(world, mid, fewer as int, clauses, clauses.len());
        let after = world.clauses_told(mid, fewer as int, clauses, clauses.len())->Ok_0;
        later_chains(mid, after, full);
        where_it_was_told(world, slots, functions, fewer, full, function, clause)
    }
}

/// Whether a program is the one that was worked out: its constructors are
/// those that were told apart, and its functions are what they were told to be.
spec fn agrees(world: WorldForm, full: Slots, store: Store) -> bool {
    &&& store.types == world.store.types
    &&& store.ctors == world.store.ctors
    &&& forall|c: CtorId|
        c.0 < store.ctors.len() ==> #[trigger] store.fields(c) == world.store.fields(c)
    &&& forall|name: Seq<char>| #[trigger]
        store.ctor_named(name, world.ctors) == world.ctor(name)
    &&& store.functions.len() == world.scheme.names.len()
    &&& forall|f: FnId|
        f.0 < store.functions.len() ==> #[trigger] is_as_told(world, full, store, f)
}

/// Whether a function is what it was told to be.
spec fn is_as_told(world: WorldForm, full: Slots, store: Store, f: FnId) -> bool {
    let at = f.0 as int;
    &&& parse::is_told(full, world.scheme, at)
    &&& store.params(f) == parse::told_params(full, world.scheme, at)
    &&& Some(store.function(f).result) == full.get(world.scheme.result(at))
    &&& store.works(f) == infer::is_effectful(world.scheme.names[at])
}

proof fn names_are_told_apart(old: Store, new: Store, name: Seq<char>, count: nat)
    requires
        new.names == old.names,
        new.ctors == old.ctors,
        new.types == old.types,
    ensures
        new.ctor_named(name, count) == old.ctor_named(name, count),
    decreases count,
{
    if count > 0 {
        names_are_told_apart(old, new, name, (count - 1) as nat);
    }
}

/// A program goes on being the one that was worked out.
proof fn agreeing_is_kept(world: WorldForm, full: Slots, old: Store, new: Store)
    requires
        agrees(world, full, old),
        new.keeps(old),
    ensures
        agrees(world, full, new),
{
    assert forall|name: Seq<char>| #[trigger]
        new.ctor_named(name, world.ctors) == world.ctor(name) by {
        names_are_told_apart(old, new, name, world.ctors);
        assert(old.ctor_named(name, world.ctors) == world.ctor(name));
    }
    assert forall|c: CtorId| c.0 < new.ctors.len() implies #[trigger] new.fields(c)
        == world.store.fields(c) by {
        assert(new.fields(c) == old.fields(c));
    }
    assert forall|f: FnId| f.0 < new.functions.len() implies #[trigger] is_as_told(
        world,
        full,
        new,
        f,
    ) by {
        assert(is_as_told(world, full, old, f));
        assert(new.functions[f.0 as int].params == old.functions[f.0 as int].params);
    }
}

/// Whether names stand for values of the types that were worked out of them.
spec fn aligned(
    held: Seq<HeldForm>,
    bound: Seq<BoundForm>,
    full: Slots,
    locals: Seq<TypeId>,
) -> bool {
    &&& held.len() == bound.len()
    &&& forall|i: int|
        #![trigger held[i]]
        #![trigger bound[i]]
        0 <= i < held.len() ==> {
            &&& held[i].name == bound[i].name
            &&& bound[i].atom.0.0 < locals.len()
            &&& full.get(held[i].slot) == Some(locals[bound[i].atom.0.0 as int])
        }
}

proof fn a_name_means_one_thing(
    held: Seq<HeldForm>,
    bound: Seq<BoundForm>,
    full: Slots,
    locals: Seq<TypeId>,
    name: Seq<char>,
    count: nat,
)
    requires
        aligned(held, bound, full, locals),
        count <= held.len(),
    ensures
        infer::slot_of(held, name, count) is Some <==> parse::atom_of(bound, name, count) is Some,
        infer::slot_of(held, name, count) matches Some(slot) ==> {
            let atom = parse::atom_of(bound, name, count)->Some_0;
            atom.0.0 < locals.len() && full.get(slot) == Some(locals[atom.0.0 as int])
        },
    decreases count,
{
    if count > 0 {
        assert(held[count - 1].name == bound[count - 1].name);
        if held[count - 1].name != name {
            a_name_means_one_thing(held, bound, full, locals, name, (count - 1) as nat);
        }
    }
}

proof fn alignment_is_kept(
    held: Seq<HeldForm>,
    bound: Seq<BoundForm>,
    full: Slots,
    locals: Seq<TypeId>,
    more: Seq<TypeId>,
)
    requires
        aligned(held, bound, full, locals),
        locals.is_prefix_of(more),
    ensures
        aligned(held, bound, full, more),
{
    assert forall|i: int| 0 <= i < held.len() implies bound[i].atom.0.0 < more.len() && full.get(
        (#[trigger] held[i]).slot,
    ) == Some(more[bound[i].atom.0.0 as int]) by {
        let at = bound[i].atom.0.0 as int;
        assert(locals[at] == more[at]);
    }
}

/// A scope as far as it has been built, whose bindings are typed, and take
/// nothing apart.
spec fn building(
    world: WorldForm,
    full: Slots,
    draft: Draft,
    base: nat,
    locals: Seq<TypeId>,
    pure: bool,
) -> bool {
    &&& typed_so_far(world, full, draft, base, locals, pure)
    &&& draft.is_straight()
}

/// The same of one that may have taken something apart.
spec fn typed_so_far(
    world: WorldForm,
    full: Slots,
    draft: Draft,
    base: nat,
    locals: Seq<TypeId>,
    pure: bool,
) -> bool {
    &&& draft.wf()
    &&& agrees(world, full, draft.program)
    &&& draft.is_typed(base, locals, pure)
}

/// Whether a scope that answers `result` closes to a term that takes one
/// thing apart at most, and first.
spec fn closes_flat(draft: Draft, result: Atom) -> bool {
    draft.is_straight() || {
        &&& draft.pending.len() == 1
        &&& draft.answers_last(result)
        &&& draft.program.is_flat(draft.pending[0])
    }
}

/// A run of atoms held changes nothing.
proof fn held_atoms_are_typed(draft: Draft, atoms: Seq<Atom>, base: nat, locals: Seq<TypeId>, pure: bool)
    requires
        draft.wf(),
        draft.is_typed(base, locals, pure),
    ensures
        draft.hold(atoms).wf(),
        draft.hold(atoms).program.grows(draft.program),
        draft.hold(atoms).is_typed(base, locals, pure),
{
    let after = draft.hold(atoms);
    builder::a_grown_program_fits(draft.program, after.program);
    typing::a_typed_scope_outlives_growth(draft, after.program, base, locals, pure);
}

/// A constructor applied to values of its fields' types is of its own.
proof fn a_con_is_typed(
    world: WorldForm,
    full: Slots,
    draft: Draft,
    ctor: CtorId,
    atoms: Seq<Atom>,
    base: nat,
    locals: Seq<TypeId>,
    pure: bool,
)
    requires
        building(world, full, draft, base, locals, pure),
        ctor.0 < draft.program.ctors.len(),
        draft.program.is_listed(ctor),
        draft.room(atoms.len() + 1),
        typing::atoms_fit(atoms, locals, draft.program.fields(ctor)),
    ensures
        building(
            world,
            full,
            draft.con(ctor, atoms),
            base,
            locals.push(draft.program.ctor(ctor).owner),
            pure,
        ),
        draft.con(ctor, atoms).program.grows(draft.program),
{
    let mid = draft.hold(atoms);
    let range = Range::from(draft.program.atoms.len(), atoms.len());
    let expr = Expr::Con(ctor, range);
    let after = mid.emit(expr);
    held_atoms_are_typed(draft, atoms, base, locals, pure);
    builder::an_emission_fits(mid, expr);
    assert(range.read(after.program.atoms) =~= atoms);
    assert(after.program.expr(mid.program.next()) == expr);
    typing::an_emission_is_typed(mid, expr, base, locals, draft.program.ctor(ctor).owner, pure);
    typing::a_straight_scope_outlives_growth(draft, mid.program);
    typing::an_emission_is_straight(mid, expr);
    builder::growth_chains(draft.program, mid.program, after.program);
    agreeing_is_kept(world, full, draft.program, after.program);
}

/// A function applied to values of its parameters' types is of its result's.
proof fn a_call_is_typed(
    world: WorldForm,
    full: Slots,
    draft: Draft,
    function: FnId,
    atoms: Seq<Atom>,
    base: nat,
    locals: Seq<TypeId>,
    pure: bool,
)
    requires
        building(world, full, draft, base, locals, pure),
        function.0 < draft.program.functions.len(),
        draft.room(atoms.len() + 1),
        typing::atoms_fit(atoms, locals, draft.program.params(function)),
        pure ==> !draft.program.works(function),
    ensures
        building(
            world,
            full,
            draft.call(function, atoms),
            base,
            locals.push(draft.program.function(function).result),
            pure,
        ),
        draft.call(function, atoms).program.grows(draft.program),
{
    let mid = draft.hold(atoms);
    let range = Range::from(draft.program.atoms.len(), atoms.len());
    let expr = Expr::Call(function, range);
    let after = mid.emit(expr);
    held_atoms_are_typed(draft, atoms, base, locals, pure);
    builder::an_emission_fits(mid, expr);
    assert(range.read(after.program.atoms) =~= atoms);
    assert(after.program.expr(mid.program.next()) == expr);
    typing::an_emission_is_typed(
        mid,
        expr,
        base,
        locals,
        draft.program.function(function).result,
        pure,
    );
    typing::a_straight_scope_outlives_growth(draft, mid.program);
    typing::an_emission_is_straight(mid, expr);
    builder::growth_chains(draft.program, mid.program, after.program);
    agreeing_is_kept(world, full, draft.program, after.program);
}

/// Whether a table is of the functions and constructors of a world.
spec fn tabled(world: WorldForm, table: TableForm) -> bool {
    table.ctors == world.ctors && table.scheme == world.scheme
}

/// What is built of a name that is handed nothing is of the type of what it is
/// bound to.
proof fn a_bare_call_is_typed(
    world: WorldForm,
    table: TableForm,
    full: Slots,
    slots: Slots,
    held: Seq<HeldForm>,
    caller: Seq<char>,
    name: Seq<char>,
    draft: Draft,
    bound: Seq<BoundForm>,
    base: nat,
    locals: Seq<TypeId>,
) -> (more: Seq<TypeId>)
    requires
        world.wf(),
        tabled(world, table),
        slots_fit(world, slots),
        scope_fits(held, slots.len()),
        infer::slot_of(held, name, held.len()) is Some,
        world.term_slot(slots, held, caller, TermForm::Apply(name, seq![])) matches Ok((after, _))
            && later(after, full),
        building(world, full, draft, base, locals, !infer::is_effectful(caller)),
        table.term_built(draft, bound, TermForm::Apply(name, seq![])) is Ok,
    ensures
        ({
            let term = TermForm::Apply(name, seq![]);
            let slot = world.term_slot(slots, held, caller, term)->Ok_0.1;
            let (end, atom) = table.term_built(draft, bound, term)->Ok_0;
            &&& building(world, full, end, base, more, !infer::is_effectful(caller))
            &&& end.program.grows(draft.program)
            &&& locals.is_prefix_of(more)
            &&& atom.0.0 < more.len()
            &&& full.get(slot) == Some(more[atom.0.0 as int])
        }),
{
    let pure = !infer::is_effectful(caller);
    let none = Seq::<Atom>::empty();
    let slot = infer::slot_of(held, name, held.len())->Some_0;
    let (after, _) = world.term_slot(slots, held, caller, TermForm::Apply(name, seq![]))->Ok_0;
    a_held_slot_fits(held, name, held.len(), slots.len());
    a_named_ctor_fits(world, name);
    a_named_function_is_one(world.scheme, name, 0);
    assert(draft.program.ctor_named(name, world.ctors) == world.ctor(name));
    assert(table.args_built(draft, bound, seq![]) == Ok::<_, Seq<char>>((draft, none)));
    if let Some(ctor) = world.ctor(name) {
        let owner = world.store.ctor(ctor).owner;
        a_pin_is_later(slots, slot, owner);
        assert(draft.program.fields(ctor) == world.store.fields(ctor));
        a_con_is_typed(world, full, draft, ctor, none, base, locals, pure);
        assert(after.get(slot) == Some(owner));
        locals.push(draft.program.ctor(ctor).owner)
    } else {
        let at = world.scheme.named(name);
        let function = FnId(at as u32);
        assert(draft.program.functions.len() <= u32::MAX);
        assert(is_as_told(world, full, draft.program, function));
        assert(world.scheme.base[at] + world.scheme.arity[at] < slots.len());
        a_union_is_later(slots, slot, world.scheme.result(at));
        assert(full.root[slot] == full.root[world.scheme.result(at)]);
        a_call_is_typed(world, full, draft, function, none, base, locals, pure);
        locals.push(draft.program.function(function).result)
    }
}

/// What is built of a term is of the type that was worked out of it.
proof fn a_term_is_typed(
    world: WorldForm,
    table: TableForm,
    full: Slots,
    slots: Slots,
    held: Seq<HeldForm>,
    caller: Seq<char>,
    term: TermForm,
    draft: Draft,
    bound: Seq<BoundForm>,
    base: nat,
    locals: Seq<TypeId>,
) -> (more: Seq<TypeId>)
    requires
        world.wf(),
        tabled(world, table),
        slots_fit(world, slots),
        scope_fits(held, slots.len()),
        world.term_slot(slots, held, caller, term) matches Ok((after, _)) && later(after, full),
        building(world, full, draft, base, locals, !infer::is_effectful(caller)),
        aligned(held, bound, full, locals),
        table.term_built(draft, bound, term) is Ok,
    ensures
        ({
            let slot = world.term_slot(slots, held, caller, term)->Ok_0.1;
            let (end, atom) = table.term_built(draft, bound, term)->Ok_0;
            &&& building(world, full, end, base, more, !infer::is_effectful(caller))
            &&& end.program.grows(draft.program)
            &&& locals.is_prefix_of(more)
            &&& atom.0.0 < more.len()
            &&& full.get(slot) == Some(more[atom.0.0 as int])
        }),
    decreases term, 0nat,
{
    let pure = !infer::is_effectful(caller);
    let name = match term {
        TermForm::Name(name) => name,
        TermForm::Apply(name, _) => name,
    };
    a_name_means_one_thing(held, bound, full, locals, name, held.len());
    a_named_ctor_fits(world, name);
    a_named_function_is_one(world.scheme, name, 0);
    assert(draft.program.ctor_named(name, world.ctors) == world.ctor(name));
    let (after, slot) = world.term_slot(slots, held, caller, term)->Ok_0;
    let (end, atom) = table.term_built(draft, bound, term)->Ok_0;
    match term {
        TermForm::Name(_) => {
            if parse::atom_of(bound, name, bound.len()) is Some {
                locals
            } else {
                let ctor = world.ctor(name)->Some_0;
                let none = Seq::<Atom>::empty();
                a_built_slot_is_later(world, slots, ctor);
                assert(draft.program.fields(ctor) == world.store.fields(ctor));
                a_con_is_typed(world, full, draft, ctor, none, base, locals, pure);
                assert(after.get(slot) == Some(world.store.ctor(ctor).owner));
                locals.push(draft.program.ctor(ctor).owner)
            }
        },
        TermForm::Apply(_, args) => {
            let (mid, atoms) = table.args_built(draft, bound, args)->Ok_0;
            if infer::slot_of(held, name, held.len()) is Some {
                assert(args.len() == 0);
                a_bare_call_is_typed(
                    world,
                    table,
                    full,
                    slots,
                    held,
                    caller,
                    name,
                    draft,
                    bound,
                    base,
                    locals,
                )
            } else if let Some(ctor) = world.ctor(name) {
                let fields = world.store.fields(ctor);
                let told = world.args_pinned(slots, held, caller, args, fields)->Ok_0;
                args_move_on(world, slots, held, caller, args, fields, None);
                a_built_slot_is_later(world, told, ctor);
                later_chains(told, after, full);
                let more = args_are_typed(
                    world,
                    table,
                    full,
                    slots,
                    held,
                    caller,
                    args,
                    fields,
                    None,
                    draft,
                    bound,
                    base,
                    locals,
                );
                assert(mid.program.ctor_named(name, world.ctors) == world.ctor(name));
                assert(mid.program.fields(ctor) == fields);
                a_con_is_typed(world, full, mid, ctor, atoms, base, more, pure);
                builder::growth_chains(draft.program, mid.program, end.program);
                assert(after.get(slot) == Some(world.store.ctor(ctor).owner));
                more.push(mid.program.ctor(ctor).owner)
            } else {
                let at = world.scheme.named(name);
                let function = FnId(at as u32);
                let run = world.scheme.base[at];
                assert(draft.program.functions.len() <= u32::MAX);
                let wanted = parse::told_params(full, world.scheme, at);
                assert(is_as_told(world, full, draft.program, function));
                assert(run + world.scheme.arity[at] < slots.len());
                assert forall|i: int| 0 <= i < args.len() implies Some(#[trigger] wanted[i])
                    == full.get(run + i) by {
                    assert(full.get(world.scheme.base[at] + i) is Some);
                }
                let more = args_are_typed(
                    world,
                    table,
                    full,
                    slots,
                    held,
                    caller,
                    args,
                    wanted,
                    Some(run),
                    draft,
                    bound,
                    base,
                    locals,
                );
                assert(mid.program.ctor_named(name, world.ctors) == world.ctor(name));
                assert(is_as_told(world, full, mid.program, function));
                a_call_is_typed(world, full, mid, function, atoms, base, more, pure);
                builder::growth_chains(draft.program, mid.program, end.program);
                more.push(mid.program.function(function).result)
            }
        },
    }
}

/// What is built of arguments is of the types they were told to be of.
proof fn args_are_typed(
    world: WorldForm,
    table: TableForm,
    full: Slots,
    slots: Slots,
    held: Seq<HeldForm>,
    caller: Seq<char>,
    args: Seq<TermForm>,
    wanted: Seq<TypeId>,
    run: Option<int>,
    draft: Draft,
    bound: Seq<BoundForm>,
    base: nat,
    locals: Seq<TypeId>,
) -> (more: Seq<TypeId>)
    requires
        world.wf(),
        tabled(world, table),
        slots_fit(world, slots),
        scope_fits(held, slots.len()),
        args.len() <= wanted.len(),
        match run {
            None => forall|i: int|
                0 <= i < wanted.len() ==> (#[trigger] wanted[i]).0 < world.store.types.len(),
            Some(from) => 0 <= from && from + args.len() <= slots.len() && forall|i: int|
                0 <= i < args.len() ==> Some(#[trigger] wanted[i]) == full.get(from + i),
        },
        args_told(world, slots, held, caller, args, wanted, run) matches Ok(after) && later(
            after,
            full,
        ),
        building(world, full, draft, base, locals, !infer::is_effectful(caller)),
        aligned(held, bound, full, locals),
        table.args_built(draft, bound, args) is Ok,
    ensures
        ({
            let (end, atoms) = table.args_built(draft, bound, args)->Ok_0;
            &&& building(world, full, end, base, more, !infer::is_effectful(caller))
            &&& end.program.grows(draft.program)
            &&& locals.is_prefix_of(more)
            &&& typing::atoms_fit(atoms, more, wanted.take(args.len() as int))
        }),
    decreases args, 1nat,
{
    if args.len() == 0 {
        locals
    } else {
        let rest = args.drop_last();
        let last = args.len() - 1;
        let told = args_told(world, slots, held, caller, rest, wanted, run)->Ok_0;
        let (mid, atoms) = table.args_built(draft, bound, rest)->Ok_0;
        let (next, slot) = world.term_slot(told, held, caller, args.last())->Ok_0;
        let (end, atom) = table.term_built(mid, bound, args.last())->Ok_0;
        let after = args_told(world, slots, held, caller, args, wanted, run)->Ok_0;
        args_move_on(world, slots, held, caller, rest, wanted, run);
        a_term_moves_on(world, told, held, caller, args.last());
        match run {
            None => {
                a_pin_is_later(next, slot, wanted[last]);
                assert(after.get(slot) == Some(wanted[last]));
            },
            Some(from) => {
                a_union_is_later(next, slot, from + last);
                assert(full.root[slot] == full.root[from + last]) by {
                    assert(after.root[slot] == after.root[from + last]);
                }
                assert(Some(wanted[last]) == full.get(from + last));
            },
        }
        later_chains(next, after, full);
        later_chains(told, next, full);
        let some = args_are_typed(
            world,
            table,
            full,
            slots,
            held,
            caller,
            rest,
            wanted,
            run,
            draft,
            bound,
            base,
            locals,
        );
        alignment_is_kept(held, bound, full, locals, some);
        let more = a_term_is_typed(
            world,
            table,
            full,
            told,
            held,
            caller,
            args.last(),
            mid,
            bound,
            base,
            some,
        );
        builder::growth_chains(draft.program, mid.program, end.program);
        let all = atoms.push(atom);
        let types = wanted.take(args.len() as int);
        assert forall|i: int| 0 <= i < all.len() implies (#[trigger] all[i]).0.0 < more.len()
            && more[all[i].0.0 as int] == types[i] by {
            if i < last {
                assert(all[i] == atoms[i]);
                assert(wanted.take(last)[i] == wanted[i]);
                assert(some[atoms[i].0.0 as int] == more[atoms[i].0.0 as int]);
            } else {
                assert(full.get(slot) == Some(wanted[last]));
            }
        }
        more
    }
}

proof fn steps_are_typed(
    world: WorldForm,
    table: TableForm,
    full: Slots,
    slots: Slots,
    held: Seq<HeldForm>,
    caller: Seq<char>,
    steps: Seq<StepForm>,
    count: nat,
    draft: Draft,
    bound: Seq<BoundForm>,
    base: nat,
    locals: Seq<TypeId>,
) -> (more: Seq<TypeId>)
    requires
        world.wf(),
        tabled(world, table),
        slots_fit(world, slots),
        scope_fits(held, slots.len()),
        world.steps_bound(slots, held, caller, steps, count) matches Ok((after, _)) && later(
            after,
            full,
        ),
        building(world, full, draft, base, locals, !infer::is_effectful(caller)),
        aligned(held, bound, full, locals),
        table.steps_built(draft, bound, steps, count) is Ok,
    ensures
        ({
            let scope = world.steps_bound(slots, held, caller, steps, count)->Ok_0.1;
            let (end, names) = table.steps_built(draft, bound, steps, count)->Ok_0;
            &&& building(world, full, end, base, more, !infer::is_effectful(caller))
            &&& end.program.grows(draft.program)
            &&& locals.is_prefix_of(more)
            &&& aligned(scope, names, full, more)
        }),
    decreases count,
{
    if count == 0 {
        locals
    } else {
        let fewer = (count - 1) as nat;
        let term = steps[fewer as int].term;
        let (told, scope) = world.steps_bound(slots, held, caller, steps, fewer)->Ok_0;
        let (mid, names) = table.steps_built(draft, bound, steps, fewer)->Ok_0;
        let (after, slot) = world.term_slot(told, scope, caller, term)->Ok_0;
        let (end, atom) = table.term_built(mid, names, term)->Ok_0;
        steps_move_on(world, slots, held, caller, steps, fewer);
        a_term_moves_on(world, told, scope, caller, term);
        later_chains(told, after, full);
        let some = steps_are_typed(
            world,
            table,
            full,
            slots,
            held,
            caller,
            steps,
            fewer,
            draft,
            bound,
            base,
            locals,
        );
        let more = a_term_is_typed(
            world,
            table,
            full,
            told,
            scope,
            caller,
            term,
            mid,
            names,
            base,
            some,
        );
        builder::growth_chains(draft.program, mid.program, end.program);
        alignment_is_kept(scope, names, full, some, more);
        let name = steps[fewer as int].name;
        let wide = scope.push(HeldForm { name, slot });
        let long = names.push(BoundForm { name, atom });
        assert(aligned(wide, long, full, more)) by {
            assert forall|i: int| 0 <= i < wide.len() implies (#[trigger] wide[i]).name
                == long[i].name && long[i].atom.0.0 < more.len() && full.get(wide[i].slot) == Some(
                more[long[i].atom.0.0 as int],
            ) by {
                if i < scope.len() {
                    assert(wide[i] == scope[i]);
                    assert(long[i] == names[i]);
                }
            }
        }
        more
    }
}

/// What is built of a clause answers what its function was told to answer.
proof fn a_clause_is_typed(
    world: WorldForm,
    table: TableForm,
    full: Slots,
    told: Slots,
    at: int,
    clause: ClauseForm,
    draft: Draft,
    bound: Seq<BoundForm>,
    base: nat,
    locals: Seq<TypeId>,
) -> (more: Seq<TypeId>)
    requires
        world.wf(),
        tabled(world, table),
        slots_fit(world, told),
        0 <= at < world.scheme.names.len(),
        takes(world, at, clause),
        world.clause_told(told, at, clause) matches Ok(after) && later(after, full),
        building(
            world,
            full,
            draft,
            base,
            locals,
            !infer::is_effectful(world.scheme.names[at]),
        ),
        world.patterns_bound(
            told,
            clause.patterns,
            world.scheme.base[at],
            clause.patterns.len(),
        ) matches Ok((first, held)) && (later(first, full) ==> aligned(held, bound, full, locals)),
        table.clause_built(draft, bound, clause) is Ok,
    ensures
        ({
            let (end, atom) = table.clause_built(draft, bound, clause)->Ok_0;
            &&& building(
                world,
                full,
                end,
                base,
                more,
                !infer::is_effectful(world.scheme.names[at]),
            )
            &&& end.program.grows(draft.program)
            &&& locals.is_prefix_of(more)
            &&& atom.0.0 < more.len()
            &&& full.get(world.scheme.result(at)) == Some(more[atom.0.0 as int])
        }),
{
    let caller = world.scheme.names[at];
    let from = world.scheme.base[at];
    let steps = clause.steps;
    let (first, held) = world.patterns_bound(
        told,
        clause.patterns,
        from,
        clause.patterns.len(),
    )->Ok_0;
    let (second, scope) = world.steps_bound(first, held, caller, steps, steps.len())->Ok_0;
    let (third, answer) = world.term_slot(second, scope, caller, clause.body)->Ok_0;
    let after = world.clause_told(told, at, clause)->Ok_0;
    let result = world.scheme.result(at);
    assert(from + world.scheme.arity[at] < told.len());
    patterns_move_on(world, told, clause.patterns, from, clause.patterns.len());
    steps_move_on(world, first, held, caller, steps, steps.len());
    a_term_moves_on(world, second, scope, caller, clause.body);
    a_union_is_later(third, answer, result);
    later_chains(third, after, full);
    later_chains(second, third, full);
    later_chains(first, second, full);
    let (mid, names) = table.steps_built(draft, bound, steps, steps.len())->Ok_0;
    let some = steps_are_typed(
        world,
        table,
        full,
        first,
        held,
        caller,
        steps,
        steps.len(),
        draft,
        bound,
        base,
        locals,
    );
    let more = a_term_is_typed(
        world,
        table,
        full,
        second,
        scope,
        caller,
        clause.body,
        mid,
        names,
        base,
        some,
    );
    let end = table.clause_built(draft, bound, clause)->Ok_0.0;
    builder::growth_chains(draft.program, mid.program, end.program);
    assert(full.root[answer] == full.root[result]) by {
        assert(after.root[answer] == after.root[result]);
    }
    more
}

proof fn patterns_read_alike(world: WorldForm, table: TableForm, full: Slots, store: Store)
    requires
        tabled(world, table),
        agrees(world, full, store),
    ensures
        forall|pattern: PatternForm| #[trigger]
            table.world(store).resolved(pattern) == world.resolved(pattern),
{
    assert forall|pattern: PatternForm| #[trigger]
        table.world(store).resolved(pattern) == world.resolved(pattern) by {
        if let PatternForm::Bind(name) = pattern {
            assert(store.ctor_named(name, world.ctors) == world.ctor(name));
        }
    }
}

/// Whether what a pattern takes apart is what one constructor builds, whose
/// fields are there.
spec fn takes_apart(
    world: WorldForm,
    pattern: PatternForm,
    ctor: CtorId,
    fields: Seq<Atom>,
    locals: Seq<TypeId>,
) -> bool {
    world.resolved(pattern) matches PatternForm::Ctor(name, names) ==> {
        &&& world.ctor(name) == Some(ctor)
        &&& names.len() == world.store.fields(ctor).len()
        &&& typing::atoms_fit(fields, locals, world.store.fields(ctor))
    }
}

/// What a clause's patterns bind is of the types that were worked out.
proof fn patterns_agree(
    world: WorldForm,
    table: TableForm,
    full: Slots,
    told: Slots,
    patterns: Seq<PatternForm>,
    from: int,
    store: Store,
    args: Seq<Atom>,
    fields: Seq<Atom>,
    matched: Option<int>,
    ctor: CtorId,
    locals: Seq<TypeId>,
    count: nat,
)
    requires
        world.wf(),
        tabled(world, table),
        slots_fit(world, told),
        agrees(world, full, store),
        0 <= from,
        from + patterns.len() <= told.len(),
        count <= patterns.len(),
        world.patterns_bound(told, patterns, from, count) matches Ok((after, _)) && later(
            after,
            full,
        ),
        forall|i: int|
            0 <= i < patterns.len() ==> (#[trigger] args[i]).0.0 < locals.len() && full.get(
                from + i,
            ) == Some(locals[args[i].0.0 as int]),
        forall|i: int|
            0 <= i < patterns.len() ==> takes_apart(
                world,
                #[trigger] patterns[i],
                ctor,
                fields,
                locals,
            ) && (world.resolved(patterns[i]) is Ctor ==> matched == Some(i)),
    ensures
        aligned(
            world.patterns_bound(told, patterns, from, count)->Ok_0.1,
            parse::arm_scope(table.world(store), patterns, args, fields, matched, count),
            full,
            locals,
        ),
    decreases count,
{
    if count > 0 {
        let fewer = (count - 1) as nat;
        let at = fewer as int;
        let pattern = patterns[at];
        let (mid, held) = world.patterns_bound(told, patterns, from, fewer)->Ok_0;
        let (after, wide) = world.patterns_bound(told, patterns, from, count)->Ok_0;
        let bound = parse::arm_scope(
            table.world(store),
            patterns,
            args,
            fields,
            matched,
            fewer,
        );
        let long = parse::arm_scope(table.world(store), patterns, args, fields, matched, count);
        patterns_move_on(world, told, patterns, from, fewer);
        a_pattern_moves_on(world, mid, held, pattern, from + at);
        later_chains(mid, after, full);
        patterns_agree(
            world,
            table,
            full,
            told,
            patterns,
            from,
            store,
            args,
            fields,
            matched,
            ctor,
            locals,
            fewer,
        );
        patterns_read_alike(world, table, full, store);
        assert(table.world(store).resolved(pattern) == world.resolved(pattern));
        assert(takes_apart(world, pattern, ctor, fields, locals));
        assert(args[at].0.0 < locals.len());
        match world.resolved(pattern) {
            PatternForm::Bind(name) => {
                assert forall|i: int| 0 <= i < wide.len() implies (#[trigger] wide[i]).name
                    == long[i].name && long[i].atom.0.0 < locals.len() && full.get(wide[i].slot)
                    == Some(locals[long[i].atom.0.0 as int]) by {
                    if i < held.len() {
                        assert(wide[i] == held[i]);
                        assert(long[i] == bound[i]);
                    }
                }
            },
            PatternForm::Ctor(name, names) => {
                let types = world.store.fields(ctor);
                let pinned = mid.pin(from + at, world.store.ctor(ctor).owner)->Ok_0;
                a_named_ctor_fits(world, name);
                a_pin_is_later(mid, from + at, world.store.ctor(ctor).owner);
                a_pinned_slot_fits(world, mid, from + at, world.store.ctor(ctor).owner);
                fields_move_on(world, pinned, held, types, names, types.len());
                assert forall|i: int| 0 <= i < wide.len() implies (#[trigger] wide[i]).name
                    == long[i].name && long[i].atom.0.0 < locals.len() && full.get(wide[i].slot)
                    == Some(locals[long[i].atom.0.0 as int]) by {
                    if i < held.len() {
                        assert(wide[i] == held[i]);
                        assert(long[i] == bound[i]);
                    } else {
                        let j = i - held.len();
                        assert(wide[held.len() + j].name == names[j]);
                        assert(long[i] == parse::revealed(names, fields)[j]);
                        assert(fields[j].0.0 < locals.len());
                        assert(full.get(wide[i].slot) == after.get(wide[i].slot));
                    }
                }
            },
        }
    }
}

/// Whether the one argument that patterns take apart is `matched`.
pub(super) open spec fn takes_one_apart(
    world: WorldForm,
    patterns: Seq<PatternForm>,
    matched: Option<int>,
    count: nat,
) -> bool {
    forall|i: int|
        0 <= i < count ==> (world.resolved(#[trigger] patterns[i]) is Ctor ==> matched == Some(i))
}

proof fn patterns_take_one_apart(
    world: WorldForm,
    patterns: Seq<PatternForm>,
    already: Option<int>,
    count: nat,
)
    ensures
        parse::patterns_matched(world, patterns, already, count) matches Ok(held) ==> {
            &&& already is Some ==> held == already
            &&& takes_one_apart(world, patterns, held, count)
        },
    decreases count,
{
    if count > 0 {
        patterns_take_one_apart(world, patterns, already, (count - 1) as nat);
    }
}

pub(super) proof fn clauses_take_one_apart(world: WorldForm, clauses: Seq<ClauseForm>, count: nat)
    ensures
        parse::clauses_matched(world, clauses, count) matches Ok(held) ==> forall|c: int|
            0 <= c < count ==> takes_one_apart(
                world,
                (#[trigger] clauses[c]).patterns,
                held,
                clauses[c].patterns.len(),
            ),
    decreases count,
{
    if count > 0 {
        let fewer = (count - 1) as nat;
        clauses_take_one_apart(world, clauses, fewer);
        if let Ok(before) = parse::clauses_matched(world, clauses, fewer) {
            let patterns = clauses[fewer as int].patterns;
            patterns_take_one_apart(world, patterns, before, patterns.len());
        }
    }
}

/// A clause that covers a constructor names it, or binds.
proof fn a_covering_clause_covers(
    world: WorldForm,
    clauses: Seq<ClauseForm>,
    matched: int,
    wanted: Seq<char>,
)
    ensures
        ({
            let at = parse::covering(world, clauses, matched, wanted);
            at < clauses.len() ==> 0 <= at && (world.resolved(clauses[at].patterns[matched]) is Bind
                || parse::names_it(world, clauses[at].patterns[matched], wanted))
        }),
{
    a_naming_clause_names(world, clauses, matched, wanted, 0);
    a_binding_clause_binds(world, clauses, matched, 0);
}

proof fn a_naming_clause_names(
    world: WorldForm,
    clauses: Seq<ClauseForm>,
    matched: int,
    wanted: Seq<char>,
    from: int,
)
    requires
        0 <= from,
    ensures
        ({
            let at = parse::naming(world, clauses, matched, wanted, from);
            0 <= at && (at < clauses.len() ==> parse::names_it(
                world,
                clauses[at].patterns[matched],
                wanted,
            ))
        }),
    decreases clauses.len() - from,
{
    if from < clauses.len() && !parse::names_it(world, clauses[from].patterns[matched], wanted) {
        a_naming_clause_names(world, clauses, matched, wanted, from + 1);
    }
}

proof fn a_binding_clause_binds(
    world: WorldForm,
    clauses: Seq<ClauseForm>,
    matched: int,
    from: int,
)
    requires
        0 <= from,
    ensures
        ({
            let at = parse::binding(world, clauses, matched, from);
            0 <= at && (at < clauses.len() ==> world.resolved(clauses[at].patterns[matched])
                is Bind)
        }),
    decreases clauses.len() - from,
{
    if from < clauses.len() && !(world.resolved(clauses[from].patterns[matched]) is Bind) {
        a_binding_clause_binds(world, clauses, matched, from + 1);
    }
}

/// Whether functions were worked out, from slots that fit.
spec fn worked(
    world: WorldForm,
    slots: Slots,
    functions: Seq<FunctionForm>,
    full: Slots,
) -> bool {
    &&& world.wf()
    &&& slots_fit(world, slots)
    &&& slots_fit(world, full)
    &&& steady(world, functions)
    &&& world.functions_told(slots, functions, functions.len()) == Ok::<_, Seq<char>>(full)
}

/// A body as it begins: nothing bound yet but what its function takes.
spec fn begun(world: WorldForm, full: Slots, draft: Draft, at: int) -> bool {
    &&& 0 <= at < world.scheme.names.len()
    &&& parse::is_told(full, world.scheme, at)
    &&& draft.pending.len() == 0
    &&& draft.level == world.scheme.arity[at]
    &&& draft.wf()
    &&& agrees(world, full, draft.program)
}

/// What stands for a function's parameters.
spec fn first_locals(count: nat) -> Seq<Atom> {
    Seq::new(count, |i: int| Atom(Local(i as u32)))
}

/// What is built of a clause, where its function's parameters and the fields
/// of `ctor` are bound.
proof fn a_taken_clause_is_typed(
    world: WorldForm,
    table: TableForm,
    slots: Slots,
    functions: Seq<FunctionForm>,
    full: Slots,
    at: int,
    clause: int,
    outer: Draft,
    matched: Option<int>,
    ctor: CtorId,
    revealed: Seq<TypeId>,
) -> (more: Seq<TypeId>)
    requires
        worked(world, slots, functions, full),
        tabled(world, table),
        begun(world, full, outer, at),
        at < functions.len(),
        0 <= clause < functions[at].clauses.len(),
        outer.level + revealed.len() <= u32::MAX,
        takes_one_apart(
            world,
            functions[at].clauses[clause].patterns,
            matched,
            functions[at].clauses[clause].patterns.len(),
        ),
        matched matches Some(m) ==> {
            let pattern = functions[at].clauses[clause].patterns[m];
            world.resolved(pattern) matches PatternForm::Ctor(name, names) ==> {
                &&& world.ctor(name) == Some(ctor)
                &&& names.len() == world.store.fields(ctor).len()
                &&& revealed == world.store.fields(ctor)
            }
        },
        table.clause_built(
            outer.inside(revealed.len()),
            parse::arm_scope(
                table.world(outer.program),
                functions[at].clauses[clause].patterns,
                first_locals(world.scheme.arity[at]),
                outer.binders(revealed.len()),
                matched,
                functions[at].clauses[clause].patterns.len(),
            ),
            functions[at].clauses[clause],
        ) is Ok,
    ensures
        ({
            let (end, atom) = table.clause_built(
                outer.inside(revealed.len()),
                parse::arm_scope(
                    table.world(outer.program),
                    functions[at].clauses[clause].patterns,
                    first_locals(world.scheme.arity[at]),
                    outer.binders(revealed.len()),
                    matched,
                    functions[at].clauses[clause].patterns.len(),
                ),
                functions[at].clauses[clause],
            )->Ok_0;
            &&& building(
                world,
                full,
                end,
                outer.level + revealed.len(),
                more,
                !infer::is_effectful(world.scheme.names[at]),
            )
            &&& end.program.grows(outer.program)
            &&& (parse::told_params(full, world.scheme, at) + revealed).is_prefix_of(more)
            &&& atom.0.0 < more.len()
            &&& full.get(world.scheme.result(at)) == Some(more[atom.0.0 as int])
        }),
{
    let taken = functions[at].clauses[clause];
    let patterns = taken.patterns;
    let params = parse::told_params(full, world.scheme, at);
    let locals = params + revealed;
    let args = first_locals(world.scheme.arity[at]);
    let fields = outer.binders(revealed.len());
    let inner = outer.inside(revealed.len());
    let from = world.scheme.base[at];
    let bound = parse::arm_scope(
        table.world(outer.program),
        patterns,
        args,
        fields,
        matched,
        patterns.len(),
    );
    let told = where_it_was_told(
        world,
        slots,
        functions,
        functions.len(),
        full,
        at,
        clause,
    );
    assert(takes(world, at, taken));
    assert(from + world.scheme.arity[at] < told.len());
    assert forall|i: int| 0 <= i < patterns.len() implies (#[trigger] args[i]).0.0 < locals.len()
        && full.get(from + i) == Some(locals[args[i].0.0 as int]) by {
        assert(full.get(world.scheme.base[at] + i) is Some);
        assert(locals[i] == params[i]);
    }
    assert forall|i: int| 0 <= i < patterns.len() implies takes_apart(
        world,
        #[trigger] patterns[i],
        ctor,
        fields,
        locals,
    ) && (world.resolved(patterns[i]) is Ctor ==> matched == Some(i)) by {
        if let PatternForm::Ctor(name, names) = world.resolved(patterns[i]) {
            assert(matched == Some(i));
            assert forall|j: int| 0 <= j < fields.len() implies (#[trigger] fields[j]).0.0
                < locals.len() && locals[fields[j].0.0 as int] == world.store.fields(ctor)[j] by {
                assert(locals[params.len() + j] == revealed[j]);
            }
        }
    }
    let pure = !infer::is_effectful(world.scheme.names[at]);
    assert(inner.is_typed(outer.level + revealed.len(), locals, pure));
    if let Ok((first, _)) = world.patterns_bound(told, patterns, from, patterns.len()) {
        if later(first, full) {
            patterns_agree(
                world,
                table,
                full,
                told,
                patterns,
                from,
                outer.program,
                args,
                fields,
                matched,
                ctor,
                locals,
                patterns.len(),
            );
        }
    }
    a_clause_is_typed(
        world,
        table,
        full,
        told,
        at,
        taken,
        inner,
        bound,
        outer.level + revealed.len(),
        locals,
    )
}

/// Where an arm's term and its result's type are known.
spec fn arm_is_typed(world: WorldForm, full: Slots, store: Store, at: int, arm: Arm) -> bool {
    &&& arm.body.0 < store.exprs.len()
    &&& arm.ctor.0 < store.ctors.len()
    &&& store.is_straight(arm.body)
    &&& store.has_type(
        arm.body,
        parse::told_params(full, world.scheme, at) + store.fields(arm.ctor),
        full.get(world.scheme.result(at))->Some_0,
        !infer::is_effectful(world.scheme.names[at]),
    )
}

/// Whether every clause of a function takes the same argument apart.
spec fn clauses_agree(
    world: WorldForm,
    clauses: Seq<ClauseForm>,
    matched: Option<int>,
) -> bool {
    forall|c: int|
        0 <= c < clauses.len() ==> takes_one_apart(
            world,
            (#[trigger] clauses[c]).patterns,
            matched,
            clauses[c].patterns.len(),
        )
}

proof fn an_arm_is_typed(
    world: WorldForm,
    table: TableForm,
    slots: Slots,
    functions: Seq<FunctionForm>,
    full: Slots,
    at: int,
    outer: Draft,
    matched: int,
    ctor: CtorId,
)
    requires
        worked(world, slots, functions, full),
        tabled(world, table),
        begun(world, full, outer, at),
        at < functions.len(),
        clauses_agree(world, functions[at].clauses, Some(matched)),
        ctor.0 < outer.program.ctors.len(),
        table.arm_built(
            outer,
            functions[at].clauses,
            first_locals(world.scheme.arity[at]),
            matched,
            ctor,
        ) is Ok,
    ensures
        ({
            let (end, arm) = table.arm_built(
                outer,
                functions[at].clauses,
                first_locals(world.scheme.arity[at]),
                matched,
                ctor,
            )->Ok_0;
            &&& begun(world, full, end, at)
            &&& end.program.grows(outer.program)
            &&& arm.ctor == ctor
            &&& arm_is_typed(world, full, end.program, at, arm)
        }),
{
    let clauses = functions[at].clauses;
    let args = first_locals(world.scheme.arity[at]);
    let store = outer.program;
    let wanted = store.name(store.ctor(ctor).name);
    let count = store.ctor(ctor).fields.len as nat;
    let found = parse::covering(table.world(store), clauses, matched, wanted);
    let revealed = world.store.fields(ctor);
    assert(store.ctor_fits(ctor.0 as int));
    assert(store.fields(ctor) == revealed);
    a_covering_clause_covers(table.world(store), clauses, matched, wanted);
    patterns_read_alike(world, table, full, store);
    let pattern = clauses[found].patterns[matched];
    assert(table.world(store).resolved(pattern) == world.resolved(pattern));
    assert(store.ctor_named(wanted, world.ctors) == world.ctor(wanted));
    assert(takes_one_apart(
        world,
        clauses[found].patterns,
        Some(matched),
        clauses[found].patterns.len(),
    ));
    let more = a_taken_clause_is_typed(
        world,
        table,
        slots,
        functions,
        full,
        at,
        found,
        outer,
        Some(matched),
        ctor,
        revealed,
    );
    let scope = parse::arm_scope(
        table.world(store),
        clauses[found].patterns,
        args,
        outer.binders(count),
        Some(matched),
        clauses[found].patterns.len(),
    );
    let (inner, result) = table.clause_built(outer.inside(count), scope, clauses[found])->Ok_0;
    let pure = !infer::is_effectful(world.scheme.names[at]);
    let base = outer.level + revealed.len();
    typing::a_closed_scope_is_straight(inner, result);
    typing::a_closed_scope_is_typed(inner, result, base, more, pure);
    builder::a_closed_scope_fits(inner, inner, result);
    let closed = inner.closed(result).0;
    builder::growth_chains(store, inner.program, closed);
    agreeing_is_kept(world, full, store, closed);
    let params = parse::told_params(full, world.scheme, at);
    assert(more.take(base as int) =~= params + revealed);
    assert(closed.fields(ctor) == revealed);
}

proof fn arms_are_typed(
    world: WorldForm,
    table: TableForm,
    slots: Slots,
    functions: Seq<FunctionForm>,
    full: Slots,
    at: int,
    outer: Draft,
    matched: int,
    owner: TypeId,
    count: nat,
)
    requires
        worked(world, slots, functions, full),
        tabled(world, table),
        begun(world, full, outer, at),
        at < functions.len(),
        clauses_agree(world, functions[at].clauses, Some(matched)),
        owner.0 < outer.program.types.len(),
        count <= outer.program.type_(owner).ctors.len,
        table.arms_built(
            outer,
            functions[at].clauses,
            first_locals(world.scheme.arity[at]),
            matched,
            owner,
            count,
        ) is Ok,
    ensures
        ({
            let (end, arms) = table.arms_built(
                outer,
                functions[at].clauses,
                first_locals(world.scheme.arity[at]),
                matched,
                owner,
                count,
            )->Ok_0;
            &&& begun(world, full, end, at)
            &&& end.program.grows(outer.program)
            &&& arms.len() == count
            &&& forall|i: int|
                0 <= i < count ==> (#[trigger] arms[i]).ctor == outer.program.ctor_at(
                    owner,
                    i as nat,
                ) && arm_is_typed(world, full, end.program, at, arms[i])
        }),
    decreases count,
{
    if count > 0 {
        let fewer = (count - 1) as nat;
        let clauses = functions[at].clauses;
        let args = first_locals(world.scheme.arity[at]);
        arms_are_typed(
            world,
            table,
            slots,
            functions,
            full,
            at,
            outer,
            matched,
            owner,
            fewer,
        );
        let (mid, some) = table.arms_built(outer, clauses, args, matched, owner, fewer)->Ok_0;
        let ctor = mid.program.ctor_at(owner, fewer);
        assert(outer.program.type_fits(owner.0 as int));
        an_arm_is_typed(world, table, slots, functions, full, at, mid, matched, ctor);
        let (end, arm) = table.arm_built(mid, clauses, args, matched, ctor)->Ok_0;
        builder::growth_chains(outer.program, mid.program, end.program);
        let arms = some.push(arm);
        assert forall|i: int| 0 <= i < count implies (#[trigger] arms[i]).ctor
            == outer.program.ctor_at(owner, i as nat) && arm_is_typed(
            world,
            full,
            end.program,
            at,
            arms[i],
        ) by {
            if i < fewer {
                assert(arms[i] == some[i]);
                assert(arm_is_typed(world, full, mid.program, at, some[i]));
                assert(end.program.fields(some[i].ctor) == mid.program.fields(some[i].ctor));
                typing::straightness_outlives_growth(
                    mid.program,
                    end.program,
                    some[i].body,
                );
                typing::typing_outlives_growth(
                    mid.program,
                    end.program,
                    some[i].body,
                    parse::told_params(full, world.scheme, at) + mid.program.fields(some[i].ctor),
                    full.get(world.scheme.result(at))->Some_0,
                    !infer::is_effectful(world.scheme.names[at]),
                );
            }
        }
    }
}

/// What is built of a function's clauses answers what it was told to answer.
proof fn clauses_are_typed(
    world: WorldForm,
    table: TableForm,
    slots: Slots,
    functions: Seq<FunctionForm>,
    full: Slots,
    at: int,
    draft: Draft,
    matched: Option<int>,
) -> (more: Seq<TypeId>)
    requires
        worked(world, slots, functions, full),
        tabled(world, table),
        begun(world, full, draft, at),
        at < functions.len(),
        clauses_agree(world, functions[at].clauses, matched),
        matched matches Some(m) ==> 0 <= m < world.scheme.arity[at],
        draft.level <= u32::MAX,
        forall|i: int|
            0 <= i < world.scheme.arity[at] ==> (#[trigger] parse::told_params(
                full,
                world.scheme,
                at,
            )[i]).0 < draft.program.types.len(),
        table.clauses_built(
            draft,
            functions[at].clauses,
            first_locals(world.scheme.arity[at]),
            parse::told_params(full, world.scheme, at),
            matched,
        ) is Ok,
    ensures
        ({
            let (end, atom) = table.clauses_built(
                draft,
                functions[at].clauses,
                first_locals(world.scheme.arity[at]),
                parse::told_params(full, world.scheme, at),
                matched,
            )->Ok_0;
            &&& closes_flat(end, atom)
            &&& typed_so_far(
                world,
                full,
                end,
                draft.level,
                more,
                !infer::is_effectful(world.scheme.names[at]),
            )
            &&& end.program.grows(draft.program)
            &&& parse::told_params(full, world.scheme, at).is_prefix_of(more)
            &&& atom.0.0 < more.len()
            &&& full.get(world.scheme.result(at)) == Some(more[atom.0.0 as int])
        }),
{
    let clauses = functions[at].clauses;
    let args = first_locals(world.scheme.arity[at]);
    let params = parse::told_params(full, world.scheme, at);
    let pure = !infer::is_effectful(world.scheme.names[at]);
    match matched {
        None => {
            let none = Seq::<TypeId>::empty();
            assert(draft.inside(0) =~= draft);
            assert(draft.binders(0) =~= seq![]);
            assert(params + none =~= params);
            assert(functions[at].clauses.len() > 0);
            assert(takes_one_apart(
                world,
                clauses[0].patterns,
                matched,
                clauses[0].patterns.len(),
            ));
            a_taken_clause_is_typed(
                world,
                table,
                slots,
                functions,
                full,
                at,
                0,
                draft,
                None,
                CtorId(0),
                none,
            )
        },
        Some(m) => {
            let owner = params[m];
            let count = draft.program.type_(owner).ctors.len as nat;
            arms_are_typed(
                world,
                table,
                slots,
                functions,
                full,
                at,
                draft,
                m,
                owner,
                count,
            );
            let (mid, arms) = table.arms_built(draft, clauses, args, m, owner, count)->Ok_0;
            let result = full.get(world.scheme.result(at))->Some_0;
            assert(full.get(world.scheme.base[at] + world.scheme.arity[at]) is Some);
            assert(full.known[full.root[world.scheme.result(at)]] == Some(result));
            assert(mid.is_typed(draft.level, params, pure));
            a_match_is_typed(world, full, mid, at, args[m], owner, arms, params, result, pure);
            let end = mid.matching(args[m], arms);
            builder::growth_chains(draft.program, mid.program, end.program);
            params.push(result)
        },
    }
}

proof fn a_match_is_typed(
    world: WorldForm,
    full: Slots,
    draft: Draft,
    at: int,
    scrutinee: Atom,
    owner: TypeId,
    arms: Seq<Arm>,
    params: Seq<TypeId>,
    result: TypeId,
    pure: bool,
)
    requires
        begun(world, full, draft, at),
        draft.is_typed(draft.level, params, pure),
        draft.room(arms.len() + 1),
        params == parse::told_params(full, world.scheme, at),
        Some(result) == full.get(world.scheme.result(at)),
        result.0 < draft.program.types.len(),
        pure == !infer::is_effectful(world.scheme.names[at]),
        scrutinee.0.0 < params.len(),
        params[scrutinee.0.0 as int] == owner,
        arms.len() == draft.program.type_(owner).ctors.len,
        forall|i: int|
            0 <= i < arms.len() ==> (#[trigger] arms[i]).ctor == draft.program.ctor_at(
                owner,
                i as nat,
            ) && arm_is_typed(world, full, draft.program, at, arms[i]),
    ensures
        typed_so_far(
            world,
            full,
            draft.matching(scrutinee, arms),
            draft.level,
            params.push(result),
            pure,
        ),
        closes_flat(draft.matching(scrutinee, arms), draft.next()),
        draft.matching(scrutinee, arms).program.grows(draft.program),
{
    let store = draft.program;
    let range = Range::from(store.arms.len(), arms.len());
    let expr = Expr::Match(scrutinee, range);
    let mid = Draft { program: store.with_arms(arms), ..draft };
    let after = mid.emit(expr);
    builder::a_grown_program_fits(store, mid.program);
    typing::a_typed_scope_outlives_growth(draft, mid.program, draft.level, params, pure);
    let list = range.read(after.program.arms);
    assert(list =~= arms);
    assert forall|a: int| range.start <= a < range.start + range.len implies (
    #[trigger] mid.program.arms[a]).body.0 < mid.program.exprs.len() && mid.program.arms[a].ctor.0
        < mid.program.ctors.len() by {
        let i = a - store.arms.len();
        assert(mid.program.arms[a] == arms[i]);
        assert(arm_is_typed(world, full, store, at, arms[i]));
    }
    builder::an_emission_fits(mid, expr);
    builder::growth_chains(store, mid.program, after.program);
    assert(after.program.expr(mid.program.next()) == expr);
    assert forall|i: int| 0 <= i < list.len() implies (#[trigger] list[i]).body.0
        < mid.program.next().0 && after.program.has_type(
        list[i].body,
        params + after.program.fields(list[i].ctor),
        result,
        pure,
    ) by {
        assert(list[i] == arms[i]);
        assert(arm_is_typed(world, full, store, at, arms[i]));
        typing::typing_outlives_growth(
            store,
            after.program,
            arms[i].body,
            params + store.fields(arms[i].ctor),
            result,
            pure,
        );
        assert(after.program.fields(arms[i].ctor) == store.fields(arms[i].ctor));
    }
    assert(after.program.is_flat(mid.program.next())) by {
        assert forall|i: int| 0 <= i < list.len() implies (#[trigger] list[i]).body.0
            < mid.program.next().0 && after.program.is_straight(list[i].body) by {
            assert(arm_is_typed(world, full, store, at, arms[i]));
            typing::straightness_outlives_growth(store, after.program, arms[i].body);
        }
    }
    assert(after.program.exhausts(list, owner));
    typing::an_emission_is_typed(mid, expr, draft.level, params, result, pure);
    agreeing_is_kept(world, full, store, after.program);
}

pub(super) proof fn a_matched_argument_is_one(world: WorldForm, clauses: Seq<ClauseForm>, count: nat, arity: nat)
    requires
        count <= clauses.len(),
        forall|c: int| 0 <= c < clauses.len() ==> (#[trigger] clauses[c]).patterns.len() == arity,
    ensures
        parse::clauses_matched(world, clauses, count) matches Ok(Some(m)) ==> 0 <= m < arity,
    decreases count,
{
    if count > 0 {
        let fewer = (count - 1) as nat;
        a_matched_argument_is_one(world, clauses, fewer, arity);
        if let Ok(before) = parse::clauses_matched(world, clauses, fewer) {
            a_matched_pattern_is_one(world, clauses[fewer as int].patterns, before, arity, arity);
        }
    }
}

proof fn a_matched_pattern_is_one(
    world: WorldForm,
    patterns: Seq<PatternForm>,
    already: Option<int>,
    count: nat,
    arity: nat,
)
    requires
        count <= arity,
        already matches Some(m) ==> 0 <= m < arity,
    ensures
        parse::patterns_matched(world, patterns, already, count) matches Ok(Some(m)) ==> 0 <= m
            < arity,
    decreases count,
{
    if count > 0 {
        a_matched_pattern_is_one(world, patterns, already, (count - 1) as nat, arity);
    }
}

proof fn matching_agrees(
    world: WorldForm,
    table: TableForm,
    full: Slots,
    store: Store,
    clauses: Seq<ClauseForm>,
    arity: nat,
)
    requires
        tabled(world, table),
        agrees(world, full, store),
        forall|c: int| 0 <= c < clauses.len() ==> (#[trigger] clauses[c]).patterns.len() == arity,
    ensures
        parse::clauses_matched(table.world(store), clauses, clauses.len()) matches Ok(matched) ==> {
            &&& clauses_agree(world, clauses, matched)
            &&& matched matches Some(m) ==> 0 <= m < arity
        },
{
    clauses_take_one_apart(table.world(store), clauses, clauses.len());
    a_matched_argument_is_one(table.world(store), clauses, clauses.len(), arity);
    patterns_read_alike(world, table, full, store);
    if let Ok(matched) = parse::clauses_matched(table.world(store), clauses, clauses.len()) {
        assert forall|c: int| 0 <= c < clauses.len() implies takes_one_apart(
            world,
            (#[trigger] clauses[c]).patterns,
            matched,
            clauses[c].patterns.len(),
        ) by {
            let patterns = clauses[c].patterns;
            assert(takes_one_apart(table.world(store), patterns, matched, patterns.len()));
            assert forall|i: int|
                0 <= i < patterns.len() && world.resolved(
                    #[trigger] patterns[i],
                ) is Ctor implies matched == Some(i) by {
                assert(table.world(store).resolved(patterns[i]) == world.resolved(patterns[i]));
            }
        }
    }
}

/// A body that closes over what a function takes, and answers what it does,
/// is one the function keeps to.
proof fn a_body_is_typed(
    store: Store,
    id: FnId,
    end: Draft,
    result: Atom,
    base: nat,
    more: Seq<TypeId>,
    pure: bool,
)
    requires
        store.wf(),
        id.0 < store.functions.len(),
        end.wf(),
        end.program.grows(store),
        end.room(end.pending.len() + 1),
        end.is_typed(base, more, pure),
        closes_flat(end, result),
        base <= more.len(),
        more.take(base as int) == store.params(id),
        result.0.0 < more.len(),
        more[result.0.0 as int] == store.function(id).result,
        pure == !store.works(id),
    ensures
        end.as_body(id, result).wf(),
        end.as_body(id, result).keeps(store),
        end.as_body(id, result).is_kept(id),
        end.as_body(id, result).is_plain(id),
        forall|i: int|
            0 <= i < store.functions.len() && i != id.0 ==> end.as_body(id, result).functions[i]
                == #[trigger] store.functions[i],
{
    if end.is_straight() {
        typing::a_closed_scope_is_straight(end, result);
    }
    typing::a_closed_scope_is_typed(end, result, base, more, pure);
    builder::a_closed_scope_fits(end, end, result);
    let (closed, body) = end.closed(result);
    builder::growth_chains(store, end.program, closed);
    builder::a_body_fits(closed, id, body);
    let done = end.as_body(id, result);
    assert(done.keeps(closed));
    assert(closed.is_flat(body));
    typing::flatness_outlives_growth(closed, done, body);
    typing::typing_outlives_growth(
        closed,
        done,
        body,
        store.params(id),
        store.function(id).result,
        pure,
    );
}

/// What is built of a function is what it was told to be.
proof fn a_function_is_typed(
    world: WorldForm,
    table: TableForm,
    slots: Slots,
    functions: Seq<FunctionForm>,
    full: Slots,
    id: FnId,
    store: Store,
)
    requires
        worked(world, slots, functions, full),
        tabled(world, table),
        store.wf(),
        agrees(world, full, store),
        id.0 < functions.len(),
        table.function_built(store, id, functions[id.0 as int].clauses) is Ok,
    ensures
        ({
            let done = table.function_built(store, id, functions[id.0 as int].clauses)->Ok_0;
            &&& done.wf()
            &&& done.keeps(store)
            &&& agrees(world, full, done)
            &&& done.is_kept(id)
            &&& done.is_plain(id)
            &&& forall|i: int|
                0 <= i < store.functions.len() && i != id.0 ==> done.functions[i]
                    == #[trigger] store.functions[i]
        }),
{
    let at = id.0 as int;
    let clauses = functions[at].clauses;
    let arity = world.scheme.arity[at];
    let params = parse::told_params(full, world.scheme, at);
    let draft = Draft::opened(store, store.function(id).params.len as nat);
    let matched = parse::clauses_matched(table.world(store), clauses, clauses.len())->Ok_0;
    let pure = !infer::is_effectful(world.scheme.names[at]);
    assert(is_as_told(world, full, store, id));
    assert(store.function_fits(at));
    assert(store.params(id).len() == params.len());
    assert(arity == store.function(id).params.len);
    assert(store.parameters(id) =~= first_locals(arity));
    matching_agrees(world, table, full, store, clauses, arity);
    assert forall|i: int| 0 <= i < arity implies (#[trigger] params[i]).0 < store.types.len() by {
        assert(params[i] == store.types_pool[store.function(id).params.start + i]);
    }
    let more = clauses_are_typed(
        world,
        table,
        slots,
        functions,
        full,
        at,
        draft,
        matched,
    );
    let (end, result) = table.clauses_built(
        draft,
        clauses,
        store.parameters(id),
        store.params(id),
        matched,
    )->Ok_0;
    assert(more.take(draft.level as int) =~= params);
    a_body_is_typed(store, id, end, result, draft.level, more, pure);
    agreeing_is_kept(world, full, store, end.as_body(id, result));
}

proof fn functions_are_typed(
    world: WorldForm,
    table: TableForm,
    slots: Slots,
    functions: Seq<FunctionForm>,
    full: Slots,
    store: Store,
    count: nat,
)
    requires
        worked(world, slots, functions, full),
        tabled(world, table),
        store.wf(),
        agrees(world, full, store),
        count <= functions.len(),
        table.functions_built(store, functions, count) is Ok,
    ensures
        ({
            let done = table.functions_built(store, functions, count)->Ok_0;
            &&& done.wf()
            &&& agrees(world, full, done)
            &&& forall|f: FnId| f.0 < count ==> #[trigger] done.is_kept(f)
            &&& forall|f: FnId| f.0 < count ==> #[trigger] done.is_plain(f)
            &&& forall|i: int|
                count <= i < store.functions.len() ==> done.functions[i]
                    == #[trigger] store.functions[i]
        }),
    decreases count,
{
    if count > 0 {
        let fewer = (count - 1) as nat;
        functions_are_typed(world, table, slots, functions, full, store, fewer);
        let mid = table.functions_built(store, functions, fewer)->Ok_0;
        let id = FnId(fewer as u32);
        assert(mid.functions.len() == world.scheme.names.len());
        a_function_is_typed(world, table, slots, functions, full, id, mid);
        let done = table.functions_built(store, functions, count)->Ok_0;
        assert forall|f: FnId| f.0 < count implies #[trigger] done.is_kept(f) by {
            if f.0 < fewer {
                assert(mid.is_kept(f));
                assert(done.functions[f.0 as int] == mid.functions[f.0 as int]);
                assert(mid.function_fits(f.0 as int));
                if mid.function(f).defined {
                    typing::typing_outlives_growth(
                        mid,
                        done,
                        mid.function(f).body,
                        mid.params(f),
                        mid.function(f).result,
                        !mid.works(f),
                    );
                }
            }
        }
        assert forall|f: FnId| f.0 < count implies #[trigger] done.is_plain(f) by {
            if f.0 < fewer {
                assert(mid.is_plain(f));
                assert(done.functions[f.0 as int] == mid.functions[f.0 as int]);
                assert(mid.function_fits(f.0 as int));
                if mid.function(f).defined {
                    typing::flatness_outlives_growth(mid, done, mid.function(f).body);
                }
            }
        }
        assert forall|i: int| count <= i < store.functions.len() implies done.functions[i]
            == #[trigger] store.functions[i] by {
            assert(mid.functions[i] == store.functions[i]);
            assert(done.functions[i] == mid.functions[i]);
        }
    }
}

/// Whether a program has its first `count` functions declared as they were
/// told to be, and nothing else of it has changed.
spec fn declared_so_far(world: WorldForm, full: Slots, store: Store, count: nat) -> bool {
    &&& store.wf()
    &&& store.types == world.store.types
    &&& store.ctors == world.store.ctors
    &&& world.store.types_pool.is_prefix_of(store.types_pool)
    &&& store.functions.len() == count
    &&& forall|s: int|
        0 <= s < world.store.names.len() ==> #[trigger] store.names.bytes(s)
            == world.store.names.bytes(s)
    &&& forall|f: FnId| f.0 < count ==> #[trigger] is_as_told(world, full, store, f)
    &&& forall|i: int| 0 <= i < count ==> !(#[trigger] store.functions[i]).defined
}

proof fn ctors_go_on_being_named(world: WorldForm, store: Store, name: Seq<char>, count: nat)
    requires
        world.store.wf(),
        store.types == world.store.types,
        store.ctors == world.store.ctors,
        forall|s: int|
            0 <= s < world.store.names.len() ==> #[trigger] store.names.bytes(s)
                == world.store.names.bytes(s),
        count <= store.ctors.len(),
    ensures
        store.ctor_named(name, count) == world.store.ctor_named(name, count),
    decreases count,
{
    if count > 0 {
        ctors_go_on_being_named(world, store, name, (count - 1) as nat);
        assert(world.store.ctor_fits(count - 1));
        let symbol = store.ctors[count - 1].name.0 as int;
        assert(store.names.bytes(symbol) == world.store.names.bytes(symbol));
    }
}

proof fn a_declaration_is_as_told(world: WorldForm, full: Slots, store: Store, count: nat)
    requires
        slots_fit(world, full),
        declared_so_far(world, full, store, count),
        count < world.scheme.names.len(),
        parse::is_told(full, world.scheme, count as int),
        store.room(
            parse::length(world.scheme.names[count as int]) + world.scheme.arity[count as int] + 1,
        ),
        world.store.names.len() <= store.names.len(),
    ensures
        ({
            let after = store.with_function(
                world.scheme.names[count as int],
                parse::told_params(full, world.scheme, count as int),
                full.get(world.scheme.result(count as int))->Some_0,
            );
            &&& declared_so_far(world, full, after, count + 1)
            &&& world.store.names.len() <= after.names.len()
        }),
{
    let at = count as int;
    let name = world.scheme.names[at];
    let params = parse::told_params(full, world.scheme, at);
    let result = full.get(world.scheme.result(at))->Some_0;
    let after = store.with_function(name, params, result);
    let base = world.scheme.base[at];
    assert(0 <= base && base + world.scheme.arity[at] < full.len());
    assert(full.get(base + world.scheme.arity[at]) is Some);
    assert(full.known[full.root[base + world.scheme.arity[at]]] == Some(result));
    assert forall|i: int| 0 <= i < params.len() implies (#[trigger] params[i]).0
        < store.types.len() by {
        assert(full.get(base + i) is Some);
        assert(full.known[full.root[base + i]] == Some(params[i]));
    }
    builder::a_declared_function_fits(store, name, params, result);
    pool::naming_keeps_names(store.names, name);
    assert forall|s: int| 0 <= s < world.store.names.len() implies #[trigger] after.names.bytes(s)
        == world.store.names.bytes(s) by {
        assert(after.names.bytes(s) == store.names.bytes(s));
    }
    assert forall|f: FnId| f.0 < count + 1 implies #[trigger] is_as_told(
        world,
        full,
        after,
        f,
    ) by {
        if f.0 < count {
            assert(is_as_told(world, full, store, f));
            assert(store.function_fits(f.0 as int));
            assert(after.function(f) == store.function(f));
            assert(after.params(f) =~= store.params(f));
            let symbol = store.function(f).name.0 as int;
            assert(after.names.bytes(symbol) == store.names.bytes(symbol));
        } else {
            assert(after.params(f) =~= params);
        }
    }
    assert forall|i: int| 0 <= i < count + 1 implies !(
    #[trigger] after.functions[i]).defined by {
        if i < count {
            assert(after.functions[i] == store.functions[i]);
        }
    }
}

proof fn declarations_are_as_told(world: WorldForm, full: Slots, count: nat)
    requires
        world.wf(),
        world.store.functions.len() == 0,
        slots_fit(world, full),
        count <= world.scheme.names.len(),
        parse::functions_declared(world.store, world.scheme, full, count) is Ok,
    ensures
        ({
            let after = parse::functions_declared(world.store, world.scheme, full, count)->Ok_0;
            &&& declared_so_far(world, full, after, count)
            &&& world.store.names.len() <= after.names.len()
        }),
    decreases count,
{
    if count > 0 {
        let fewer = (count - 1) as nat;
        declarations_are_as_told(world, full, fewer);
        let store = parse::functions_declared(world.store, world.scheme, full, fewer)->Ok_0;
        a_declaration_is_as_told(world, full, store, fewer);
    }
}

proof fn a_declared_program_agrees(world: WorldForm, full: Slots, store: Store)
    requires
        world.wf(),
        declared_so_far(world, full, store, world.scheme.names.len()),
    ensures
        agrees(world, full, store),
{
    assert forall|c: CtorId| c.0 < store.ctors.len() implies #[trigger] store.fields(c)
        == world.store.fields(c) by {
        assert(world.store.ctor_fits(c.0 as int));
        assert(store.fields(c) =~= world.store.fields(c));
    }
    assert forall|name: Seq<char>| #[trigger]
        store.ctor_named(name, world.ctors) == world.ctor(name) by {
        ctors_go_on_being_named(world, store, name, world.ctors);
    }
}

/// A program that is worked out of clauses is typed: every term of it is of
/// the type it was worked out to be, every constructor and function is
/// applied to as much as it takes, every match has an arm for each
/// constructor, and what may not do observable work calls nothing that may. A
/// function takes one thing apart at most, and first.
pub proof fn a_worked_out_program_is_typed(
    source: SourceForm,
    store: Store,
    ctors: nat,
    scheme: SchemeForm,
    slots: Slots,
)
    requires
        store.wf(),
        store.functions.len() == 0,
        ctors <= store.ctors.len(),
        slots_fit((WorldForm { store, ctors, scheme }), slots),
        steady((WorldForm { store, ctors, scheme }), source.functions),
    ensures
        parse::worked_out(source, store, ctors, scheme, slots) matches Ok(done) ==> done.typed()
            && done.flat(),
{
    let world = WorldForm { store, ctors, scheme };
    let table = TableForm { ctors, scheme };
    let functions = source.functions;
    if parse::worked_out(source, store, ctors, scheme, slots) is Ok {
        let full = world.functions_told(slots, functions, functions.len())->Ok_0;
        functions_move_on(world, slots, functions, functions.len());
        declarations_are_as_told(world, full, scheme.names.len());
        let declared = parse::functions_declared(store, scheme, full, scheme.names.len())->Ok_0;
        a_declared_program_agrees(world, full, declared);
        let start = parse::with_main(declared, scheme);
        a_start_is_chosen(declared, scheme);
        agreeing_is_kept(world, full, declared, start);
        functions_are_typed(world, table, slots, functions, full, start, functions.len());
        let done = table.functions_built(start, functions, functions.len())->Ok_0;
        assert forall|f: FnId| f.0 < done.functions.len() implies #[trigger] done.is_kept(f) by {
            if f.0 >= functions.len() {
                assert(done.functions[f.0 as int] == start.functions[f.0 as int]);
                assert(!declared.functions[f.0 as int].defined);
            }
        }
        assert forall|f: FnId| f.0 < done.functions.len() implies #[trigger] done.is_plain(f) by {
            if f.0 >= functions.len() {
                assert(done.functions[f.0 as int] == start.functions[f.0 as int]);
                assert(!declared.functions[f.0 as int].defined);
            }
        }
    }
}

/// Saying where a program starts changes nothing else of it.
proof fn a_start_is_chosen(store: Store, scheme: SchemeForm)
    requires
        store.wf(),
        store.functions.len() == scheme.names.len(),
    ensures
        parse::with_main(store, scheme).wf(),
        parse::with_main(store, scheme).keeps(store),
        parse::with_main(store, scheme).functions == store.functions,
{
    let start = parse::with_main(store, scheme);
    a_named_function_is_one(scheme, "main"@, 0);
    a_named_function_is_one(scheme, "main!"@, 0);
    assert forall|i: int| 0 <= i < start.types.len() implies #[trigger] start.type_fits(i) by {
        assert(store.type_fits(i));
    }
    assert forall|i: int| 0 <= i < start.ctors.len() implies #[trigger] start.ctor_fits(i) by {
        assert(store.ctor_fits(i));
    }
    assert forall|i: int| 0 <= i < start.functions.len() implies #[trigger] start.function_fits(
        i,
    ) by {
        assert(store.function_fits(i));
    }
    assert forall|i: int| 0 <= i < start.exprs.len() implies start.expr_fits(
        i,
        #[trigger] start.exprs[i],
    ) by {
        assert(store.expr_fits(i, store.exprs[i]));
    }
}

} // verus!
