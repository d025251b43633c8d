//! What any run of calls leaves as it was.
//!
//! A program only grows. Whatever is declared, defined or interned later, a
//! constructor keeps its fields, a function its signature, and a body stays
//! until its function is defined again.

use super::builder::{self, Declared, Draft};
use super::constant::{self, Tree};
use super::ir::{Arm, Atom, ConstId, CtorId, Expr, FnId, Local, Range, Store, TypeId};
use crate::pool;
use vstd::prelude::*;

verus! {

impl Store {
    /// Whether this is what became of `old`: everything that was there is
    /// there still, but for which constructors a type has, bodies, and which
    /// function is the entry.
    pub open spec fn outlives(self, old: Store) -> bool {
        &&& old.types.len() <= self.types.len()
        &&& forall|t: int|
            0 <= t < old.types.len() ==> (#[trigger] self.types[t]).name == old.types[t].name
        &&& old.ctors.is_prefix_of(self.ctors)
        &&& old.functions.len() <= self.functions.len()
        &&& forall|f: int|
            0 <= f < old.functions.len() ==> {
                &&& (#[trigger] self.functions[f]).name == old.functions[f].name
                &&& self.functions[f].params == old.functions[f].params
                &&& self.functions[f].result == old.functions[f].result
            }
        &&& old.exprs.is_prefix_of(self.exprs)
        &&& old.atoms.is_prefix_of(self.atoms)
        &&& old.arms.is_prefix_of(self.arms)
        &&& old.types_pool.is_prefix_of(self.types_pool)
        &&& old.consts.is_prefix_of(self.consts)
        &&& old.bytes.is_prefix_of(self.bytes)
        &&& self.names.holds(old.names)
    }
}

/// A call that changes a program.
pub enum Call {
    DeclareType(Seq<char>),
    DefineType(TypeId, Seq<Declared>),
    Declare(Seq<char>, Seq<TypeId>, TypeId),
    /// A function's body, as it was built and what it answers.
    Define(FnId, Draft, Atom),
    Intern(TypeId, Tree),
    SetEntry(FnId),
}

impl Call {
    /// What the call asks of the program.
    pub open spec fn may(self, store: Store) -> bool {
        &&& store.wf()
        &&& match self {
            Call::DeclareType(name) => store.room(vstd::utf8::encode_utf8(name).len() + 1),
            Call::DefineType(id, ctors) => {
                &&& id.0 < store.types.len()
                &&& store.room(builder::cost(ctors))
                &&& forall|i: int, j: int|
                    0 <= i < ctors.len() && 0 <= j < ctors[i].fields.len() ==> (
                    #[trigger] ctors[i].fields[j]).0 < store.types.len()
            },
            Call::Declare(name, params, result) => {
                &&& store.room(vstd::utf8::encode_utf8(name).len() + params.len() + 1)
                &&& result.0 < store.types.len()
                &&& forall|i: int|
                    0 <= i < params.len() ==> (#[trigger] params[i]).0 < store.types.len()
            },
            Call::Define(id, draft, _) => {
                &&& id.0 < store.functions.len()
                &&& draft.ends(Draft::opened(store, store.function(id).params.len as nat))
            },
            Call::Intern(id, value) => {
                &&& id.0 < store.types.len()
                &&& constant::typed(store, id, value)
                &&& constant::weight(value) <= u64::MAX
                &&& constant::is_short(store, value)
                &&& store.room(constant::encoding(store, id, value).len())
            },
            Call::SetEntry(id) => id.0 < store.functions.len(),
        }
    }

    /// What the call leaves.
    pub open spec fn done(self, store: Store) -> Store {
        match self {
            Call::DeclareType(name) => store.with_type(name),
            Call::DefineType(id, ctors) => store.with_ctors(id, ctors),
            Call::Declare(name, params, result) => store.with_function(name, params, result),
            Call::Define(id, draft, result) => draft.as_body(id, result),
            Call::Intern(id, value) => store.with_const(constant::encoding(store, id, value)),
            Call::SetEntry(id) => store.with_entry(id),
        }
    }
}

/// Whether calls may be made one after the other.
pub open spec fn may_all(store: Store, calls: Seq<Call>) -> bool
    decreases calls.len(),
{
    calls.len() == 0 || (may_all(store, calls.drop_last()) && calls.last().may(
        done_all(store, calls.drop_last()),
    ))
}

/// What they leave.
pub open spec fn done_all(store: Store, calls: Seq<Call>) -> Store
    decreases calls.len(),
{
    if calls.len() == 0 {
        store
    } else {
        calls.last().done(done_all(store, calls.drop_last()))
    }
}

/// Whether none of some calls defines a function.
pub open spec fn leave_alone(calls: Seq<Call>, function: FnId) -> bool {
    forall|i: int|
        0 <= i < calls.len() ==> ((#[trigger] calls[i]) matches Call::Define(f, _, _) ==> f
            != function)
}

/// Whether none of some calls gives a type constructors.
pub open spec fn leave_type_alone(calls: Seq<Call>, id: TypeId) -> bool {
    forall|i: int|
        0 <= i < calls.len() ==> ((#[trigger] calls[i]) matches Call::DefineType(t, _) ==> t != id)
}

/// What outlives what outlives a program outlives it.
pub proof fn outliving_chains(first: Store, second: Store, third: Store)
    requires
        second.outlives(first),
        third.outlives(second),
    ensures
        third.outlives(first),
{
    assert forall|t: int| 0 <= t < first.types.len() implies (#[trigger] third.types[t]).name
        == first.types[t].name by {
        assert(second.types[t].name == first.types[t].name);
    }
    assert forall|f: int| 0 <= f < first.functions.len() implies {
        &&& (#[trigger] third.functions[f]).name == first.functions[f].name
        &&& third.functions[f].params == first.functions[f].params
        &&& third.functions[f].result == first.functions[f].result
    } by {
        assert(second.functions[f].name == first.functions[f].name);
    }
    a_prefix_of_a_prefix(first.ctors, second.ctors, third.ctors);
    a_prefix_of_a_prefix(first.exprs, second.exprs, third.exprs);
    a_prefix_of_a_prefix(first.atoms, second.atoms, third.atoms);
    a_prefix_of_a_prefix(first.arms, second.arms, third.arms);
    a_prefix_of_a_prefix(first.types_pool, second.types_pool, third.types_pool);
    a_prefix_of_a_prefix(first.consts, second.consts, third.consts);
    a_prefix_of_a_prefix(first.bytes, second.bytes, third.bytes);
    pool::holding_names_chains(first.names, second.names, third.names);
}

proof fn a_prefix_of_a_prefix<T>(first: Seq<T>, second: Seq<T>, third: Seq<T>)
    requires
        first.is_prefix_of(second),
        second.is_prefix_of(third),
    ensures
        first.is_prefix_of(third),
{
    assert forall|i: int| 0 <= i < first.len() implies first[i] == third[i] by {
        assert(first[i] == second[i]);
    }
}

/// Whatever a builder does while it builds a body, the program outlives.
pub proof fn growth_outlives(old: Store, new: Store)
    requires
        new.grows(old),
    ensures
        new.outlives(old),
{
}

/// Whether the constructor at a place takes fields of some types.
spec fn has_fields(store: Store, at: int, fields: Seq<TypeId>) -> bool {
    &&& store.ctors[at].fields.within(store.types_pool.len())
    &&& store.ctors[at].fields.read(store.types_pool) == fields
}

/// Naming and adding one constructor after another keeps what was there, and
/// each has the fields it was declared with.
proof fn constructors_are_added(store: Store, id: TypeId, ctors: Seq<Declared>)
    requires
        store.wf(),
        id.0 < store.types.len(),
        store.room(builder::cost(ctors)),
    ensures
        ({
            let after = store.with_ctors(id, ctors);
            &&& after.outlives(store)
            &&& after.functions == store.functions
            &&& forall|t: TypeId|
                t.0 < store.types.len() && t != id ==> #[trigger] after.type_(t) == store.type_(t)
            &&& after.names.fits()
            &&& after.names.text.len() <= store.names.text.len() + builder::cost(ctors)
            &&& after.names.symbols.len() <= store.names.symbols.len() + builder::cost(ctors)
            &&& after.types.len() == store.types.len()
            &&& after.ctors.len() == store.ctors.len() + ctors.len()
            &&& after.types_pool.len() <= store.types_pool.len() + builder::cost(ctors)
            &&& after.type_(id).ctors == Range::from(store.ctors.len(), ctors.len())
            &&& ctors.len() <= builder::cost(ctors)
            &&& forall|k: int|
                0 <= k < ctors.len() ==> has_fields(
                    after,
                    store.ctors.len() + k,
                    (#[trigger] ctors[k]).fields,
                )
        }),
    decreases ctors.len(),
{
    let after = store.with_ctors(id, ctors);
    if ctors.len() > 0 {
        let rest = ctors.drop_last();
        let last = ctors.last();
        let before = store.with_ctors(id, rest);
        constructors_are_added(store, id, rest);
        assert forall|t: TypeId| t.0 < store.types.len() && t != id implies #[trigger] after.type_(t)
            == store.type_(t) by {
            assert(before.type_(t) == store.type_(t));
        }
        pool::naming_keeps_names(before.names, last.name);
        assert(after == before.with_ctor(id, last));
        assert forall|t: int| 0 <= t < store.types.len() implies (#[trigger] after.types[t]).name
            == store.types[t].name by {
            assert(before.types[t].name == store.types[t].name);
        }
        a_prefix_of_a_prefix(store.ctors, before.ctors, after.ctors);
        a_prefix_of_a_prefix(store.types_pool, before.types_pool, after.types_pool);
        assert(after.names.holds(before.names));
        pool::holding_names_chains(store.names, before.names, after.names);
        assert forall|k: int| 0 <= k < ctors.len() implies has_fields(
            after,
            store.ctors.len() + k,
            (#[trigger] ctors[k]).fields,
        ) by {
            let ctor = after.ctors[store.ctors.len() + k];
            if k < rest.len() {
                assert(rest[k] == ctors[k]);
                assert(has_fields(before, store.ctors.len() + k, rest[k].fields));
                assert(ctor == before.ctors[store.ctors.len() + k]);
                assert(ctor.fields.within(after.types_pool.len()));
                assert(ctor.fields.read(before.types_pool) == rest[k].fields);
                assert(ctor.fields.read(after.types_pool) =~= ctors[k].fields);
            } else {
                assert(ctor.fields == Range::from(
                    before.types_pool.len(),
                    last.fields.len(),
                ));
                assert(before.types_pool.len() + last.fields.len() <= u32::MAX);
                assert(ctor.fields.read(after.types_pool) =~= ctors[k].fields);
            }
        }
    }
}

/// A call leaves a program that outlives the one before it.
pub proof fn a_call_is_outlived(store: Store, call: Call)
    requires
        call.may(store),
    ensures
        call.done(store).outlives(store),
        forall|f: FnId|
            f.0 < store.functions.len() && !(call matches Call::Define(g, _, _) && g == f)
                ==> #[trigger] call.done(store).function(f) == store.function(f),
        forall|t: TypeId|
            t.0 < store.types.len() && !(call matches Call::DefineType(g, _) && g == t)
                ==> #[trigger] call.done(store).type_(t) == store.type_(t),
{
    match call {
        Call::DeclareType(name) => {
            pool::naming_keeps_names(store.names, name);
        },
        Call::DefineType(id, ctors) => {
            constructors_are_added(store, id, ctors);
        },
        Call::Declare(name, _, _) => {
            pool::naming_keeps_names(store.names, name);
        },
        Call::Define(id, draft, result) => {
            let start = Draft::opened(store, store.function(id).params.len as nat);
            builder::a_closed_scope_fits(start, draft, result);
            assert(draft.closed(result).0.functions == store.functions);
        },
        Call::Intern(_, _) => {},
        Call::SetEntry(_) => {},
    }
}

/// However many calls are made, the program outlives what it was, a function
/// that is not defined again is what it was, and so is a type that is given no
/// constructors.
pub proof fn calls_are_outlived(store: Store, calls: Seq<Call>)
    requires
        may_all(store, calls),
    ensures
        done_all(store, calls).outlives(store),
        forall|f: FnId|
            f.0 < store.functions.len() && leave_alone(calls, f) ==> #[trigger] done_all(
                store,
                calls,
            ).function(f) == store.function(f),
        forall|t: TypeId|
            t.0 < store.types.len() && leave_type_alone(calls, t) ==> #[trigger] done_all(
                store,
                calls,
            ).type_(t) == store.type_(t),
    decreases calls.len(),
{
    if calls.len() > 0 {
        let rest = calls.drop_last();
        let before = done_all(store, rest);
        let after = done_all(store, calls);
        calls_are_outlived(store, rest);
        a_call_is_outlived(before, calls.last());
        outliving_chains(store, before, after);
        assert forall|f: FnId| f.0 < store.functions.len() && leave_alone(calls, f) implies
            #[trigger] after.function(f) == store.function(f) by {
            assert(leave_alone(rest, f)) by {
                assert forall|i: int| 0 <= i < rest.len() implies ((#[trigger] rest[i]) matches
                    Call::Define(g, _, _) ==> g != f) by {
                    assert(rest[i] == calls[i]);
                }
            }
            assert(calls[calls.len() - 1] == calls.last());
            assert(before.function(f) == store.function(f));
        }
        assert forall|t: TypeId| t.0 < store.types.len() && leave_type_alone(calls, t) implies
            #[trigger] after.type_(t) == store.type_(t) by {
            assert(leave_type_alone(rest, t)) by {
                assert forall|i: int| 0 <= i < rest.len() implies ((#[trigger] rest[i]) matches
                    Call::DefineType(g, _) ==> g != t) by {
                    assert(rest[i] == calls[i]);
                }
            }
            assert(calls[calls.len() - 1] == calls.last());
            assert(before.type_(t) == store.type_(t));
        }
    }
}

/// A constructor keeps the fields it was declared with, in order, whatever is
/// called afterwards, and its place in its type as long as the type is not
/// given others.
pub proof fn a_constructor_keeps_its_fields(
    store: Store,
    id: TypeId,
    ctors: Seq<Declared>,
    tag: int,
    calls: Seq<Call>,
)
    requires
        Call::DefineType(id, ctors).may(store),
        0 <= tag < ctors.len(),
        may_all(store.with_ctors(id, ctors), calls),
    ensures
        ({
            let later = done_all(store.with_ctors(id, ctors), calls);
            let ctor = CtorId((store.ctors.len() + tag) as u32);
            &&& later.fields(ctor) == ctors[tag].fields
            &&& leave_type_alone(calls, id) ==> later.type_(id).ctors.len == ctors.len()
                && later.ctor_at(id, tag as nat) == ctor
        }),
{
    let after = store.with_ctors(id, ctors);
    let later = done_all(after, calls);
    constructors_are_added(store, id, ctors);
    calls_are_outlived(after, calls);
    if leave_type_alone(calls, id) {
        assert(later.type_(id) == after.type_(id));
    }
    let at = store.ctors.len() + tag;
    let ctor = after.ctors[at];
    assert(later.ctors[at] == ctor);
    assert(has_fields(after, at, ctors[tag].fields));
    assert forall|i: int| 0 <= i < ctor.fields.len implies #[trigger] ctor.fields.read(
        later.types_pool,
    )[i] == ctor.fields.read(after.types_pool)[i] by {
        assert(later.types_pool[ctor.fields.start + i] == after.types_pool[ctor.fields.start + i]);
    }
    assert(ctor.fields.read(later.types_pool) =~= ctors[tag].fields);
}

/// A function keeps the signature it was declared with, whatever is called
/// afterwards, its own definition included.
pub proof fn a_function_keeps_its_signature(
    store: Store,
    name: Seq<char>,
    params: Seq<TypeId>,
    result: TypeId,
    calls: Seq<Call>,
)
    requires
        Call::Declare(name, params, result).may(store),
        may_all(store.with_function(name, params, result), calls),
    ensures
        ({
            let later = done_all(store.with_function(name, params, result), calls);
            let function = FnId(store.functions.len() as u32);
            &&& function.0 < later.functions.len()
            &&& later.params(function) == params
            &&& later.function(function).result == result
            &&& later.name(later.function(function).name) == name
        }),
{
    let after = store.with_function(name, params, result);
    let later = done_all(after, calls);
    let at = store.functions.len() as int;
    let run = after.functions[at].params;
    pool::naming_keeps_names(store.names, name);
    calls_are_outlived(after, calls);
    assert(later.functions[at].params == run);
    assert forall|i: int| 0 <= i < params.len() implies later.types_pool[run.start + i]
        == params[i] by {
        assert(later.types_pool[run.start + i] == after.types_pool[run.start + i]);
    }
    assert(run.read(later.types_pool) =~= params);
    let symbol = store.names.symbol(name);
    assert(later.names.bytes(symbol) == after.names.bytes(symbol));
}

/// A function that is defined keeps its body until it is defined again,
/// whatever else is called.
pub proof fn a_function_keeps_its_body(
    store: Store,
    id: FnId,
    draft: Draft,
    result: Atom,
    calls: Seq<Call>,
)
    requires
        Call::Define(id, draft, result).may(store),
        may_all(draft.as_body(id, result), calls),
        leave_alone(calls, id),
    ensures
        ({
            let later = done_all(draft.as_body(id, result), calls);
            &&& later.function(id).body == draft.closed(result).1
            &&& later.function(id).defined
            &&& draft.closed(result).0.exprs.is_prefix_of(later.exprs)
        }),
{
    let after = draft.as_body(id, result);
    let closed = draft.closed(result).0;
    let start = Draft::opened(store, store.function(id).params.len as nat);
    builder::a_closed_scope_fits(start, draft, result);
    assert(closed.functions == store.functions);
    calls_are_outlived(after, calls);
    assert(done_all(after, calls).function(id) == after.function(id));
}

/// Something bound in a scope.
pub enum Binding {
    Con(CtorId, Seq<Atom>),
    Call(FnId, Seq<Atom>),
    Known(TypeId, ConstId),
    /// A match, the program its arms left, and the arms.
    Match(Store, Atom, Seq<Arm>),
}

impl Binding {
    /// What the binding asks of the scope.
    pub open spec fn may(self, draft: Draft) -> bool {
        &&& draft.wf()
        &&& match self {
            Binding::Con(ctor, args) => draft.room(args.len() + 1) && ctor.0
                < draft.program.ctors.len(),
            Binding::Call(function, args) => draft.room(args.len() + 1) && function.0
                < draft.program.functions.len(),
            Binding::Known(id, value) => draft.room(1) && id.0 < draft.program.types.len()
                && value.0 < draft.program.consts.len(),
            Binding::Match(grown, _, _) => draft.room(1) && grown.grows(draft.program),
        }
    }

    /// What the binding leaves.
    pub open spec fn done(self, draft: Draft) -> Draft {
        match self {
            Binding::Con(ctor, args) => draft.con(ctor, args),
            Binding::Call(function, args) => draft.call(function, args),
            Binding::Known(id, value) => draft.known(id, value),
            Binding::Match(grown, scrutinee, arms) => Draft { program: grown, ..draft }.matching(
                scrutinee,
                arms,
            ),
        }
    }
}

/// Whether bindings may be made one after the other.
pub open spec fn may_bind(draft: Draft, bindings: Seq<Binding>) -> bool
    decreases bindings.len(),
{
    bindings.len() == 0 || (may_bind(draft, bindings.drop_last()) && bindings.last().may(
        bound_all(draft, bindings.drop_last()),
    ))
}

/// What they leave.
pub open spec fn bound_all(draft: Draft, bindings: Seq<Binding>) -> Draft
    decreases bindings.len(),
{
    if bindings.len() == 0 {
        draft
    } else {
        bindings.last().done(bound_all(draft, bindings.drop_last()))
    }
}

/// Each binding in a scope takes the next local, and what was bound before it
/// stays bound to what it was.
pub proof fn bindings_take_locals_in_turn(draft: Draft, bindings: Seq<Binding>)
    requires
        may_bind(draft, bindings),
    ensures
        ({
            let later = bound_all(draft, bindings);
            &&& later.level == draft.level + bindings.len()
            &&& later.next() == Atom(Local((draft.level + bindings.len()) as u32))
            &&& later.pending.len() == draft.pending.len() + bindings.len()
            &&& draft.pending.is_prefix_of(later.pending)
            &&& later.program.grows(draft.program)
        }),
    decreases bindings.len(),
{
    if bindings.len() > 0 {
        let before = bound_all(draft, bindings.drop_last());
        let after = bound_all(draft, bindings);
        bindings_take_locals_in_turn(draft, bindings.drop_last());
        a_prefix_of_a_prefix(draft.pending, before.pending, after.pending);
        if let Binding::Match(grown, _, _) = bindings.last() {
            assert(after.program.grows(grown));
            builder::growth_chains(before.program, grown, after.program);
        }
        assert(after.program.grows(before.program));
        builder::growth_chains(draft.program, before.program, after.program);
    }
}

/// A constructor application is bound to the next local, with its arguments in
/// order, and stays so whatever is bound after it.
pub proof fn a_construction_keeps_its_local(
    draft: Draft,
    ctor: CtorId,
    args: Seq<Atom>,
    bindings: Seq<Binding>,
)
    requires
        Binding::Con(ctor, args).may(draft),
        may_bind(draft.con(ctor, args), bindings),
    ensures
        ({
            let later = bound_all(draft.con(ctor, args), bindings);
            let bound = later.pending[draft.pending.len() as int];
            &&& later.next() == Atom(Local((draft.level + 1 + bindings.len()) as u32))
            &&& bound == draft.program.next()
            &&& later.program.expr(bound) matches Expr::Con(held, run) && held == ctor
                && run.read(later.program.atoms) == args
        }),
{
    let after = draft.con(ctor, args);
    let later = bound_all(after, bindings);
    bindings_take_locals_in_turn(after, bindings);
    let at = draft.program.exprs.len() as int;
    let run = Range::from(draft.program.atoms.len(), args.len());
    assert(later.pending[draft.pending.len() as int] == after.pending[draft.pending.len() as int]);
    assert(later.program.exprs[at] == after.program.exprs[at]);
    assert forall|i: int| 0 <= i < args.len() implies later.program.atoms[run.start + i]
        == args[i] by {
        assert(later.program.atoms[run.start + i] == after.program.atoms[run.start + i]);
    }
    assert(run.read(later.program.atoms) =~= args);
}

} // verus!
