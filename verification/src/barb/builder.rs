//! Building well-shaped programs.
//!
//! Every operation returns an [`Atom`], and the `Let` that binds it is
//! written for you: A-normal form is the shape of the IR, not a burden on
//! whoever constructs it. A caller never names a local and never sees an
//! [`ExprId`].

use super::ir::{
    Arm, Atom, ConstId, Ctor, CtorId, Expr, ExprId, FnId, Function, Local, Range, Store, Symbol,
    Type, TypeId,
};
use super::Program;
use crate::pool::{append, NameTable, Names};
use vstd::prelude::*;

verus! {

/// A constructor as it is declared: its name, and the types of its fields.
#[verifier::ext_equal]
pub struct Declared {
    pub name: Seq<char>,
    pub fields: Seq<TypeId>,
}

/// The constructors of a declaration.
pub open spec fn declared(ctors: Seq<(&str, &[TypeId])>) -> Seq<Declared> {
    Seq::new(ctors.len(), |i: int| Declared { name: ctors[i].0@, fields: ctors[i].1@ })
}

/// How many entries a declaration needs, of whichever pool it needs most of.
pub open spec fn cost(ctors: Seq<Declared>) -> nat
    decreases ctors.len(),
{
    if ctors.len() == 0 {
        0
    } else {
        cost(ctors.drop_last()) + vstd::utf8::encode_utf8(ctors.last().name).len()
            + ctors.last().fields.len() + 1
    }
}

impl Store {
    pub open spec fn nothing() -> Store {
        Store {
            types: seq![],
            ctors: seq![],
            functions: seq![],
            exprs: seq![],
            atoms: seq![],
            arms: seq![],
            types_pool: seq![],
            consts: seq![],
            bytes: seq![],
            names: NameTable::empty(),
            entry: None,
        }
    }

    pub open spec fn symbol(self, name: Seq<char>) -> Symbol {
        Symbol(self.names.symbol(name) as u32)
    }

    /// With a type that has no constructors yet.
    pub open spec fn with_type(self, name: Seq<char>) -> Store {
        Store {
            types: self.types.push(
                Type { name: self.symbol(name), ctors: Range { start: 0, len: 0 } },
            ),
            names: self.names.with(name),
            ..self
        }
    }

    /// With a type's constructors about to follow.
    pub open spec fn with_ctors_next(self, id: TypeId) -> Store {
        Store {
            types: self.types.update(
                id.0 as int,
                Type { name: self.type_(id).name, ctors: Range::from(self.ctors.len(), 0) },
            ),
            ..self
        }
    }

    /// With one more constructor of a type, after those it has.
    pub open spec fn with_ctor(self, id: TypeId, ctor: Declared) -> Store {
        let held = self.type_(id);
        Store {
            types: self.types.update(
                id.0 as int,
                Type {
                    name: held.name,
                    ctors: Range { start: held.ctors.start, len: (held.ctors.len + 1) as u32 },
                },
            ),
            ctors: self.ctors.push(
                Ctor {
                    name: self.symbol(ctor.name),
                    owner: id,
                    fields: Range::from(self.types_pool.len(), ctor.fields.len()),
                },
            ),
            types_pool: self.types_pool + ctor.fields,
            names: self.names.with(ctor.name),
            ..self
        }
    }

    pub open spec fn with_ctors(self, id: TypeId, ctors: Seq<Declared>) -> Store
        decreases ctors.len(),
    {
        if ctors.len() == 0 {
            self.with_ctors_next(id)
        } else {
            self.with_ctors(id, ctors.drop_last()).with_ctor(id, ctors.last())
        }
    }

    pub open spec fn with_function(
        self,
        name: Seq<char>,
        params: Seq<TypeId>,
        result: TypeId,
    ) -> Store {
        Store {
            functions: self.functions.push(
                Function {
                    name: self.symbol(name),
                    params: Range::from(self.types_pool.len(), params.len()),
                    result,
                    body: ExprId(0),
                    defined: false,
                },
            ),
            types_pool: self.types_pool + params,
            names: self.names.with(name),
            ..self
        }
    }

    pub open spec fn with_body(self, id: FnId, body: ExprId) -> Store {
        let held = self.function(id);
        Store {
            functions: self.functions.update(
                id.0 as int,
                Function {
                    name: held.name,
                    params: held.params,
                    result: held.result,
                    body,
                    defined: true,
                },
            ),
            ..self
        }
    }

    pub open spec fn with_entry(self, id: FnId) -> Store {
        Store { entry: Some(id), ..self }
    }

    /// With a known value's encoding held.
    pub open spec fn with_const(self, bytes: Seq<u8>) -> Store {
        Store {
            consts: self.consts.push(Range::from(self.bytes.len(), bytes.len())),
            bytes: self.bytes + bytes,
            ..self
        }
    }

    pub open spec fn with_expr(self, expr: Expr) -> Store {
        Store { exprs: self.exprs.push(expr), ..self }
    }

    pub open spec fn with_atoms(self, atoms: Seq<Atom>) -> Store {
        Store { atoms: self.atoms + atoms, ..self }
    }

    pub open spec fn with_arms(self, arms: Seq<Arm>) -> Store {
        Store { arms: self.arms + arms, ..self }
    }

    /// The term the next one will be.
    pub open spec fn next(self) -> ExprId {
        ExprId(self.exprs.len() as u32)
    }

    /// Whether this is `old` with more terms, and nothing else changed.
    pub open spec fn grows(self, old: Store) -> bool {
        &&& self.types == old.types
        &&& self.ctors == old.ctors
        &&& self.functions == old.functions
        &&& self.types_pool == old.types_pool
        &&& self.consts == old.consts
        &&& self.bytes == old.bytes
        &&& self.names == old.names
        &&& self.entry == old.entry
        &&& old.exprs.is_prefix_of(self.exprs)
        &&& old.atoms.is_prefix_of(self.atoms)
        &&& old.arms.is_prefix_of(self.arms)
    }
}

/// A scope while it is built: what it has bound so far, in order, and how
/// many locals there are where it has come to.
#[verifier::ext_equal]
pub struct Draft {
    pub program: Store,
    pub pending: Seq<ExprId>,
    pub level: nat,
}

impl Draft {
    /// A body that binds `bound` locals of its own before anything else.
    pub open spec fn opened(program: Store, bound: nat) -> Draft {
        Draft { program, pending: seq![], level: bound }
    }

    /// A scope inside this one.
    pub open spec fn inside(self, bound: nat) -> Draft {
        Draft { program: self.program, pending: seq![], level: self.level + bound }
    }

    /// The locals that a scope inside this one binds first.
    pub open spec fn binders(self, bound: nat) -> Seq<Atom> {
        Seq::new(bound, |i: int| Atom(Local((self.level + i) as u32)))
    }

    /// The local that the next binding takes.
    pub open spec fn next(self) -> Atom {
        Atom(Local(self.level as u32))
    }

    /// With `expr` bound to the next local.
    pub open spec fn emit(self, expr: Expr) -> Draft {
        Draft {
            program: self.program.with_expr(expr),
            pending: self.pending.push(self.program.next()),
            level: self.level + 1,
        }
    }

    /// With a run of atoms held.
    pub open spec fn hold(self, atoms: Seq<Atom>) -> Draft {
        Draft { program: self.program.with_atoms(atoms), ..self }
    }

    pub open spec fn con(self, ctor: CtorId, args: Seq<Atom>) -> Draft {
        self.hold(args).emit(Expr::Con(ctor, Range::from(self.program.atoms.len(), args.len())))
    }

    pub open spec fn call(self, function: FnId, args: Seq<Atom>) -> Draft {
        self.hold(args).emit(
            Expr::Call(function, Range::from(self.program.atoms.len(), args.len())),
        )
    }

    pub open spec fn known(self, id: TypeId, value: ConstId) -> Draft {
        self.emit(Expr::Static(id, value))
    }

    pub open spec fn matching(self, scrutinee: Atom, arms: Seq<Arm>) -> Draft {
        Draft { program: self.program.with_arms(arms), ..self }.emit(
            Expr::Match(scrutinee, Range::from(self.program.arms.len(), arms.len())),
        )
    }

    /// Whether the result is what was bound last, so that nothing could have
    /// read it.
    pub open spec fn answers_last(self, result: Atom) -> bool {
        self.pending.len() > 0 && result.0.0 + 1 == self.level
    }

    /// The scope's bindings folded around its result, and the program that
    /// holds them. A result that is the last binding becomes the body itself
    /// rather than a `Let` into an atom.
    pub open spec fn closed(self, result: Atom) -> (Store, ExprId) {
        if self.answers_last(result) {
            wrapped(self.program, self.pending.drop_last(), self.pending.last())
        } else {
            wrapped(
                self.program.with_expr(Expr::Atom(result)),
                self.pending,
                self.program.next(),
            )
        }
    }

    /// This scope again, once the one inside it has closed.
    pub open spec fn after(self, inner: Draft, result: Atom) -> Draft {
        Draft { program: inner.closed(result).0, ..self }
    }

    pub open spec fn wf(self) -> bool {
        &&& self.program.wf()
        &&& forall|i: int|
            0 <= i < self.pending.len() ==> (#[trigger] self.pending[i]).0
                < self.program.exprs.len()
    }

    /// Whether `count` more of anything fit.
    pub open spec fn room(self, count: nat) -> bool {
        self.program.room(count) && self.level + count <= u32::MAX
    }

    /// Whether a scope that began as `start` can close here.
    pub open spec fn ends(self, start: Draft) -> bool {
        &&& self.wf()
        &&& self.program.grows(start.program)
        &&& self.program.exprs.len() + self.pending.len() < u32::MAX
    }
}

/// Terms bound one inside the other around a body.
pub open spec fn wrapped(program: Store, bound: Seq<ExprId>, body: ExprId) -> (Store, ExprId)
    decreases bound.len(),
{
    if bound.len() == 0 {
        (program, body)
    } else {
        wrapped(
            program.with_expr(Expr::Let(bound.last(), body)),
            bound.drop_last(),
            program.next(),
        )
    }
}

/// A program stays well formed while terms that fit are added.
pub proof fn a_grown_program_fits(old: Store, new: Store)
    requires
        old.wf(),
        new.grows(old),
        new.exprs.len() <= u32::MAX,
        forall|i: int|
            old.exprs.len() <= i < new.exprs.len() ==> new.expr_fits(i, #[trigger] new.exprs[i]),
    ensures
        new.wf(),
{
    assert forall|i: int| 0 <= i < new.types.len() implies #[trigger] new.type_fits(i) by {
        assert(old.type_fits(i));
    }
    assert forall|i: int| 0 <= i < new.ctors.len() implies #[trigger] new.ctor_fits(i) by {
        assert(old.ctor_fits(i));
    }
    assert forall|i: int| 0 <= i < new.functions.len() implies #[trigger] new.function_fits(i) by {
        assert(old.function_fits(i));
    }
    assert forall|i: int| 0 <= i < new.exprs.len() implies new.expr_fits(
        i,
        #[trigger] new.exprs[i],
    ) by {
        if i < old.exprs.len() {
            assert(new.exprs[i] == old.exprs[i]);
            assert(old.expr_fits(i, old.exprs[i]));
            if let Expr::Match(_, arms) = old.exprs[i] {
                assert forall|a: int| arms.start <= a < arms.start + arms.len implies (
                #[trigger] new.arms[a]).body.0 < i && new.arms[a].ctor.0 < new.ctors.len() by {
                    assert(new.arms[a] == old.arms[a]);
                }
            }
        }
    }
}

proof fn a_wrapping_fits(program: Store, bound: Seq<ExprId>, body: ExprId)
    requires
        program.wf(),
        body.0 < program.exprs.len(),
        forall|i: int| 0 <= i < bound.len() ==> (#[trigger] bound[i]).0 < program.exprs.len(),
        program.exprs.len() + bound.len() <= u32::MAX,
    ensures
        wrapped(program, bound, body).0.wf(),
        wrapped(program, bound, body).0.grows(program),
        wrapped(program, bound, body).0.exprs.len() == program.exprs.len() + bound.len(),
        wrapped(program, bound, body).0.atoms == program.atoms,
        wrapped(program, bound, body).0.arms == program.arms,
        wrapped(program, bound, body).1.0 < wrapped(program, bound, body).0.exprs.len(),
    decreases bound.len(),
{
    if bound.len() > 0 {
        let next = program.with_expr(Expr::Let(bound.last(), body));
        a_grown_program_fits(program, next);
        a_wrapping_fits(next, bound.drop_last(), program.next());
        let end = wrapped(next, bound.drop_last(), program.next()).0;
        assert(program.exprs.is_prefix_of(end.exprs)) by {
            assert(next.exprs.is_prefix_of(end.exprs));
            assert forall|i: int| 0 <= i < program.exprs.len() implies program.exprs[i]
                == end.exprs[i] by {
                assert(next.exprs[i] == end.exprs[i]);
            }
        }
    }
}

/// Closing a scope keeps the program well formed, and answers a term of it.
pub proof fn a_closed_scope_fits(start: Draft, end: Draft, result: Atom)
    requires
        end.ends(start),
    ensures
        end.closed(result).0.wf(),
        end.closed(result).0.grows(start.program),
        end.closed(result).1.0 < end.closed(result).0.exprs.len(),
        end.closed(result).0.exprs.len() <= end.program.exprs.len() + end.pending.len() + 1,
        end.closed(result).0.atoms == end.program.atoms,
        end.closed(result).0.arms == end.program.arms,
{
    let program = end.program;
    let pending = end.pending;
    if end.answers_last(result) {
        a_wrapping_fits(program, pending.drop_last(), pending.last());
        growth_chains(start.program, program, end.closed(result).0);
    } else {
        let next = program.with_expr(Expr::Atom(result));
        a_grown_program_fits(program, next);
        a_wrapping_fits(next, pending, program.next());
        growth_chains(program, next, end.closed(result).0);
        growth_chains(start.program, program, end.closed(result).0);
    }
}

/// Terms are only ever added, however many scopes add them.
pub proof fn growth_chains(first: Store, second: Store, third: Store)
    requires
        second.grows(first),
        third.grows(second),
    ensures
        third.grows(first),
{
    assert(first.exprs.is_prefix_of(third.exprs)) by {
        assert forall|i: int| 0 <= i < first.exprs.len() implies first.exprs[i]
            == third.exprs[i] by {
            assert(first.exprs[i] == second.exprs[i]);
        }
    }
    assert(first.atoms.is_prefix_of(third.atoms)) by {
        assert forall|i: int| 0 <= i < first.atoms.len() implies first.atoms[i]
            == third.atoms[i] by {
            assert(first.atoms[i] == second.atoms[i]);
        }
    }
    assert(first.arms.is_prefix_of(third.arms)) by {
        assert forall|i: int| 0 <= i < first.arms.len() implies first.arms[i] == third.arms[i] by {
            assert(first.arms[i] == second.arms[i]);
        }
    }
}

/// A scope stays well formed while those inside it add to the program.
pub proof fn a_scope_outlives_growth(draft: Draft, program: Store)
    requires
        draft.wf(),
        program.wf(),
        program.grows(draft.program),
    ensures
        (Draft { program, ..draft }).wf(),
{
}

/// Binding a term keeps a scope well formed.
pub proof fn an_emission_fits(draft: Draft, expr: Expr)
    requires
        draft.wf(),
        draft.program.exprs.len() < u32::MAX,
        draft.program.expr_fits(draft.program.exprs.len() as int, expr),
    ensures
        draft.emit(expr).wf(),
        draft.emit(expr).program.grows(draft.program),
{
    a_grown_program_fits(draft.program, draft.program.with_expr(expr));
}

proof fn a_named_program_fits(old: Store, name: Seq<char>)
    requires
        old.wf(),
        old.names.room(vstd::utf8::encode_utf8(name).len() + 1),
    ensures
        (Store { names: old.names.with(name), ..old }).wf(),
{
    let new = Store { names: old.names.with(name), ..old };
    crate::pool::naming_keeps_names(old.names, name);
    assert forall|i: int| 0 <= i < new.types.len() implies #[trigger] new.type_fits(i) by {
        assert(old.type_fits(i));
    }
    assert forall|i: int| 0 <= i < new.ctors.len() implies #[trigger] new.ctor_fits(i) by {
        assert(old.ctor_fits(i));
    }
    assert forall|i: int| 0 <= i < new.functions.len() implies #[trigger] new.function_fits(i) by {
        assert(old.function_fits(i));
    }
    assert forall|i: int| 0 <= i < new.exprs.len() implies new.expr_fits(
        i,
        #[trigger] new.exprs[i],
    ) by {
        assert(old.expr_fits(i, old.exprs[i]));
    }
}

/// Declaring a type keeps a program well formed.
pub proof fn a_declared_type_fits(old: Store, name: Seq<char>)
    requires
        old.wf(),
        old.room(vstd::utf8::encode_utf8(name).len() + 1),
    ensures
        old.with_type(name).wf(),
{
    let mid = Store { names: old.names.with(name), ..old };
    let new = old.with_type(name);
    crate::pool::naming_keeps_names(old.names, name);
    a_named_program_fits(old, name);
    assert forall|i: int| 0 <= i < new.types.len() implies #[trigger] new.type_fits(i) by {
        if i < old.types.len() {
            assert(mid.type_fits(i));
            assert(new.types[i] == mid.types[i]);
        }
    }
    assert forall|i: int| 0 <= i < new.ctors.len() implies #[trigger] new.ctor_fits(i) by {
        assert(mid.ctor_fits(i));
        assert(new.types[new.ctors[i].owner.0 as int] == mid.types[mid.ctors[i].owner.0 as int]);
    }
    assert forall|i: int| 0 <= i < new.functions.len() implies #[trigger] new.function_fits(i) by {
        assert(mid.function_fits(i));
    }
    assert forall|i: int| 0 <= i < new.exprs.len() implies new.expr_fits(
        i,
        #[trigger] new.exprs[i],
    ) by {
        assert(mid.expr_fits(i, mid.exprs[i]));
    }
}

/// Whether the next constructor of a type goes right after those it has.
pub open spec fn is_open(store: Store, id: TypeId) -> bool {
    &&& id.0 < store.types.len()
    &&& store.type_(id).ctors.start + store.type_(id).ctors.len == store.ctors.len()
}

proof fn ctors_about_to_follow_fit(old: Store, id: TypeId)
    requires
        old.wf(),
        id.0 < old.types.len(),
    ensures
        old.with_ctors_next(id).wf(),
        is_open(old.with_ctors_next(id), id),
{
    let new = old.with_ctors_next(id);
    assert forall|i: int| 0 <= i < new.types.len() implies #[trigger] new.type_fits(i) by {
        assert(old.type_fits(i));
        if i != id.0 {
            assert(new.types[i] == old.types[i]);
        }
    }
    assert forall|i: int| 0 <= i < new.ctors.len() implies #[trigger] new.ctor_fits(i) by {
        assert(old.ctor_fits(i));
    }
    assert forall|i: int| 0 <= i < new.functions.len() implies #[trigger] new.function_fits(i) by {
        assert(old.function_fits(i));
    }
    assert forall|i: int| 0 <= i < new.exprs.len() implies new.expr_fits(
        i,
        #[trigger] new.exprs[i],
    ) by {
        assert(old.expr_fits(i, old.exprs[i]));
    }
}

proof fn one_more_ctor_fits(old: Store, id: TypeId, ctor: Declared)
    requires
        old.wf(),
        old.room(vstd::utf8::encode_utf8(ctor.name).len() + ctor.fields.len() + 1),
        is_open(old, id),
        forall|i: int| 0 <= i < ctor.fields.len() ==> (#[trigger] ctor.fields[i]).0
            < old.types.len(),
    ensures
        old.with_ctor(id, ctor).wf(),
        is_open(old.with_ctor(id, ctor), id),
{
    let mid = Store { names: old.names.with(ctor.name), ..old };
    let new = old.with_ctor(id, ctor);
    crate::pool::naming_keeps_names(old.names, ctor.name);
    a_named_program_fits(old, ctor.name);
    let last = old.ctors.len() as int;
    assert(old.type_fits(id.0 as int));
    assert forall|i: int| 0 <= i < new.types.len() implies #[trigger] new.type_fits(i) by {
        assert(mid.type_fits(i));
        let range = new.types[i].ctors;
        assert forall|c: int| range.start <= c < range.start + range.len implies (
        #[trigger] new.ctors[c]).owner.0 == i by {
            if c < last {
                assert(new.ctors[c] == mid.ctors[c]);
            }
        }
    }
    assert forall|i: int| 0 <= i < new.ctors.len() implies #[trigger] new.ctor_fits(i) by {
        if i < last {
            assert(mid.ctor_fits(i));
            assert(new.ctors[i] == mid.ctors[i]);
        }
    }
    assert forall|i: int| 0 <= i < new.functions.len() implies #[trigger] new.function_fits(i) by {
        assert(mid.function_fits(i));
    }
    assert forall|i: int| 0 <= i < new.exprs.len() implies new.expr_fits(
        i,
        #[trigger] new.exprs[i],
    ) by {
        assert(mid.expr_fits(i, mid.exprs[i]));
    }
    assert forall|i: int| 0 <= i < new.types_pool.len() implies (#[trigger] new.types_pool[i]).0
        < new.types.len() by {
        if i < old.types_pool.len() {
            assert(new.types_pool[i] == old.types_pool[i]);
        } else {
            assert(new.types_pool[i] == ctor.fields[i - old.types_pool.len()]);
        }
    }
}

/// Declaring a function keeps a program well formed.
pub proof fn a_declared_function_fits(old: Store, name: Seq<char>, params: Seq<TypeId>, result: TypeId)
    requires
        old.wf(),
        old.room(vstd::utf8::encode_utf8(name).len() + params.len() + 1),
        result.0 < old.types.len(),
        forall|i: int| 0 <= i < params.len() ==> (#[trigger] params[i]).0 < old.types.len(),
    ensures
        old.with_function(name, params, result).wf(),
{
    let mid = Store { names: old.names.with(name), ..old };
    let new = old.with_function(name, params, result);
    crate::pool::naming_keeps_names(old.names, name);
    a_named_program_fits(old, name);
    assert forall|i: int| 0 <= i < new.types.len() implies #[trigger] new.type_fits(i) by {
        assert(mid.type_fits(i));
    }
    assert forall|i: int| 0 <= i < new.ctors.len() implies #[trigger] new.ctor_fits(i) by {
        assert(mid.ctor_fits(i));
    }
    assert forall|i: int| 0 <= i < new.functions.len() implies #[trigger] new.function_fits(i) by {
        if i < old.functions.len() {
            assert(mid.function_fits(i));
            assert(new.functions[i] == mid.functions[i]);
        }
    }
    assert forall|i: int| 0 <= i < new.exprs.len() implies new.expr_fits(
        i,
        #[trigger] new.exprs[i],
    ) by {
        assert(mid.expr_fits(i, mid.exprs[i]));
    }
    assert forall|i: int| 0 <= i < new.types_pool.len() implies (#[trigger] new.types_pool[i]).0
        < new.types.len() by {
        if i < old.types_pool.len() {
            assert(new.types_pool[i] == old.types_pool[i]);
        } else {
            assert(new.types_pool[i] == params[i - old.types_pool.len()]);
        }
    }
}

/// Giving a function a body keeps a program well formed.
pub proof fn a_body_fits(old: Store, id: FnId, body: ExprId)
    requires
        old.wf(),
        id.0 < old.functions.len(),
        body.0 < old.exprs.len(),
    ensures
        old.with_body(id, body).wf(),
{
    let new = old.with_body(id, body);
    assert forall|i: int| 0 <= i < new.types.len() implies #[trigger] new.type_fits(i) by {
        assert(old.type_fits(i));
    }
    assert forall|i: int| 0 <= i < new.ctors.len() implies #[trigger] new.ctor_fits(i) by {
        assert(old.ctor_fits(i));
    }
    assert forall|i: int| 0 <= i < new.functions.len() implies #[trigger] new.function_fits(i) by {
        assert(old.function_fits(i));
    }
    assert forall|i: int| 0 <= i < new.exprs.len() implies new.expr_fits(
        i,
        #[trigger] new.exprs[i],
    ) by {
        assert(old.expr_fits(i, old.exprs[i]));
    }
}

/// Holding a known value keeps a program well formed, and keeps every known
/// value it held.
pub proof fn a_known_value_is_held(old: Store, bytes: Seq<u8>)
    requires
        old.wf(),
        old.room(bytes.len()),
    ensures
        old.with_const(bytes).wf(),
        old.with_const(bytes).known_bytes(ConstId(old.consts.len() as u32)) == bytes,
        forall|k: ConstId|
            k.0 < old.consts.len() ==> #[trigger] old.with_const(bytes).known_bytes(k)
                == old.known_bytes(k),
{
    let new = old.with_const(bytes);
    assert forall|i: int| 0 <= i < new.types.len() implies #[trigger] new.type_fits(i) by {
        assert(old.type_fits(i));
    }
    assert forall|i: int| 0 <= i < new.ctors.len() implies #[trigger] new.ctor_fits(i) by {
        assert(old.ctor_fits(i));
    }
    assert forall|i: int| 0 <= i < new.functions.len() implies #[trigger] new.function_fits(i) by {
        assert(old.function_fits(i));
    }
    assert forall|i: int| 0 <= i < new.exprs.len() implies new.expr_fits(
        i,
        #[trigger] new.exprs[i],
    ) by {
        assert(old.expr_fits(i, old.exprs[i]));
    }
    assert forall|i: int| 0 <= i < new.consts.len() implies (#[trigger] new.consts[i]).within(
        new.bytes.len(),
    ) by {
        if i < old.consts.len() {
            assert(new.consts[i] == old.consts[i]);
        }
    }
    assert(new.known_bytes(ConstId(old.consts.len() as u32)) =~= bytes);
    assert forall|k: ConstId| k.0 < old.consts.len() implies #[trigger] new.known_bytes(k)
        == old.known_bytes(k) by {
        let held = old.consts[k.0 as int];
        assert(new.consts[k.0 as int] == held);
        assert(held.within(old.bytes.len()));
        assert(new.known_bytes(k) =~= old.known_bytes(k));
    }
}

impl Default for Program {
    fn default() -> (program: Self)
        ensures
            program@ == Store::nothing(),
            program@.wf(),
    {
        Self::new()
    }
}

impl Program {
    pub fn new() -> (program: Self)
        ensures
            program@ == Store::nothing(),
            program@.wf(),
    {
        let program = Self {
            types: Vec::new(),
            ctors: Vec::new(),
            functions: Vec::new(),
            exprs: Vec::new(),
            atoms: Vec::new(),
            arms: Vec::new(),
            types_pool: Vec::new(),
            consts: Vec::new(),
            bytes: Vec::new(),
            names: Names::new(),
            entry: None,
        };
        assert(program@ =~= Store::nothing());
        program
    }

    /// Whether `count` more fit in every pool.
    pub fn has_room(&self, count: usize) -> (room: bool)
        ensures
            room == self@.room(count as nat),
    {
        if count > u32::MAX as usize {
            return false;
        }
        let most: usize = u32::MAX as usize - count;
        self.types.len() <= most && self.ctors.len() <= most && self.functions.len() <= most
            && self.exprs.len() <= most && self.atoms.len() <= most && self.arms.len() <= most
            && self.types_pool.len() <= most && self.consts.len() <= most && self.bytes.len()
            <= most && self.names.has_room(count)
    }

    /// Reserve a type. Its constructors follow, so that a field may name the
    /// type being declared.
    pub fn declare_type(&mut self, name: &str) -> (id: TypeId)
        requires
            old(self)@.wf(),
            old(self)@.room(vstd::utf8::encode_utf8(name@).len() + 1),
        ensures
            final(self)@ == old(self)@.with_type(name@),
            final(self)@.wf(),
            id.0 == old(self)@.types.len(),
    {
        proof {
            a_declared_type_fits(self@, name@);
        }
        let symbol = Symbol(self.names.symbol(name) as u32);
        self.types.push(Type { name: symbol, ctors: Range { start: 0, len: 0 } });
        assert(self@ =~= old(self)@.with_type(name@));
        TypeId((self.types.len() - 1) as u32)
    }

    /// A type's constructors are about to follow.
    pub(crate) fn begin_ctors(&mut self, id: TypeId)
        requires
            old(self)@.wf(),
            id.0 < old(self)@.types.len(),
        ensures
            final(self)@ == old(self)@.with_ctors_next(id),
            final(self)@.wf(),
            is_open(final(self)@, id),
    {
        proof {
            ctors_about_to_follow_fit(self@, id);
        }
        let held = self.types[id.index()];
        let start = Range::of(self.ctors.len(), 0);
        self.types.set(id.index(), Type { name: held.name, ctors: start });
        assert(self@ =~= old(self)@.with_ctors_next(id));
    }

    /// One more constructor of the type whose constructors came last.
    pub(crate) fn add_ctor(&mut self, id: TypeId, name: &str, fields: &[TypeId])
        requires
            old(self)@.wf(),
            old(self)@.room(vstd::utf8::encode_utf8(name@).len() + fields@.len() + 1),
            is_open(old(self)@, id),
            forall|i: int|
                0 <= i < fields@.len() ==> (#[trigger] fields@[i]).0 < old(self)@.types.len(),
        ensures
            final(self)@ == old(self)@.with_ctor(id, (Declared { name: name@, fields: fields@ })),
            final(self)@.wf(),
            is_open(final(self)@, id),
    {
        proof {
            one_more_ctor_fits(self@, id, Declared { name: name@, fields: fields@ });
        }
        let symbol = Symbol(self.names.symbol(name) as u32);
        let range = Range::of(self.types_pool.len(), fields.len());
        append(&mut self.types_pool, fields);
        self.ctors.push(Ctor { name: symbol, owner: id, fields: range });
        let held = self.types[id.index()];
        let ctors = Range { start: held.ctors.start, len: held.ctors.len + 1 };
        self.types.set(id.index(), Type { name: held.name, ctors });
        assert(self@ =~= old(self)@.with_ctor(id, Declared { name: name@, fields: fields@ }));
    }

    /// Give a reserved type its constructors, in tag order. One that has some
    /// has these instead.
    pub fn define_type(&mut self, id: TypeId, ctors: &[(&str, &[TypeId])])
        requires
            old(self)@.wf(),
            id.0 < old(self)@.types.len(),
            old(self)@.room(cost(declared(ctors@))),
            forall|i: int, j: int|
                0 <= i < ctors@.len() && 0 <= j < ctors@[i].1@.len() ==> (
                #[trigger] ctors@[i].1@[j]).0 < old(self)@.types.len(),
        ensures
            final(self)@ == old(self)@.with_ctors(id, declared(ctors@)),
            final(self)@.wf(),
    {
        self.begin_ctors(id);
        let ghost list = declared(ctors@);
        let mut at: usize = 0;
        assert(list.take(0) =~= seq![]);
        while at < ctors.len()
            invariant
                at <= ctors@.len(),
                list == declared(ctors@),
                self@ == old(self)@.with_ctors(id, list.take(at as int)),
                self@.wf(),
                is_open(self@, id),
                self@.types.len() == old(self)@.types.len(),
                old(self)@.room(cost(list)),
                self@.fits_after(old(self)@, cost(list.take(at as int))),
                forall|i: int, j: int|
                    0 <= i < ctors@.len() && 0 <= j < ctors@[i].1@.len() ==> (
                    #[trigger] ctors@[i].1@[j]).0 < old(self)@.types.len(),
            decreases ctors@.len() - at,
        {
            let (name, fields) = ctors[at];
            let ghost before = self@;
            proof {
                let one = list.take(at + 1);
                assert(one.drop_last() =~= list.take(at as int));
                cost_grows(list, at as nat + 1);
                assert forall|i: int| 0 <= i < fields@.len() implies (#[trigger] fields@[i]).0
                    < self@.types.len() by {
                    assert(ctors@[at as int].1@[i].0 < old(self)@.types.len());
                }
            }
            self.add_ctor(id, name, fields);
            proof {
                naming_costs(before.names, name@);
            }
            at = at + 1;
        }
        assert(list.take(at as int) =~= list);
    }

    /// A function that has no body yet. It is something else's to answer for
    /// until it is given one.
    pub fn declare(&mut self, name: &str, params: &[TypeId], result: TypeId) -> (id: FnId)
        requires
            old(self)@.wf(),
            old(self)@.room(vstd::utf8::encode_utf8(name@).len() + params@.len() + 1),
            result.0 < old(self)@.types.len(),
            forall|i: int|
                0 <= i < params@.len() ==> (#[trigger] params@[i]).0 < old(self)@.types.len(),
        ensures
            final(self)@ == old(self)@.with_function(name@, params@, result),
            final(self)@.wf(),
            id.0 == old(self)@.functions.len(),
    {
        proof {
            a_declared_function_fits(self@, name@, params@, result);
        }
        let symbol = Symbol(self.names.symbol(name) as u32);
        let range = Range::of(self.types_pool.len(), params.len());
        append(&mut self.types_pool, params);
        self.functions.push(
            Function { name: symbol, params: range, result, body: ExprId(0), defined: false },
        );
        assert(self@ =~= old(self)@.with_function(name@, params@, result));
        FnId((self.functions.len() - 1) as u32)
    }

    /// The function a target enters.
    pub fn set_entry(&mut self, id: FnId)
        requires
            old(self)@.wf(),
            id.0 < old(self)@.functions.len(),
        ensures
            final(self)@ == old(self)@.with_entry(id),
            final(self)@.wf(),
    {
        self.entry = Some(id);
        proof {
            let old = old(self)@;
            let new = self@;
            assert(new =~= old.with_entry(id));
            assert forall|i: int| 0 <= i < new.types.len() implies #[trigger] new.type_fits(i) by {
                assert(old.type_fits(i));
            }
            assert forall|i: int| 0 <= i < new.ctors.len() implies #[trigger] new.ctor_fits(i) by {
                assert(old.ctor_fits(i));
            }
            assert forall|i: int| 0 <= i < new.functions.len() implies #[trigger] new.function_fits(
                i,
            ) by {
                assert(old.function_fits(i));
            }
            assert forall|i: int| 0 <= i < new.exprs.len() implies new.expr_fits(
                i,
                #[trigger] new.exprs[i],
            ) by {
                assert(old.expr_fits(i, old.exprs[i]));
            }
        }
    }

    /// Hold a known value's encoding.
    pub(crate) fn hold(&mut self, bytes: &[u8]) -> (id: ConstId)
        requires
            old(self)@.wf(),
            old(self)@.room(bytes@.len()),
        ensures
            final(self)@ == old(self)@.with_const(bytes@),
            final(self)@.wf(),
            id.0 == old(self)@.consts.len(),
            final(self)@.known_bytes(id) == bytes@,
    {
        proof {
            a_known_value_is_held(self@, bytes@);
        }
        let range = Range::of(self.bytes.len(), bytes.len());
        append(&mut self.bytes, bytes);
        self.consts.push(range);
        assert(self@ =~= old(self)@.with_const(bytes@));
        ConstId((self.consts.len() - 1) as u32)
    }

    /// Begin what `id` runs. Its parameters are the first locals.
    pub fn begin(self, id: FnId) -> (builder: Builder)
        requires
            self@.wf(),
            id.0 < self@.functions.len(),
        ensures
            builder@ == Draft::opened(self@, self@.function(id).params.len as nat),
            builder@.wf(),
    {
        let level: u32 = self.functions[id.index()].params.len;
        let ghost store = self@;
        let builder = Builder { program: self, pending: Vec::new(), level };
        assert(builder@ =~= Draft::opened(store, level as nat));
        builder
    }

    /// Build a declared function's body. Its parameters are the first locals.
    pub fn define<F: FnOnce(&mut Builder, &[Atom]) -> Atom>(&mut self, id: FnId, build: F)
        requires
            old(self)@.wf(),
            id.0 < old(self)@.functions.len(),
            forall|b: &mut Builder, params: &[Atom]|
                b@ == Draft::opened(old(self)@, old(self)@.function(id).params.len as nat)
                    && params@ == old(self)@.parameters(id) ==> #[trigger] build.requires(
                    (b, params),
                ),
            forall|b: &mut Builder, params: &[Atom], result: Atom|
                b@ == Draft::opened(old(self)@, old(self)@.function(id).params.len as nat)
                    && params@ == old(self)@.parameters(id) && #[trigger] build.ensures(
                    (b, params),
                    result,
                ) ==> final(b)@.ends(
                    Draft::opened(old(self)@, old(self)@.function(id).params.len as nat),
                ),
        ensures
            final(self)@.wf(),
            exists|b: &mut Builder, params: &[Atom], result: Atom|
                b@ == Draft::opened(old(self)@, old(self)@.function(id).params.len as nat)
                    && params@ == old(self)@.parameters(id) && #[trigger] build.ensures(
                    (b, params),
                    result,
                ) && final(self)@ == final(b)@.as_body(id, result),
    {
        let ghost store = self@;
        let mut program = Program::new();
        std::mem::swap(self, &mut program);
        let mut builder = program.begin(id);
        let params = builder.parameters();
        assert(params@ =~= store.parameters(id));
        let result = build(&mut builder, params.as_slice());
        *self = builder.end(id, result);
    }
}

impl Store {
    /// A function's parameters, as the first locals.
    pub open spec fn parameters(self, id: FnId) -> Seq<Atom> {
        Seq::new(self.function(id).params.len as nat, |i: int| Atom(Local(i as u32)))
    }

    /// Whether no pool has grown by more than `count` since `old`.
    pub open spec fn fits_after(self, old: Store, count: nat) -> bool {
        &&& self.types.len() <= old.types.len() + count
        &&& self.ctors.len() <= old.ctors.len() + count
        &&& self.functions.len() <= old.functions.len() + count
        &&& self.exprs.len() <= old.exprs.len() + count
        &&& self.atoms.len() <= old.atoms.len() + count
        &&& self.arms.len() <= old.arms.len() + count
        &&& self.types_pool.len() <= old.types_pool.len() + count
        &&& self.consts.len() <= old.consts.len() + count
        &&& self.bytes.len() <= old.bytes.len() + count
        &&& self.names.text.len() <= old.names.text.len() + count
        &&& self.names.symbols.len() <= old.names.symbols.len() + count
    }
}

impl Draft {
    /// The program with this as what `id` runs.
    pub open spec fn as_body(self, id: FnId, result: Atom) -> Store {
        let (program, body) = self.closed(result);
        program.with_body(id, body)
    }
}

/// A longer declaration costs no less.
proof fn cost_grows(ctors: Seq<Declared>, count: nat)
    requires
        count <= ctors.len(),
    ensures
        cost(ctors.take(count as int)) <= cost(ctors),
    decreases ctors.len(),
{
    if count < ctors.len() {
        cost_grows(ctors.drop_last(), count);
        assert(ctors.drop_last().take(count as int) =~= ctors.take(count as int));
    } else {
        assert(ctors.take(count as int) =~= ctors);
    }
}

/// A name takes no more room than its text and a symbol.
pub proof fn naming_costs(names: NameTable, name: Seq<char>)
    ensures
        names.with(name).text.len() <= names.text.len() + vstd::utf8::encode_utf8(name).len(),
        names.with(name).symbols.len() <= names.symbols.len() + 1,
{
}

/// Builds one function's body.
///
/// Bindings accumulate in order and become nested `Let`s when the scope
/// closes, which is what lets an operation hand back an atom. Locals are de
/// Bruijn levels, so the level a binding takes is fixed the moment it is
/// emitted and no renaming is ever needed.
#[derive(Debug)]
pub struct Builder {
    program: Program,
    pending: Vec<ExprId>,
    level: u32,
}

impl View for Builder {
    type V = Draft;

    closed spec fn view(&self) -> Draft {
        Draft { program: self.program@, pending: self.pending@, level: self.level as nat }
    }
}

/// A scope put aside while one inside it is built.
#[derive(Debug)]
pub struct Outer {
    pending: Vec<ExprId>,
    level: u32,
}

impl Outer {
    /// The scope, taken up again in a program that has grown meanwhile.
    pub closed spec fn resumed(&self, program: Store) -> Draft {
        Draft { program, pending: self.pending@, level: self.level as nat }
    }
}

impl Builder {
    /// Whether `count` more of anything fit.
    pub fn has_room(&self, count: usize) -> (room: bool)
        ensures
            room == self@.room(count as nat),
    {
        self.program.has_room(count) && self.level as usize <= u32::MAX as usize - count
    }

    /// The program so far.
    pub fn program(&self) -> (program: &Program)
        ensures
            program@ == self@.program,
    {
        &self.program
    }

    /// How many locals there are.
    pub fn level(&self) -> (level: u32)
        ensures
            level == self@.level,
    {
        self.level
    }

    /// How many bindings the scope holds.
    pub fn held(&self) -> (count: usize)
        ensures
            count == self@.pending.len(),
    {
        self.pending.len()
    }

    /// The locals from `level` up to where the scope has come to.
    fn binders_from(&self, level: u32) -> (binders: Vec<Atom>)
        requires
            level <= self@.level,
        ensures
            binders@ == Seq::new(
                (self@.level - level) as nat,
                |i: int| Atom(Local((level + i) as u32)),
            ),
    {
        let mut binders: Vec<Atom> = Vec::new();
        let mut at: u32 = level;
        while at < self.level
            invariant
                level <= at <= self.level,
                binders@ == Seq::new(
                    (at - level) as nat,
                    |i: int| Atom(Local((level + i) as u32)),
                ),
            decreases self.level - at,
        {
            binders.push(Atom(Local(at)));
            at = at + 1;
            assert(binders@ =~= Seq::new(
                (at - level) as nat,
                |i: int| Atom(Local((level + i) as u32)),
            ));
        }
        binders
    }

    /// Every local there is.
    pub(crate) fn parameters(&self) -> (params: Vec<Atom>)
        ensures
            params@ == Seq::new(self@.level, |i: int| Atom(Local(i as u32))),
    {
        let params = self.binders_from(0);
        assert(params@ =~= Seq::new(self@.level, |i: int| Atom(Local(i as u32))));
        params
    }

    /// Begin a scope that first binds `bound` locals of its own.
    pub fn open(&mut self, bound: u32) -> (opened: (Outer, Vec<Atom>))
        requires
            old(self)@.wf(),
            old(self)@.level + bound <= u32::MAX,
        ensures
            final(self)@ == old(self)@.inside(bound as nat),
            final(self)@.wf(),
            opened.1@ == old(self)@.binders(bound as nat),
            forall|program: Store| #[trigger]
                opened.0.resumed(program) == (Draft { program, ..old(self)@ }),
    {
        let level: u32 = self.level;
        let mut pending: Vec<ExprId> = Vec::new();
        std::mem::swap(&mut self.pending, &mut pending);
        self.level = level + bound;
        assert(self@ =~= old(self)@.inside(bound as nat));
        let binders = self.binders_from(level);
        assert(binders@ =~= old(self)@.binders(bound as nat));
        (Outer { pending, level }, binders)
    }

    /// End the scope with its result, and go back to the one around it.
    pub fn close(&mut self, outer: Outer, result: Atom) -> (body: ExprId)
        requires
            old(self)@.ends(old(self)@),
        ensures
            final(self)@ == outer.resumed(old(self)@.closed(result).0),
            final(self)@.program.wf(),
            final(self)@.program.grows(old(self)@.program),
            body == old(self)@.closed(result).1,
            body.0 < final(self)@.program.exprs.len(),
    {
        let body = self.fold(result);
        self.pending = outer.pending;
        self.level = outer.level;
        assert(self@ =~= outer.resumed(old(self)@.closed(result).0));
        body
    }

    /// End what `id` runs with its result.
    pub fn end(self, id: FnId, result: Atom) -> (program: Program)
        requires
            self@.ends(self@),
            id.0 < self@.program.functions.len(),
        ensures
            program@ == self@.as_body(id, result),
            program@.wf(),
    {
        let mut builder = self;
        let body = builder.fold(result);
        let mut program = builder.program;
        proof {
            a_body_fits(program@, id, body);
        }
        let held = program.functions[id.index()];
        program.functions.set(
            id.index(),
            Function {
                name: held.name,
                params: held.params,
                result: held.result,
                body,
                defined: true,
            },
        );
        assert(program@ =~= self@.as_body(id, result));
        program
    }

    /// Fold this scope's bindings around its result. A result that is the
    /// last binding becomes the body itself rather than a `Let` into an
    /// atom, since nothing after it could have read it.
    fn fold(&mut self, result: Atom) -> (body: ExprId)
        requires
            old(self)@.ends(old(self)@),
        ensures
            final(self)@.program == old(self)@.closed(result).0,
            final(self)@.program.wf(),
            final(self)@.program.grows(old(self)@.program),
            body == old(self)@.closed(result).1,
            body.0 < final(self)@.program.exprs.len(),
    {
        proof {
            a_closed_scope_fits(self@, self@, result);
        }
        let ghost want = self@.closed(result);
        let last = result.0.0 < u32::MAX && result.0.0 + 1 == self.level;
        let mut body = ExprId(0);
        if last && self.pending.len() > 0 {
            body = self.pending[self.pending.len() - 1];
            self.pending.pop();
            assert(self.pending@ =~= old(self)@.pending.drop_last());
        } else {
            body = ExprId(self.program.exprs.len() as u32);
            self.program.exprs.push(Expr::Atom(result));
            assert(self.program@ =~= old(self)@.program.with_expr(Expr::Atom(result)));
        }
        while self.pending.len() > 0
            invariant
                wrapped(self.program@, self.pending@, body) == want,
                self.program@.exprs.len() + self.pending@.len() <= u32::MAX,
            decreases self.pending@.len(),
        {
            let bound = self.pending[self.pending.len() - 1];
            let ghost program = self.program@;
            let ghost pending = self.pending@;
            let ghost inner = body;
            self.pending.pop();
            assert(self.pending@ =~= pending.drop_last());
            let at: usize = self.program.exprs.len();
            self.program.exprs.push(Expr::Let(bound, body));
            assert(self.program@ =~= program.with_expr(Expr::Let(pending.last(), inner)));
            body = ExprId(at as u32);
        }
        body
    }

    /// Bind an expression to the next local and answer it.
    fn emit(&mut self, expr: Expr) -> (atom: Atom)
        requires
            old(self)@.wf(),
            old(self)@.program.exprs.len() < u32::MAX,
            old(self)@.level < u32::MAX,
            old(self)@.program.expr_fits(old(self)@.program.exprs.len() as int, expr),
        ensures
            final(self)@ == old(self)@.emit(expr),
            final(self)@.wf(),
            final(self)@.program.grows(old(self)@.program),
            atom == old(self)@.next(),
    {
        proof {
            an_emission_fits(self@, expr);
        }
        let id = ExprId(self.program.exprs.len() as u32);
        self.program.exprs.push(expr);
        self.pending.push(id);
        let bound = Atom(Local(self.level));
        self.level = self.level + 1;
        assert(self@ =~= old(self)@.emit(expr));
        bound
    }

    /// Hold a run of atoms.
    fn atoms(&mut self, atoms: &[Atom]) -> (range: Range)
        requires
            old(self)@.wf(),
            old(self)@.program.atoms.len() + atoms@.len() <= u32::MAX,
        ensures
            final(self)@ == old(self)@.hold(atoms@),
            final(self)@.wf(),
            final(self)@.program.grows(old(self)@.program),
            range == Range::from(old(self)@.program.atoms.len(), atoms@.len()),
            range.within(final(self)@.program.atoms.len()),
    {
        let range = Range::of(self.program.atoms.len(), atoms.len());
        append(&mut self.program.atoms, atoms);
        assert(self@ =~= old(self)@.hold(atoms@));
        proof {
            a_grown_program_fits(old(self)@.program, self@.program);
        }
        range
    }

    /// A saturated constructor application.
    pub fn con(&mut self, ctor: CtorId, args: &[Atom]) -> (atom: Atom)
        requires
            old(self)@.wf(),
            old(self)@.program.atoms.len() + args@.len() <= u32::MAX,
            old(self)@.program.exprs.len() < u32::MAX,
            old(self)@.level < u32::MAX,
            ctor.0 < old(self)@.program.ctors.len(),
        ensures
            final(self)@ == old(self)@.con(ctor, args@),
            final(self)@.wf(),
            final(self)@.program.grows(old(self)@.program),
            atom == old(self)@.next(),
    {
        let args = self.atoms(args);
        let ghost mid = self@.program;
        let atom = self.emit(Expr::Con(ctor, args));
        proof {
            growth_chains(old(self)@.program, mid, self@.program);
        }
        atom
    }

    /// A saturated call to a top-level name.
    pub fn call(&mut self, function: FnId, args: &[Atom]) -> (atom: Atom)
        requires
            old(self)@.wf(),
            old(self)@.program.atoms.len() + args@.len() <= u32::MAX,
            old(self)@.program.exprs.len() < u32::MAX,
            old(self)@.level < u32::MAX,
            function.0 < old(self)@.program.functions.len(),
        ensures
            final(self)@ == old(self)@.call(function, args@),
            final(self)@.wf(),
            final(self)@.program.grows(old(self)@.program),
            atom == old(self)@.next(),
    {
        let args = self.atoms(args);
        let ghost mid = self@.program;
        let atom = self.emit(Expr::Call(function, args));
        proof {
            growth_chains(old(self)@.program, mid, self@.program);
        }
        atom
    }

    /// A value known outright.
    pub fn known(&mut self, id: TypeId, value: ConstId) -> (atom: Atom)
        requires
            old(self)@.wf(),
            old(self)@.program.exprs.len() < u32::MAX,
            old(self)@.level < u32::MAX,
            id.0 < old(self)@.program.types.len(),
            value.0 < old(self)@.program.consts.len(),
        ensures
            final(self)@ == old(self)@.known(id, value),
            final(self)@.wf(),
            final(self)@.program.grows(old(self)@.program),
            atom == old(self)@.next(),
    {
        self.emit(Expr::Static(id, value))
    }

    /// A match whose arms are built already.
    pub fn choose_arm(&mut self, scrutinee: Atom, arms: &[Arm]) -> (atom: Atom)
        requires
            old(self)@.wf(),
            old(self)@.program.arms.len() + arms@.len() <= u32::MAX,
            old(self)@.program.exprs.len() < u32::MAX,
            old(self)@.level < u32::MAX,
            forall|i: int|
                0 <= i < arms@.len() ==> (#[trigger] arms@[i]).body.0
                    < old(self)@.program.exprs.len() && arms@[i].ctor.0
                    < old(self)@.program.ctors.len(),
        ensures
            final(self)@ == old(self)@.matching(scrutinee, arms@),
            final(self)@.wf(),
            final(self)@.program.grows(old(self)@.program),
            atom == old(self)@.next(),
    {
        let range = Range::of(self.program.arms.len(), arms.len());
        append(&mut self.program.arms, arms);
        let ghost mid = self@.program;
        proof {
            assert(mid =~= old(self)@.program.with_arms(arms@));
            a_grown_program_fits(old(self)@.program, mid);
            a_scope_outlives_growth(old(self)@, mid);
            assert(self@ =~= (Draft { program: mid, ..old(self)@ }));
            assert forall|a: int| range.start <= a < range.start + range.len implies (
            #[trigger] mid.arms[a]).body.0 < mid.exprs.len() && mid.arms[a].ctor.0
                < mid.ctors.len() by {
                assert(mid.arms[a] == arms@[a - range.start]);
            }
        }
        let atom = self.emit(Expr::Match(scrutinee, range));
        proof {
            growth_chains(old(self)@.program, mid, self@.program);
        }
        atom
    }

    /// One arm of a match: a scope of its own, built and closed.
    fn arm<F: Fn(&mut Builder, CtorId, &[Atom]) -> Atom>(
        &mut self,
        ctor: CtorId,
        bound: u32,
        count: Ghost<nat>,
        arm: &F,
    ) -> (made: (Arm, Ghost<(Draft, Atom)>))
        requires
            old(self)@.wf(),
            old(self)@.level + bound <= u32::MAX,
            forall|b: &mut Builder, fields: &[Atom]|
                b@ == old(self)@.inside(bound as nat) && fields@ == old(self)@.binders(bound as nat)
                    ==> #[trigger] arm.requires((b, ctor, fields)),
            forall|b: &mut Builder, fields: &[Atom], result: Atom|
                b@ == old(self)@.inside(bound as nat) && fields@ == old(self)@.binders(bound as nat)
                    && #[trigger] arm.ensures((b, ctor, fields), result) ==> final(b)@.ends_arm(
                    old(self)@.inside(bound as nat),
                    count@,
                ),
        ensures
            final(self)@ == (Draft { program: final(self)@.program, ..old(self)@ }),
            final(self)@.wf(),
            final(self)@.program.grows(old(self)@.program),
            final(self)@.program.exprs.len() < u32::MAX,
            final(self)@.program.arms.len() + count@ <= u32::MAX,
            made.0.ctor == ctor,
            made.0.body.0 < final(self)@.program.exprs.len(),
            made.0.body == made.1@.0.closed(made.1@.1).1,
            final(self)@ == old(self)@.after(made.1@.0, made.1@.1),
            exists|b: &mut Builder, fields: &[Atom]|
                b@ == old(self)@.inside(bound as nat) && fields@ == old(self)@.binders(bound as nat)
                    && #[trigger] arm.ensures((b, ctor, fields), made.1@.1) && final(b)@
                    == made.1@.0,
    {
        let ghost start = self@;
        let (outer, fields) = self.open(bound);
        let result = arm(&mut *self, ctor, fields.as_slice());
        let ghost inner = self@;
        proof {
            a_closed_scope_fits(inner, inner, result);
        }
        let body = self.close(outer, result);
        proof {
            assert(self@ =~= start.after(inner, result));
            growth_chains(start.program, inner.program, self@.program);
            a_scope_outlives_growth(start, self@.program);
        }
        (Arm { ctor, body }, Ghost((inner, result)))
    }

    /// The arms of a match, each built in its turn.
    fn arms_of<F: Fn(&mut Builder, CtorId, &[Atom]) -> Atom>(
        &mut self,
        owner: TypeId,
        arm: &F,
    ) -> (made: (Vec<Arm>, Ghost<Walk>))
        requires
            old(self)@.wf(),
            owner.0 < old(self)@.program.types.len(),
            old(self)@.level < u32::MAX,
            old(self)@.program.exprs.len() < u32::MAX,
            old(self)@.program.arms.len() + old(self)@.program.type_(owner).ctors.len <= u32::MAX,
            forall|tag: nat|
                tag < old(self)@.program.type_(owner).ctors.len ==> old(self)@.level + #[trigger]
                    old(self)@.program.arm_binds(owner, tag) <= u32::MAX,
            forall|walk: Walk, b: &mut Builder, ctor: CtorId, fields: &[Atom]|
                #[trigger] old(self)@.begins_walk(owner, walk) && (forall|tag: int| #[trigger]
                    walk.has(tag) ==> exists|c: &mut Builder, taken: &[Atom]| #[trigger]
                        arm.ensures((c, walk.arms[tag].ctor, taken), walk.results[tag])
                            && old(self)@.began_arm(owner, walk, tag, c@, taken@) && final(c)@
                            == walk.inners[tag]) && old(self)@.begins_arm(
                    owner,
                    walk,
                    b@,
                    ctor,
                    fields@,
                ) ==> #[trigger] arm.requires((b, ctor, fields)),
            forall|walk: Walk, b: &mut Builder, ctor: CtorId, fields: &[Atom], result: Atom|
                #[trigger] old(self)@.begins_walk(owner, walk) && (forall|tag: int| #[trigger]
                    walk.has(tag) ==> exists|c: &mut Builder, taken: &[Atom]| #[trigger]
                        arm.ensures((c, walk.arms[tag].ctor, taken), walk.results[tag])
                            && old(self)@.began_arm(owner, walk, tag, c@, taken@) && final(c)@
                            == walk.inners[tag]) && old(self)@.begins_arm(
                    owner,
                    walk,
                    b@,
                    ctor,
                    fields@,
                ) && #[trigger] arm.ensures((b, ctor, fields), result) ==> final(b)@.ends_arm(
                    b@,
                    old(self)@.program.type_(owner).ctors.len as nat,
                ),
        ensures
            final(self)@.wf(),
            final(self)@ == (Draft { program: final(self)@.program, ..old(self)@ }),
            final(self)@.program.grows(old(self)@.program),
            final(self)@.program.exprs.len() < u32::MAX,
            final(self)@.program.arms.len() + made.0@.len() <= u32::MAX,
            forall|i: int|
                0 <= i < made.0@.len() ==> (#[trigger] made.0@[i]).body.0
                    < final(self)@.program.exprs.len() && made.0@[i].ctor.0
                    < final(self)@.program.ctors.len(),
            made.1@.arms == made.0@,
            made.1@.states.last() == final(self)@,
            made.0@.len() == old(self)@.program.type_(owner).ctors.len,
            old(self)@.begins_walk(owner, made.1@),
            forall|tag: int| #[trigger]
                made.1@.has(tag) ==> exists|c: &mut Builder, taken: &[Atom]| #[trigger]
                    arm.ensures((c, made.1@.arms[tag].ctor, taken), made.1@.results[tag])
                        && old(self)@.began_arm(owner, made.1@, tag, c@, taken@) && final(c)@
                        == made.1@.inners[tag],
    {
        let ghost start = self@;
        proof {
            assert(start.program.type_fits(owner.0 as int));
        }
        let held = self.program.types[owner.index()].ctors;
        let mut arms: Vec<Arm> = Vec::new();
        let ghost mut walk = Walk {
            states: seq![start],
            inners: seq![],
            results: seq![],
            arms: seq![],
        };
        let mut tag: u32 = 0;
        while tag < held.len
            invariant
                tag <= held.len,
                held == start.program.type_(owner).ctors,
                start == old(self)@,
                start.wf(),
                owner.0 < start.program.types.len(),
                start.program.type_fits(owner.0 as int),
                start.program.ctors.len() <= u32::MAX,
                self@ == (Draft { program: self@.program, ..start }),
                self@.wf(),
                self@.program.grows(start.program),
                self@.program.exprs.len() < u32::MAX,
                self@.program.arms.len() + held.len <= u32::MAX,
                arms@.len() == tag,
                forall|i: int|
                    0 <= i < arms@.len() ==> (#[trigger] arms@[i]).body.0
                        < self@.program.exprs.len() && arms@[i].ctor.0 < self@.program.ctors.len(),
                walk.arms == arms@,
                start.begins_walk(owner, walk),
                forall|tag: int| #[trigger]
                    walk.has(tag) ==> exists|c: &mut Builder, taken: &[Atom]| #[trigger]
                        arm.ensures((c, walk.arms[tag].ctor, taken), walk.results[tag])
                            && start.began_arm(owner, walk, tag, c@, taken@) && final(c)@
                            == walk.inners[tag],
                walk.states.last() == self@,
                forall|tag: nat|
                    tag < held.len ==> start.level + #[trigger] start.program.arm_binds(owner, tag)
                        <= u32::MAX,
                forall|walk: Walk, b: &mut Builder, ctor: CtorId, fields: &[Atom]|
                    #[trigger] start.begins_walk(owner, walk) && (forall|tag: int| #[trigger]
                        walk.has(tag) ==> exists|c: &mut Builder, taken: &[Atom]| #[trigger]
                            arm.ensures((c, walk.arms[tag].ctor, taken), walk.results[tag])
                                && start.began_arm(owner, walk, tag, c@, taken@) && final(c)@
                                == walk.inners[tag]) && start.begins_arm(
                        owner,
                        walk,
                        b@,
                        ctor,
                        fields@,
                    ) ==> #[trigger] arm.requires((b, ctor, fields)),
                forall|walk: Walk, b: &mut Builder, ctor: CtorId, fields: &[Atom], result: Atom|
                    #[trigger] start.begins_walk(owner, walk) && (forall|tag: int| #[trigger]
                        walk.has(tag) ==> exists|c: &mut Builder, taken: &[Atom]| #[trigger]
                            arm.ensures((c, walk.arms[tag].ctor, taken), walk.results[tag])
                                && start.began_arm(owner, walk, tag, c@, taken@) && final(c)@
                                == walk.inners[tag]) && start.begins_arm(
                        owner,
                        walk,
                        b@,
                        ctor,
                        fields@,
                    ) && #[trigger] arm.ensures((b, ctor, fields), result) ==> final(b)@.ends_arm(
                        b@,
                        held.len as nat,
                    ),
            decreases held.len - tag,
        {
            let ctor = CtorId(held.start + tag);
            proof {
                assert(start.program.ctor_fits(ctor.0 as int));
                assert(start.program.arm_binds(owner, tag as nat) == start.program.ctor(
                    ctor,
                ).fields.len);
            }
            let bound: u32 = self.program.ctors[ctor.index()].fields.len;
            let ghost before = self@;
            assert(start.begins_walk(owner, walk));
            let (built, Ghost(made)) = self.arm(ctor, bound, Ghost(held.len as nat), arm);
            arms.push(built);
            proof {
                growth_chains(start.program, before.program, self@.program);
                let walked = walk;
                walk = Walk {
                    states: walked.states.push(self@),
                    inners: walked.inners.push(made.0),
                    results: walked.results.push(made.1),
                    arms: walked.arms.push(built),
                };
                assert(start.walks(owner, walk)) by {
                    assert(walk.states.first() == walked.states.first());
                    assert forall|i: int| 0 <= i < walk.arms.len() implies (
                    #[trigger] walk.arms[i]) == (Arm {
                        ctor: start.program.ctor_at(owner, i as nat),
                        body: walk.inners[i].closed(walk.results[i]).1,
                    }) && walk.states[i + 1] == walk.states[i].after(
                        walk.inners[i],
                        walk.results[i],
                    ) by {
                        if i < tag {
                            assert(walked.arms[i] == walk.arms[i]);
                            assert(walked.inners[i] == walk.inners[i]);
                            assert(walked.results[i] == walk.results[i]);
                            assert(walked.states[i] == walk.states[i]);
                            assert(walked.states[i + 1] == walk.states[i + 1]);
                        } else {
                            assert(walk.states[i] == before);
                            assert(walk.inners[i] == made.0);
                            assert(walk.results[i] == made.1);
                            assert(walk.states[i + 1] == self@);
                        }
                    }
                }
                assert forall|i: int| #[trigger] walk.has(i) implies exists|
                    c: &mut Builder,
                    taken: &[Atom],
                | #[trigger]
                    arm.ensures((c, walk.arms[i].ctor, taken), walk.results[i])
                        && start.began_arm(owner, walk, i, c@, taken@) && final(c)@
                        == walk.inners[i] by {
                    if i < tag {
                        assert(walked.has(i));
                        assert(walk.states[i] == walked.states[i]);
                        assert(walk.arms[i] == walked.arms[i]);
                        assert(walk.results[i] == walked.results[i]);
                        assert(walk.inners[i] == walked.inners[i]);
                    } else {
                        assert(walk.states[i] == before);
                        assert(walk.arms[i] == built);
                        assert(walk.results[i] == made.1);
                        assert(walk.inners[i] == made.0);
                    }
                }
            }
            tag = tag + 1;
        }
        (arms, Ghost(walk))
    }

    /// One arm per constructor of `owner`, in tag order, so a match is
    /// exhaustive by construction. Each arm binds its constructor's fields
    /// as the next locals; sibling arms take the same ones, being
    /// alternatives rather than a sequence.
    pub fn match_<F: Fn(&mut Builder, CtorId, &[Atom]) -> Atom>(
        &mut self,
        scrutinee: Atom,
        owner: TypeId,
        arm: F,
    ) -> (atom: Atom)
        requires
            old(self)@.wf(),
            owner.0 < old(self)@.program.types.len(),
            old(self)@.level < u32::MAX,
            old(self)@.program.exprs.len() < u32::MAX,
            old(self)@.program.arms.len() + old(self)@.program.type_(owner).ctors.len <= u32::MAX,
            forall|tag: nat|
                tag < old(self)@.program.type_(owner).ctors.len ==> old(self)@.level + #[trigger]
                    old(self)@.program.arm_binds(owner, tag) <= u32::MAX,
            forall|walk: Walk, b: &mut Builder, ctor: CtorId, fields: &[Atom]|
                #[trigger] old(self)@.begins_walk(owner, walk) && (forall|tag: int| #[trigger]
                    walk.has(tag) ==> exists|c: &mut Builder, taken: &[Atom]| #[trigger]
                        arm.ensures((c, walk.arms[tag].ctor, taken), walk.results[tag])
                            && old(self)@.began_arm(owner, walk, tag, c@, taken@) && final(c)@
                            == walk.inners[tag]) && old(self)@.begins_arm(
                    owner,
                    walk,
                    b@,
                    ctor,
                    fields@,
                ) ==> #[trigger] arm.requires((b, ctor, fields)),
            forall|walk: Walk, b: &mut Builder, ctor: CtorId, fields: &[Atom], result: Atom|
                #[trigger] old(self)@.begins_walk(owner, walk) && (forall|tag: int| #[trigger]
                    walk.has(tag) ==> exists|c: &mut Builder, taken: &[Atom]| #[trigger]
                        arm.ensures((c, walk.arms[tag].ctor, taken), walk.results[tag])
                            && old(self)@.began_arm(owner, walk, tag, c@, taken@) && final(c)@
                            == walk.inners[tag]) && old(self)@.begins_arm(
                    owner,
                    walk,
                    b@,
                    ctor,
                    fields@,
                ) && #[trigger] arm.ensures((b, ctor, fields), result) ==> final(b)@.ends_arm(
                    b@,
                    old(self)@.program.type_(owner).ctors.len as nat,
                ),
        ensures
            final(self)@.wf(),
            final(self)@.program.grows(old(self)@.program),
            atom == old(self)@.next(),
            exists|walk: Walk|
                {
                    &&& #[trigger] old(self)@.begins_walk(owner, walk)
                    &&& forall|tag: int| #[trigger]
                        walk.has(tag) ==> exists|c: &mut Builder, taken: &[Atom]| #[trigger]
                            arm.ensures((c, walk.arms[tag].ctor, taken), walk.results[tag])
                                && old(self)@.began_arm(owner, walk, tag, c@, taken@) && final(c)@
                                == walk.inners[tag]
                    &&& walk.arms.len() == old(self)@.program.type_(owner).ctors.len
                    &&& final(self)@ == walk.states.last().matching(scrutinee, walk.arms)
                },
    {
        let (arms, Ghost(walk)) = self.arms_of(owner, &arm);
        let ghost last = self@;
        let atom = self.choose_arm(scrutinee, arms.as_slice());
        proof {
            growth_chains(old(self)@.program, last.program, self@.program);
        }
        atom
    }
}

/// What a scope goes through while the arms of a match are built.
#[verifier::ext_equal]
pub struct Walk {
    /// The scope before each arm, and after the last.
    pub states: Seq<Draft>,
    /// Each arm's own scope, where it ends, and what it ends with.
    pub inners: Seq<Draft>,
    pub results: Seq<Atom>,
    pub arms: Seq<Arm>,
}

impl Walk {
    pub open spec fn has(self, tag: int) -> bool {
        0 <= tag < self.arms.len()
    }
}

impl Store {
    /// How many locals the arm for a constructor binds.
    pub open spec fn arm_binds(self, owner: TypeId, tag: nat) -> nat {
        self.ctor(self.ctor_at(owner, tag)).fields.len as nat
    }
}

impl Draft {
    /// Whether `inner` is the scope of the arm that comes next after a walk:
    /// inside the scope as the arms before left it, with the fields of the
    /// next constructor bound.
    pub open spec fn begins_arm(
        self,
        owner: TypeId,
        walk: Walk,
        inner: Draft,
        ctor: CtorId,
        fields: Seq<Atom>,
    ) -> bool {
        let tag = walk.arms.len();
        &&& tag < self.program.type_(owner).ctors.len
        &&& ctor == self.program.ctor_at(owner, tag)
        &&& inner == walk.states.last().inside(self.program.arm_binds(owner, tag))
        &&& fields == self.binders(self.program.arm_binds(owner, tag))
    }

    /// Whether an arm that began as `start` can close here, and leave room
    /// for a match of `count` arms.
    pub open spec fn ends_arm(self, start: Draft, count: nat) -> bool {
        &&& self.ends(start)
        &&& self.program.exprs.len() + self.pending.len() + 1 < u32::MAX
        &&& self.program.arms.len() + count <= u32::MAX
    }

    /// Whether this scope went through a walk, closing the inner scope of
    /// each arm in its turn.
    pub open spec fn walks(self, owner: TypeId, walk: Walk) -> bool {
        &&& walk.inners.len() == walk.arms.len()
        &&& walk.results.len() == walk.arms.len()
        &&& walk.states.len() == walk.arms.len() + 1
        &&& walk.states.first() == self
        &&& forall|tag: int|
            0 <= tag < walk.arms.len() ==> (#[trigger] walk.arms[tag]) == (Arm {
                ctor: self.program.ctor_at(owner, tag as nat),
                body: walk.inners[tag].closed(walk.results[tag]).1,
            }) && walk.states[tag + 1] == walk.states[tag].after(
                walk.inners[tag],
                walk.results[tag],
            )
    }

    /// The same of the first arms of a match on `owner`, one per constructor
    /// in tag order.
    pub open spec fn begins_walk(self, owner: TypeId, walk: Walk) -> bool {
        &&& walk.arms.len() <= self.program.type_(owner).ctors.len
        &&& self.walks(owner, walk)
    }

    /// Whether `inner` and `fields` are what the arm `tag` of a walk began
    /// with.
    pub open spec fn began_arm(
        self,
        owner: TypeId,
        walk: Walk,
        tag: int,
        inner: Draft,
        fields: Seq<Atom>,
    ) -> bool {
        &&& inner == walk.states[tag].inside(self.program.arm_binds(owner, tag as nat))
        &&& fields == self.binders(self.program.arm_binds(owner, tag as nat))
    }
}

} // verus!
