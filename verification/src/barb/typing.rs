//! What it is for a program to keep to its types.

use super::builder::Draft;
use super::ir::{Arm, Atom, CtorId, Expr, ExprId, FnId, Store, TypeId};
use super::{builder, constant, infer};
use vstd::prelude::*;

verus! {

/// Whether atoms stand for values of the types asked for, one for one.
pub open spec fn atoms_fit(atoms: Seq<Atom>, locals: Seq<TypeId>, types: Seq<TypeId>) -> bool {
    &&& atoms.len() == types.len()
    &&& forall|i: int|
        0 <= i < atoms.len() ==> (#[trigger] atoms[i]).0.0 < locals.len()
            && locals[atoms[i].0.0 as int] == types[i]
}

impl Store {
    /// Whether the arms of a match are one for each constructor of a type, in
    /// tag order.
    pub open spec fn exhausts(self, arms: Seq<Arm>, owner: TypeId) -> bool {
        &&& arms.len() == self.type_(owner).ctors.len
        &&& forall|i: int|
            0 <= i < arms.len() ==> (#[trigger] arms[i]).ctor == self.ctor_at(owner, i as nat)
    }

    /// Whether a term is of a type, where locals are of theirs: every
    /// constructor and every function is applied to as much as it takes, of
    /// the types it takes, and every match has an arm for each constructor. One
    /// that is to be `pure` calls nothing that may do observable work.
    pub open spec fn has_type(
        self,
        expr: ExprId,
        locals: Seq<TypeId>,
        id: TypeId,
        pure: bool,
    ) -> bool
        decreases expr.0,
    {
        match self.expr(expr) {
            Expr::Atom(atom) => atom.0.0 < locals.len() && locals[atom.0.0 as int] == id,
            Expr::Con(ctor, args) => self.ctor(ctor).owner == id && self.is_listed(ctor) && atoms_fit(
                args.read(self.atoms),
                locals,
                self.fields(ctor),
            ),
            Expr::Static(held, value) => held == id && exists|tree: constant::Tree| #[trigger]
                constant::encodes(self, id, tree, self.known_bytes(value)),
            Expr::Call(function, args) => {
                &&& self.function(function).result == id
                &&& atoms_fit(args.read(self.atoms), locals, self.params(function))
                &&& pure ==> !self.works(function)
            },
            Expr::Let(value, body) => value.0 < expr.0 && body.0 < expr.0 && exists|held: TypeId|
                self.has_type(value, locals, held, pure) && self.has_type(
                    body,
                    #[trigger] locals.push(held),
                    id,
                    pure,
                ),
            Expr::Match(scrutinee, arms) => {
                let list = arms.read(self.arms);
                let owner = locals[scrutinee.0.0 as int];
                &&& scrutinee.0.0 < locals.len()
                &&& id.0 < self.types.len()
                &&& self.exhausts(list, owner)
                &&& forall|i: int|
                    0 <= i < list.len() ==> (#[trigger] list[i]).body.0 < expr.0 && self.has_type(
                        list[i].body,
                        locals + self.fields(list[i].ctor),
                        id,
                        pure,
                    )
            },
        }
    }

    /// Whether a function may do observable work.
    pub open spec fn works(self, function: FnId) -> bool {
        infer::is_effectful(self.name(self.function(function).name))
    }

    /// Whether a function answers what it says it does, and is pure where its
    /// name says so.
    pub open spec fn is_kept(self, function: FnId) -> bool {
        self.function(function).defined ==> self.has_type(
            self.function(function).body,
            self.params(function),
            self.function(function).result,
            !self.works(function),
        )
    }

    /// Whether every function is what it says it is.
    pub open spec fn typed(self) -> bool {
        forall|f: FnId| f.0 < self.functions.len() ==> #[trigger] self.is_kept(f)
    }

    /// Whether what terms are judged by is all there still: declarations as
    /// they were, and every term.
    pub open spec fn keeps(self, old: Store) -> bool {
        &&& self.types == old.types
        &&& self.ctors == old.ctors
        &&& self.types_pool == old.types_pool
        &&& self.consts == old.consts
        &&& self.bytes == old.bytes
        &&& self.names == old.names
        &&& self.functions.len() == old.functions.len()
        &&& forall|i: int|
            0 <= i < old.functions.len() ==> {
                &&& (#[trigger] self.functions[i]).name == old.functions[i].name
                &&& self.functions[i].params == old.functions[i].params
                &&& self.functions[i].result == old.functions[i].result
            }
        &&& old.exprs.is_prefix_of(self.exprs)
        &&& old.atoms.is_prefix_of(self.atoms)
        &&& old.arms.is_prefix_of(self.arms)
    }
}

/// A term is of the type it was while more is added.
pub proof fn typing_outlives_growth(
    old: Store,
    new: Store,
    expr: ExprId,
    locals: Seq<TypeId>,
    id: TypeId,
    pure: bool,
)
    requires
        old.wf(),
        new.keeps(old),
        expr.0 < old.exprs.len(),
        old.has_type(expr, locals, id, pure),
    ensures
        new.has_type(expr, locals, id, pure),
    decreases expr.0,
{
    assert(old.expr_fits(expr.0 as int, old.exprs[expr.0 as int]));
    assert(new.exprs[expr.0 as int] == old.exprs[expr.0 as int]);
    match old.expr(expr) {
        Expr::Atom(_) => {},
        Expr::Con(ctor, args) => {
            assert(args.read(new.atoms) =~= args.read(old.atoms));
        },
        Expr::Static(held, value) => {
            encoding_is_by_declaration(old, new);
            let tree = choose|tree: constant::Tree| #[trigger]
                constant::encodes(old, id, tree, old.known_bytes(value));
            encodings_agree(old, new, id, tree);
            assert(constant::encodes(new, id, tree, new.known_bytes(value)));
        },
        Expr::Call(function, args) => {
            assert(args.read(new.atoms) =~= args.read(old.atoms));
            assert(new.functions[function.0 as int].params
                == old.functions[function.0 as int].params);
        },
        Expr::Let(value, body) => {
            let held = choose|held: TypeId|
                old.has_type(value, locals, held, pure) && old.has_type(
                    body,
                    #[trigger] locals.push(held),
                    id,
                    pure,
                );
            typing_outlives_growth(old, new, value, locals, held, pure);
            typing_outlives_growth(old, new, body, locals.push(held), id, pure);
        },
        Expr::Match(scrutinee, arms) => {
            let list = arms.read(old.arms);
            assert(arms.read(new.arms) =~= list);
            assert forall|i: int| 0 <= i < list.len() implies (#[trigger] list[i]).body.0 < expr.0
                && new.has_type(list[i].body, locals + new.fields(list[i].ctor), id, pure) by {
                assert(list[i] == old.arms[arms.start + i]);
                assert(old.has_type(list[i].body, locals + old.fields(list[i].ctor), id, pure));
                typing_outlives_growth(
                    old,
                    new,
                    list[i].body,
                    locals + old.fields(list[i].ctor),
                    id,
                    pure,
                );
            }
        },
    }
}

/// Shapes are read off declarations alone.
proof fn encoding_is_by_declaration(old: Store, new: Store)
    requires
        new.keeps(old),
    ensures
        forall|id: TypeId| #[trigger] new.shape(id) == old.shape(id),
{
    assert forall|id: TypeId| #[trigger] new.shape(id) == old.shape(id) by {
        let first = old.ctor_at(id, 0);
        let second = old.ctor_at(id, 1);
        assert(new.fields(first) == old.fields(first));
        assert(new.fields(second) == old.fields(second));
    }
}

proof fn encodings_agree(old: Store, new: Store, id: TypeId, tree: constant::Tree)
    requires
        new.keeps(old),
        forall|id: TypeId| #[trigger] new.shape(id) == old.shape(id),
    ensures
        constant::typed(new, id, tree) == constant::typed(old, id, tree),
        constant::encoding(new, id, tree) == constant::encoding(old, id, tree),
    decreases tree, 1nat,
{
    assert(new.shape(id) == old.shape(id));
    if let constant::Shape::Spine { cons, recursive, .. } = old.shape(id) {
        elements_agree(old, new, tree, cons, recursive as int);
    }
    fields_agree(old, new, old.fields(tree.ctor), tree.fields, tree.fields.len() as int);
}

proof fn elements_agree(
    old: Store,
    new: Store,
    tree: constant::Tree,
    cons: CtorId,
    recursive: int,
)
    requires
        new.keeps(old),
        forall|id: TypeId| #[trigger] new.shape(id) == old.shape(id),
    ensures
        constant::elements(new, tree, cons, recursive) == constant::elements(
            old,
            tree,
            cons,
            recursive,
        ),
    decreases tree, 0nat,
{
    if tree.ctor == cons && 0 <= recursive < tree.fields.len() {
        fields_agree(old, new, old.fields(cons), tree.fields, recursive);
        elements_agree(old, new, tree.fields[recursive], cons, recursive);
    }
}

proof fn fields_agree(
    old: Store,
    new: Store,
    types: Seq<TypeId>,
    fields: Seq<constant::Tree>,
    skip: int,
)
    requires
        new.keeps(old),
        forall|id: TypeId| #[trigger] new.shape(id) == old.shape(id),
    ensures
        constant::all_typed(new, types, fields) == constant::all_typed(old, types, fields),
        constant::fields_encoding(new, types, fields, skip) == constant::fields_encoding(
            old,
            types,
            fields,
            skip,
        ),
    decreases fields, 0nat,
{
    if fields.len() > 0 {
        fields_agree(old, new, types, fields.drop_last(), skip);
        encodings_agree(old, new, types[fields.len() - 1], fields.last());
    }
}

impl Draft {
    /// Whether everything a scope has bound is of the type its local is, the
    /// first of them at `base`.
    pub open spec fn is_typed(self, base: nat, locals: Seq<TypeId>, pure: bool) -> bool {
        &&& locals.len() == self.level
        &&& base + self.pending.len() == self.level
        &&& forall|i: int|
            0 <= i < self.pending.len() ==> self.program.has_type(
                #[trigger] self.pending[i],
                locals.take(base + i),
                locals[base + i],
                pure,
            )
    }
}

/// A scope stays typed while more is added.
pub proof fn a_typed_scope_outlives_growth(
    draft: Draft,
    program: Store,
    base: nat,
    locals: Seq<TypeId>,
    pure: bool,
)
    requires
        draft.wf(),
        draft.is_typed(base, locals, pure),
        program.keeps(draft.program),
    ensures
        (Draft { program, ..draft }).is_typed(base, locals, pure),
{
    assert forall|i: int| 0 <= i < draft.pending.len() implies program.has_type(
        #[trigger] draft.pending[i],
        locals.take(base + i),
        locals[base + i],
        pure,
    ) by {
        assert(draft.pending[i].0 < draft.program.exprs.len());
        typing_outlives_growth(
            draft.program,
            program,
            draft.pending[i],
            locals.take(base + i),
            locals[base + i],
            pure,
        );
    }
}

/// Binding a term of a type binds a local of that type.
pub proof fn an_emission_is_typed(
    draft: Draft,
    expr: Expr,
    base: nat,
    locals: Seq<TypeId>,
    id: TypeId,
    pure: bool,
)
    requires
        draft.wf(),
        draft.is_typed(base, locals, pure),
        draft.program.exprs.len() < u32::MAX,
        draft.emit(expr).program.has_type(draft.program.next(), locals, id, pure),
    ensures
        draft.emit(expr).is_typed(base, locals.push(id), pure),
{
    let after = draft.emit(expr);
    let more = locals.push(id);
    assert(after.program.grows(draft.program));
    a_typed_scope_outlives_growth(draft, after.program, base, locals, pure);
    assert forall|i: int| 0 <= i < after.pending.len() implies after.program.has_type(
        #[trigger] after.pending[i],
        more.take(base + i),
        more[base + i],
        pure,
    ) by {
        if i < draft.pending.len() {
            assert(after.pending[i] == draft.pending[i]);
            assert(more.take(base + i) =~= locals.take(base + i));
        } else {
            assert(more.take(base + i) =~= locals);
        }
    }
}

/// Bindings folded around a body of a type are of that type.
proof fn a_wrapping_is_typed(
    program: Store,
    bound: Seq<ExprId>,
    body: ExprId,
    base: nat,
    locals: Seq<TypeId>,
    id: TypeId,
    pure: bool,
)
    requires
        program.wf(),
        body.0 < program.exprs.len(),
        forall|i: int| 0 <= i < bound.len() ==> (#[trigger] bound[i]).0 < program.exprs.len(),
        program.exprs.len() + bound.len() <= u32::MAX,
        base + bound.len() == locals.len(),
        forall|i: int|
            0 <= i < bound.len() ==> program.has_type(
                #[trigger] bound[i],
                locals.take(base + i),
                locals[base + i],
                pure,
            ),
        program.has_type(body, locals, id, pure),
    ensures
        ({
            let (after, whole) = builder::wrapped(program, bound, body);
            after.has_type(whole, locals.take(base as int), id, pure)
        }),
    decreases bound.len(),
{
    if bound.len() == 0 {
        assert(locals.take(base as int) =~= locals);
    } else {
        let last = bound.len() - 1;
        let next = program.with_expr(Expr::Let(bound.last(), body));
        let fewer = locals.drop_last();
        builder::a_grown_program_fits(program, next);
        assert(next.grows(program));
        assert(next.expr(program.next()) == Expr::Let(bound.last(), body));
        assert(locals.take(base + last) =~= fewer);
        assert(fewer.push(locals[base + last]) =~= locals);
        typing_outlives_growth(program, next, bound.last(), fewer, locals[base + last], pure);
        typing_outlives_growth(program, next, body, locals, id, pure);
        assert(fewer.push(locals[base + last]) == locals);
        assert(next.has_type(program.next(), fewer, id, pure));
        let rest = bound.drop_last();
        assert forall|i: int| 0 <= i < rest.len() implies next.has_type(
            #[trigger] rest[i],
            fewer.take(base + i),
            fewer[base + i],
            pure,
        ) by {
            assert(rest[i] == bound[i]);
            assert(program.has_type(bound[i], locals.take(base + i), locals[base + i], pure));
            assert(fewer.take(base + i) =~= locals.take(base + i));
            typing_outlives_growth(
                program,
                next,
                bound[i],
                locals.take(base + i),
                locals[base + i],
                pure,
            );
        }
        a_wrapping_is_typed(next, rest, program.next(), base, fewer, id, pure);
        assert(fewer.take(base as int) =~= locals.take(base as int));
    }
}

/// A scope closes to a term of its result's type.
pub proof fn a_closed_scope_is_typed(
    draft: Draft,
    result: Atom,
    base: nat,
    locals: Seq<TypeId>,
    pure: bool,
)
    requires
        draft.ends(draft),
        draft.is_typed(base, locals, pure),
        result.0.0 < locals.len(),
    ensures
        draft.closed(result).0.has_type(
            draft.closed(result).1,
            locals.take(base as int),
            locals[result.0.0 as int],
            pure,
        ),
{
    let program = draft.program;
    let pending = draft.pending;
    let id = locals[result.0.0 as int];
    if draft.answers_last(result) {
        let rest = pending.drop_last();
        let fewer = locals.drop_last();
        let last = pending.len() - 1;
        assert(program.has_type(pending[last], locals.take(base + last), locals[base + last], pure));
        assert(locals.take(base + last) =~= fewer);
        assert forall|i: int| 0 <= i < rest.len() implies program.has_type(
            #[trigger] rest[i],
            fewer.take(base + i),
            fewer[base + i],
            pure,
        ) by {
            assert(rest[i] == pending[i]);
            assert(program.has_type(pending[i], locals.take(base + i), locals[base + i], pure));
            assert(fewer.take(base + i) =~= locals.take(base + i));
        }
        a_wrapping_is_typed(program, rest, pending.last(), base, fewer, id, pure);
        assert(fewer.take(base as int) =~= locals.take(base as int));
    } else {
        let next = program.with_expr(Expr::Atom(result));
        builder::a_grown_program_fits(program, next);
        assert(next.expr(program.next()) == Expr::Atom(result));
        assert(next.has_type(program.next(), locals, id, pure));
        assert(next.grows(program));
        a_typed_scope_outlives_growth(draft, next, base, locals, pure);
        a_wrapping_is_typed(next, pending, program.next(), base, locals, id, pure);
    }
}

impl Store {
    /// Whether nothing is taken apart in a term.
    pub open spec fn is_straight(self, expr: ExprId) -> bool
        decreases expr.0,
    {
        match self.expr(expr) {
            Expr::Let(value, body) => {
                &&& value.0 < expr.0
                &&& body.0 < expr.0
                &&& self.is_straight(value)
                &&& self.is_straight(body)
            },
            Expr::Match(_, _) => false,
            _ => true,
        }
    }

    /// Whether something is taken apart in a term once at most, and first.
    pub open spec fn is_flat(self, expr: ExprId) -> bool {
        match self.expr(expr) {
            Expr::Match(_, arms) => {
                let list = arms.read(self.arms);
                forall|i: int|
                    0 <= i < list.len() ==> (#[trigger] list[i]).body.0 < expr.0
                        && self.is_straight(list[i].body)
            },
            _ => self.is_straight(expr),
        }
    }

    /// Whether a function takes one thing apart at most, and first.
    pub open spec fn is_plain(self, function: FnId) -> bool {
        self.function(function).defined ==> self.is_flat(self.function(function).body)
    }

    /// Whether every function does.
    pub open spec fn flat(self) -> bool {
        forall|f: FnId| f.0 < self.functions.len() ==> #[trigger] self.is_plain(f)
    }
}

/// A term stays straight while more is added.
pub proof fn straightness_outlives_growth(old: Store, new: Store, expr: ExprId)
    requires
        old.wf(),
        new.keeps(old),
        expr.0 < old.exprs.len(),
        old.is_straight(expr),
    ensures
        new.is_straight(expr),
    decreases expr.0,
{
    assert(new.exprs[expr.0 as int] == old.exprs[expr.0 as int]);
    if let Expr::Let(value, body) = old.expr(expr) {
        straightness_outlives_growth(old, new, value);
        straightness_outlives_growth(old, new, body);
    }
}

/// So does one that is flat.
pub proof fn flatness_outlives_growth(old: Store, new: Store, expr: ExprId)
    requires
        old.wf(),
        new.keeps(old),
        expr.0 < old.exprs.len(),
        old.is_flat(expr),
    ensures
        new.is_flat(expr),
{
    assert(old.expr_fits(expr.0 as int, old.exprs[expr.0 as int]));
    assert(new.exprs[expr.0 as int] == old.exprs[expr.0 as int]);
    match old.expr(expr) {
        Expr::Match(_, arms) => {
            let list = arms.read(old.arms);
            assert(arms.read(new.arms) =~= list);
            assert forall|i: int| 0 <= i < list.len() implies (#[trigger] list[i]).body.0 < expr.0
                && new.is_straight(list[i].body) by {
                straightness_outlives_growth(old, new, list[i].body);
            }
        },
        _ => {
            straightness_outlives_growth(old, new, expr);
        },
    }
}

impl Draft {
    /// Whether everything a scope has bound is straight.
    pub open spec fn is_straight(self) -> bool {
        forall|i: int|
            0 <= i < self.pending.len() ==> self.program.is_straight(#[trigger] self.pending[i])
    }
}

/// A scope stays straight while more is added.
pub proof fn a_straight_scope_outlives_growth(draft: Draft, program: Store)
    requires
        draft.wf(),
        draft.is_straight(),
        program.keeps(draft.program),
    ensures
        (Draft { program, ..draft }).is_straight(),
{
    assert forall|i: int| 0 <= i < draft.pending.len() implies program.is_straight(
        #[trigger] draft.pending[i],
    ) by {
        straightness_outlives_growth(draft.program, program, draft.pending[i]);
    }
}

/// Binding a straight term keeps a scope straight.
pub proof fn an_emission_is_straight(draft: Draft, expr: Expr)
    requires
        draft.wf(),
        draft.is_straight(),
        draft.program.exprs.len() < u32::MAX,
        draft.emit(expr).program.is_straight(draft.program.next()),
    ensures
        draft.emit(expr).is_straight(),
{
    let after = draft.emit(expr);
    assert(after.program.grows(draft.program));
    a_straight_scope_outlives_growth(draft, after.program);
    let moved = Draft { program: after.program, ..draft };
    assert forall|i: int| 0 <= i < after.pending.len() implies after.program.is_straight(
        #[trigger] after.pending[i],
    ) by {
        if i < draft.pending.len() {
            assert(after.pending[i] == moved.pending[i]);
        }
    }
}

proof fn a_wrapping_is_straight(program: Store, bound: Seq<ExprId>, body: ExprId)
    requires
        program.wf(),
        body.0 < program.exprs.len(),
        program.exprs.len() + bound.len() <= u32::MAX,
        forall|i: int|
            0 <= i < bound.len() ==> (#[trigger] bound[i]).0 < program.exprs.len()
                && program.is_straight(bound[i]),
        program.is_straight(body),
    ensures
        ({
            let (after, whole) = builder::wrapped(program, bound, body);
            after.is_straight(whole)
        }),
    decreases bound.len(),
{
    if bound.len() > 0 {
        let next = program.with_expr(Expr::Let(bound.last(), body));
        builder::a_grown_program_fits(program, next);
        assert(next.grows(program));
        assert(next.expr(program.next()) == Expr::Let(bound.last(), body));
        straightness_outlives_growth(program, next, bound.last());
        straightness_outlives_growth(program, next, body);
        let rest = bound.drop_last();
        assert forall|i: int| 0 <= i < rest.len() implies (#[trigger] rest[i]).0
            < next.exprs.len() && next.is_straight(rest[i]) by {
            assert(rest[i] == bound[i]);
            straightness_outlives_growth(program, next, bound[i]);
        }
        a_wrapping_is_straight(next, rest, program.next());
    }
}

/// A straight scope closes to a straight term.
pub proof fn a_closed_scope_is_straight(draft: Draft, result: Atom)
    requires
        draft.ends(draft),
        draft.is_straight(),
    ensures
        draft.closed(result).0.is_straight(draft.closed(result).1),
{
    let program = draft.program;
    let pending = draft.pending;
    if draft.answers_last(result) {
        let rest = pending.drop_last();
        assert forall|i: int| 0 <= i < rest.len() implies (#[trigger] rest[i]).0
            < program.exprs.len() && program.is_straight(rest[i]) by {
            assert(rest[i] == pending[i]);
        }
        assert(program.is_straight(pending[pending.len() - 1]));
        a_wrapping_is_straight(program, rest, pending.last());
    } else {
        let next = program.with_expr(Expr::Atom(result));
        builder::a_grown_program_fits(program, next);
        assert(next.expr(program.next()) == Expr::Atom(result));
        assert(next.grows(program));
        a_straight_scope_outlives_growth(draft, next);
        let moved = Draft { program: next, ..draft };
        assert forall|i: int| 0 <= i < pending.len() implies (#[trigger] pending[i]).0
            < next.exprs.len() && next.is_straight(pending[i]) by {
            assert(moved.pending[i] == pending[i]);
        }
        a_wrapping_is_straight(next, pending, program.next());
    }
}

} // verus!
