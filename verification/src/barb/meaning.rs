//! What a program stands for.
//!
//! A term stands for a value, or for something that is asked of what lies
//! outside the program: a name that is declared and not defined is something
//! else's to answer for, and nothing is said here of what comes after it.

use super::constant::Tree;
use super::ir::{Arm, Atom, CtorId, Expr, ExprId, FnId, Store, TypeId};
use super::{constant, facts};
use vstd::prelude::*;

verus! {

/// What running a term comes to.
#[verifier::ext_equal]
pub enum Outcome {
    Answers(Tree),
    /// What is declared and not defined is called with these.
    Asks(FnId, Seq<Tree>),
}

/// The values that atoms stand for, where each is bound.
pub open spec fn bound(atoms: Seq<Atom>, locals: Seq<Tree>) -> Option<Seq<Tree>> {
    if forall|i: int| 0 <= i < atoms.len() ==> (#[trigger] atoms[i]).0.0 < locals.len() {
        Some(Seq::new(atoms.len(), |i: int| locals[atoms[i].0.0 as int]))
    } else {
        None
    }
}

impl Store {
    /// What a term comes to where `locals` are bound, if `fuel` steps are
    /// enough to tell.
    pub open spec fn meaning(self, expr: ExprId, locals: Seq<Tree>, fuel: nat) -> Option<Outcome>
        decreases fuel,
    {
        if fuel == 0 {
            None
        } else {
            let less = (fuel - 1) as nat;
            match self.expr(expr) {
                Expr::Atom(atom) => if atom.0.0 < locals.len() {
                    Some(Outcome::Answers(locals[atom.0.0 as int]))
                } else {
                    None
                },
                Expr::Con(ctor, args) => match bound(args.read(self.atoms), locals) {
                    Some(fields) => Some(Outcome::Answers(Tree { ctor, fields })),
                    None => None,
                },
                Expr::Static(id, value) => Some(Outcome::Answers(self.held(id, value))),
                Expr::Call(function, args) => match bound(args.read(self.atoms), locals) {
                    Some(args) => if self.function(function).defined {
                        self.meaning(self.function(function).body, args, less)
                    } else {
                        Some(Outcome::Asks(function, args))
                    },
                    None => None,
                },
                Expr::Let(value, body) => match self.meaning(value, locals, less) {
                    Some(Outcome::Answers(held)) => self.meaning(body, locals.push(held), less),
                    other => other,
                },
                Expr::Match(scrutinee, arms) => {
                    let arms = arms.read(self.arms);
                    let held = locals[scrutinee.0.0 as int];
                    let at = facts::arm_for(arms, held.ctor, 0);
                    if scrutinee.0.0 < locals.len() && at < arms.len() {
                        self.meaning(arms[at].body, locals + held.fields, less)
                    } else {
                        None
                    }
                },
            }
        }
    }

    /// The value that is held encoded.
    pub open spec fn held(self, id: TypeId, value: super::ConstId) -> Tree {
        choose|tree: Tree| constant::encodes(self, id, tree, self.known_bytes(value))
    }
}

/// What a term comes to does not change with more steps to tell it in.
pub proof fn more_steps_tell_the_same(
    store: Store,
    expr: ExprId,
    locals: Seq<Tree>,
    fuel: nat,
    more: nat,
)
    requires
        fuel <= more,
        store.meaning(expr, locals, fuel) is Some,
    ensures
        store.meaning(expr, locals, more) == store.meaning(expr, locals, fuel),
    decreases fuel,
{
    let less = (fuel - 1) as nat;
    let rest = (more - 1) as nat;
    match store.expr(expr) {
        Expr::Call(function, args) => {
            if let Some(args) = bound(args.read(store.atoms), locals) {
                if store.function(function).defined {
                    more_steps_tell_the_same(
                        store,
                        store.function(function).body,
                        args,
                        less,
                        rest,
                    );
                }
            }
        },
        Expr::Let(value, body) => {
            more_steps_tell_the_same(store, value, locals, less, rest);
            if let Some(Outcome::Answers(held)) = store.meaning(value, locals, less) {
                more_steps_tell_the_same(store, body, locals.push(held), less, rest);
            }
        },
        Expr::Match(scrutinee, arms) => {
            let arms = arms.read(store.arms);
            let held = locals[scrutinee.0.0 as int];
            let at = facts::arm_for(arms, held.ctor, 0);
            more_steps_tell_the_same(store, arms[at].body, locals + held.fields, less, rest);
        },
        _ => {},
    }
}

/// A term comes to one thing.
pub proof fn a_term_means_one_thing(
    store: Store,
    expr: ExprId,
    locals: Seq<Tree>,
    left: nat,
    right: nat,
)
    requires
        store.meaning(expr, locals, left) is Some,
        store.meaning(expr, locals, right) is Some,
    ensures
        store.meaning(expr, locals, left) == store.meaning(expr, locals, right),
{
    if left <= right {
        more_steps_tell_the_same(store, expr, locals, left, right);
    } else {
        more_steps_tell_the_same(store, expr, locals, right, left);
    }
}

/// Whether values are of types, one for one.
pub open spec fn are_of(store: Store, trees: Seq<Tree>, types: Seq<TypeId>) -> bool {
    &&& trees.len() == types.len()
    &&& forall|i: int|
        0 <= i < trees.len() ==> constant::typed(store, types[i], #[trigger] trees[i])
}

/// Whether what a term comes to is of the type it is said to be of.
pub open spec fn keeps_its_type(store: Store, outcome: Outcome, id: TypeId, pure: bool) -> bool {
    match outcome {
        Outcome::Answers(tree) => constant::typed(store, id, tree),
        Outcome::Asks(function, args) => {
            &&& function.0 < store.functions.len()
            &&& !store.function(function).defined
            &&& are_of(store, args, store.params(function))
            &&& pure ==> !store.works(function)
        },
    }
}

/// What fits atoms is of the types they are to be of.
pub proof fn bound_values_are_of(
    store: Store,
    atoms: Seq<Atom>,
    locals: Seq<Tree>,
    types: Seq<TypeId>,
    wanted: Seq<TypeId>,
)
    requires
        are_of(store, locals, types),
        super::typing::atoms_fit(atoms, types, wanted),
    ensures
        bound(atoms, locals) matches Some(values) && are_of(store, values, wanted),
{
    let values = bound(atoms, locals)->Some_0;
    assert forall|i: int| 0 <= i < values.len() implies constant::typed(
        store,
        wanted[i],
        #[trigger] values[i],
    ) by {
        assert(atoms[i].0.0 < types.len());
        assert(constant::typed(store, types[atoms[i].0.0 as int], locals[atoms[i].0.0 as int]));
    }
}

proof fn all_of_them_are_typed(store: Store, types: Seq<TypeId>, trees: Seq<Tree>)
    requires
        forall|i: int|
            0 <= i < trees.len() ==> constant::typed(store, types[i], #[trigger] trees[i]),
    ensures
        constant::all_typed(store, types, trees),
    decreases trees.len(),
{
    if trees.len() > 0 {
        let rest = trees.drop_last();
        assert forall|i: int| 0 <= i < rest.len() implies constant::typed(
            store,
            types[i],
            #[trigger] rest[i],
        ) by {
            assert(rest[i] == trees[i]);
        }
        all_of_them_are_typed(store, types, rest);
        assert(constant::typed(store, types[trees.len() - 1], trees[trees.len() - 1]));
    }
}

proof fn an_arm_is_found(arms: Seq<Arm>, ctor: CtorId, from: int)
    requires
        0 <= from,
    ensures
        ({
            let at = facts::arm_for(arms, ctor, from);
            &&& from <= at
            &&& at < arms.len() ==> arms[at].ctor == ctor
            &&& forall|i: int| from <= i < at && i < arms.len() ==> (#[trigger] arms[i]).ctor
                != ctor
        }),
    decreases arms.len() - from,
{
    if from < arms.len() && arms[from].ctor != ctor {
        an_arm_is_found(arms, ctor, from + 1);
    }
}

/// Where a match has an arm for each constructor, one of them is for what it
/// is matched on, and takes its fields.
pub proof fn a_match_finds_its_arm(
    store: Store,
    arms: Seq<Arm>,
    owner: TypeId,
    tree: Tree,
)
    requires
        store.wf(),
        owner.0 < store.types.len(),
        store.exhausts(arms, owner),
        constant::typed(store, owner, tree),
    ensures
        ({
            let at = facts::arm_for(arms, tree.ctor, 0);
            &&& 0 <= at < arms.len()
            &&& arms[at].ctor == tree.ctor
            &&& are_of(store, tree.fields, store.fields(tree.ctor))
        }),
{
    an_arm_is_found(arms, tree.ctor, 0);
    assert(store.type_fits(owner.0 as int));
    let tag = tree.ctor.0 - store.type_(owner).ctors.start;
    assert(arms[tag].ctor == store.ctor_at(owner, tag as nat));
    let types = store.fields(tree.ctor);
    assert forall|i: int| 0 <= i < tree.fields.len() implies constant::typed(
        store,
        types[i],
        #[trigger] tree.fields[i],
    ) by {
        constant::fields_are_typed(store, types, tree.fields, i);
    }
}

/// A typed program keeps to its types as it runs: a term comes to a value of
/// its own type, what is asked for is asked for with what it takes, and one
/// that is to be pure asks for nothing that may do observable work.
pub proof fn running_keeps_types(
    store: Store,
    expr: ExprId,
    types: Seq<TypeId>,
    id: TypeId,
    pure: bool,
    locals: Seq<Tree>,
    fuel: nat,
)
    requires
        store.wf(),
        store.typed(),
        expr.0 < store.exprs.len(),
        store.has_type(expr, types, id, pure),
        are_of(store, locals, types),
        forall|i: int| 0 <= i < types.len() ==> (#[trigger] types[i]).0 < store.types.len(),
    ensures
        store.meaning(expr, locals, fuel) matches Some(outcome) ==> keeps_its_type(
            store,
            outcome,
            id,
            pure,
        ),
    decreases fuel,
{
    if fuel > 0 {
        let less = (fuel - 1) as nat;
        assert(store.expr_fits(expr.0 as int, store.exprs[expr.0 as int]));
        match store.expr(expr) {
            Expr::Atom(atom) => {
                assert(constant::typed(
                    store,
                    types[atom.0.0 as int],
                    locals[atom.0.0 as int],
                ));
            },
            Expr::Con(ctor, args) => {
                let atoms = args.read(store.atoms);
                bound_values_are_of(store, atoms, locals, types, store.fields(ctor));
                let fields = bound(atoms, locals)->Some_0;
                all_of_them_are_typed(store, store.fields(ctor), fields);
                assert(store.ctor_fits(ctor.0 as int));
            },
            Expr::Static(_, value) => {
                assert(exists|tree: Tree| #[trigger]
                    constant::encodes(store, id, tree, store.known_bytes(value)));
                assert(constant::encodes(
                    store,
                    id,
                    store.held(id, value),
                    store.known_bytes(value),
                ));
            },
            Expr::Call(function, args) => {
                let atoms = args.read(store.atoms);
                let wanted = store.params(function);
                bound_values_are_of(store, atoms, locals, types, wanted);
                let values = bound(atoms, locals)->Some_0;
                assert(store.is_kept(function));
                assert(store.function_fits(function.0 as int));
                assert forall|i: int| 0 <= i < wanted.len() implies (#[trigger] wanted[i]).0
                    < store.types.len() by {
                    assert(wanted[i] == store.types_pool[store.function(function).params.start
                        + i]);
                }
                if store.function(function).defined {
                    running_keeps_types(
                        store,
                        store.function(function).body,
                        wanted,
                        id,
                        !store.works(function),
                        values,
                        less,
                    );
                }
            },
            Expr::Let(value, body) => {
                let of = choose|of: TypeId|
                    store.has_type(value, types, of, pure) && store.has_type(
                        body,
                        #[trigger] types.push(of),
                        id,
                        pure,
                    );
                running_keeps_types(store, value, types, of, pure, locals, less);
                if let Some(Outcome::Answers(held)) = store.meaning(value, locals, less) {
                    let more = locals.push(held);
                    let all = types.push(of);
                    a_type_there_is(store, value, types, of, pure);
                    assert(are_of(store, more, all)) by {
                        assert forall|i: int| 0 <= i < more.len() implies constant::typed(
                            store,
                            all[i],
                            #[trigger] more[i],
                        ) by {
                            if i < locals.len() {
                                assert(more[i] == locals[i]);
                            }
                        }
                    }
                    running_keeps_types(store, body, all, id, pure, more, less);
                }
            },
            Expr::Match(scrutinee, arms) => {
                let list = arms.read(store.arms);
                let at = scrutinee.0.0 as int;
                let owner = types[at];
                let held = locals[at];
                a_match_finds_its_arm(store, list, owner, held);
                let found = facts::arm_for(list, held.ctor, 0);
                let ctor = held.ctor;
                let all = types + store.fields(ctor);
                let more = locals + held.fields;
                assert(list[found] == store.arms[arms.start + found]);
                assert(store.ctor_fits(ctor.0 as int));
                assert(are_of(store, more, all)) by {
                    assert forall|i: int| 0 <= i < more.len() implies constant::typed(
                        store,
                        all[i],
                        #[trigger] more[i],
                    ) by {
                        if i < locals.len() {
                            assert(more[i] == locals[i]);
                        } else {
                            assert(more[i] == held.fields[i - locals.len()]);
                        }
                    }
                }
                assert forall|i: int| 0 <= i < all.len() implies (#[trigger] all[i]).0
                    < store.types.len() by {
                    if i >= types.len() {
                        let j = i - types.len();
                        assert(all[i] == store.types_pool[store.ctor(ctor).fields.start + j]);
                    }
                }
                running_keeps_types(store, list[found].body, all, id, pure, more, less);
            },
        }
    }
}

/// What a term is of is a type there is.
pub proof fn a_type_there_is(
    store: Store,
    expr: ExprId,
    types: Seq<TypeId>,
    id: TypeId,
    pure: bool,
)
    requires
        store.wf(),
        expr.0 < store.exprs.len(),
        store.has_type(expr, types, id, pure),
        forall|i: int| 0 <= i < types.len() ==> (#[trigger] types[i]).0 < store.types.len(),
    ensures
        id.0 < store.types.len(),
    decreases expr.0,
{
    assert(store.expr_fits(expr.0 as int, store.exprs[expr.0 as int]));
    match store.expr(expr) {
        Expr::Con(ctor, _) => {
            assert(store.ctor_fits(ctor.0 as int));
        },
        Expr::Call(function, _) => {
            assert(store.function_fits(function.0 as int));
        },
        Expr::Let(value, body) => {
            let of = choose|of: TypeId|
                store.has_type(value, types, of, pure) && store.has_type(
                    body,
                    #[trigger] types.push(of),
                    id,
                    pure,
                );
            a_type_there_is(store, value, types, of, pure);
            a_type_there_is(store, body, types.push(of), id, pure);
        },
        _ => {},
    }
}

} // verus!
