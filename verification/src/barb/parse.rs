//! A small surface for writing barb programs as text.
//!
//! Nothing is blessed: there are inductive types and there are rewrites, and
//! a number is whatever a program builds out of its own constructors. Types
//! are inferred, since every one of them is a name a declaration already
//! gave, so there is nothing to infer but which.
//!
//! A function matches on at most one argument, with patterns one constructor
//! deep. Anything further is refused by name rather than read wrongly.
//!
//! ```text
//! type Nat Zero Succ(Nat)
//!
//! add(Zero b) -> b
//! add(Succ(a) b) -> Succ(add(a b))
//!
//! main!(h) -> exit!(h add(Succ(Succ(Zero)) Succ(Succ(Zero))))
//! ```
//!
//! A name that ends in `!` may do observable work, and one that does not may
//! not call one that does. The one effect there is is `exit!`, which leaves
//! with a status; it takes the host a program was handed as well, since that
//! is the authority to leave.

use super::builder::{Builder, Declared, Draft};
use super::infer::{
    lay_out, slots_fit, spread, Scheme, SchemeForm, Slots, Unify, World, WorldForm,
};
use super::ir::{Arm, Atom, CtorId, FnId, Store, TypeId};
use super::syntax::{
    Clause, ClauseForm, CtorForm, Declaration, Definition, FunctionForm, Pattern,
    PatternForm, Source, SourceForm, StepForm, Term, TermForm, TypeForm,
};
use super::{agreement, builder, infer, syntax, telling, Program};
use crate::pool::outgrown;
use crate::{pool, text};
use vstd::prelude::*;
use vstd::string::StringExecFns;

verus! {

/// How long a name is.
pub open spec fn length(name: Seq<char>) -> nat {
    vstd::utf8::encode_utf8(name).len()
}

/// The first `count` types, reserved.
pub open spec fn types_declared(store: Store, types: Seq<TypeForm>, count: nat) -> Result<
    Store,
    Seq<char>,
>
    decreases count,
{
    if count == 0 {
        Ok(store)
    } else {
        match types_declared(store, types, (count - 1) as nat) {
            Ok(store) => if store.room(length(types[count - 1].name) + 1) {
                Ok(store.with_type(types[count - 1].name))
            } else {
                Err(pool::too_large())
            },
            Err(said) => Err(said),
        }
    }
}

/// The last of the first `count` types that has a name.
pub open spec fn type_named(types: Seq<TypeForm>, name: Seq<char>, count: nat) -> Option<TypeId>
    decreases count,
{
    if count == 0 {
        None
    } else if types[count - 1].name == name {
        Some(TypeId((count - 1) as u32))
    } else {
        type_named(types, name, (count - 1) as nat)
    }
}

/// A name that is declared names a type.
proof fn a_declared_type_is_named(types: Seq<TypeForm>, at: int, count: nat)
    requires
        0 <= at < count <= types.len(),
    ensures
        type_named(types, types[at].name, count) is Some,
    decreases count,
{
    if at + 1 < count {
        a_declared_type_is_named(types, at, (count - 1) as nat);
    }
}

/// The types that the first `count` fields name.
pub open spec fn fields_found(types: Seq<TypeForm>, fields: Seq<Seq<char>>, count: nat) -> Result<
    Seq<TypeId>,
    Seq<char>,
>
    decreases count,
{
    if count == 0 {
        Ok(seq![])
    } else {
        match fields_found(types, fields, (count - 1) as nat) {
            Ok(found) => match type_named(types, fields[count - 1], types.len()) {
                Some(id) => Ok(found.push(id)),
                None => Err("no type named `"@ + fields[count - 1] + "`"@),
            },
            Err(said) => Err(said),
        }
    }
}

/// One constructor of a type.
pub open spec fn ctor_declared(
    store: Store,
    types: Seq<TypeForm>,
    id: TypeId,
    ctor: CtorForm,
) -> Result<Store, Seq<char>> {
    match fields_found(types, ctor.fields, ctor.fields.len()) {
        Ok(fields) => if store.room(length(ctor.name) + fields.len() + 1) {
            Ok(store.with_ctor(id, Declared { name: ctor.name, fields }))
        } else {
            Err(pool::too_large())
        },
        Err(said) => Err(said),
    }
}

/// The first `count` constructors of a type, in tag order.
pub open spec fn ctors_declared(
    store: Store,
    types: Seq<TypeForm>,
    id: TypeId,
    ctors: Seq<CtorForm>,
    count: nat,
) -> Result<Store, Seq<char>>
    decreases count,
{
    if count == 0 {
        Ok(store.with_ctors_next(id))
    } else {
        match ctors_declared(store, types, id, ctors, (count - 1) as nat) {
            Ok(store) => ctor_declared(store, types, id, ctors[count - 1]),
            Err(said) => Err(said),
        }
    }
}

/// The constructors that the first `count` declarations give, so that a field
/// may name a type declared later. A name that is declared again is the later
/// type's: what was given before is nobody's, and the earlier type has none.
pub open spec fn types_defined(store: Store, types: Seq<TypeForm>, count: nat) -> Result<
    Store,
    Seq<char>,
>
    decreases count,
{
    if count == 0 {
        Ok(store)
    } else {
        match types_defined(store, types, (count - 1) as nat) {
            Ok(store) => ctors_declared(
                store,
                types,
                type_named(types, types[count - 1].name, types.len())->Some_0,
                types[count - 1].ctors,
                types[count - 1].ctors.len(),
            ),
            Err(said) => Err(said),
        }
    }
}

/// Every type a program declares, then the constructors of each.
pub open spec fn declared(types: Seq<TypeForm>) -> Result<Store, Seq<char>> {
    match types_declared(Store::nothing(), types, types.len()) {
        Ok(store) => types_defined(store, types, types.len()),
        Err(said) => Err(said),
    }
}

/// With a type of one value that carries nothing. No program can name it.
pub open spec fn with_token(store: Store, name: Seq<char>) -> Result<Store, Seq<char>> {
    let id = TypeId(store.types.len() as u32);
    let reserved = store.with_type(name).with_ctors_next(id);
    if !store.room(length(name) + 1) || !reserved.room(length(name) + 1) {
        Err(pool::too_large())
    } else {
        Ok(reserved.with_ctor(id, Declared { name, fields: seq![] }))
    }
}

proof fn types_stop_where_one_does(store: Store, types: Seq<TypeForm>, count: nat, all: nat)
    requires
        count <= all,
    ensures
        types_declared(store, types, count) matches Err(said) ==> types_declared(
            store,
            types,
            all,
        ) == Err::<Store, _>(said),
        types_defined(store, types, count) matches Err(said) ==> types_defined(store, types, all)
            == Err::<Store, _>(said),
    decreases all,
{
    if count < all {
        types_stop_where_one_does(store, types, count, (all - 1) as nat);
    }
}

proof fn fields_stop_where_one_does(
    types: Seq<TypeForm>,
    fields: Seq<Seq<char>>,
    count: nat,
    all: nat,
)
    requires
        count <= all,
    ensures
        fields_found(types, fields, count) matches Err(said) ==> fields_found(types, fields, all)
            == Err::<Seq<TypeId>, _>(said),
    decreases all,
{
    if count < all {
        fields_stop_where_one_does(types, fields, count, (all - 1) as nat);
    }
}

proof fn ctors_stop_where_one_does(
    store: Store,
    types: Seq<TypeForm>,
    id: TypeId,
    ctors: Seq<CtorForm>,
    count: nat,
    all: nat,
)
    requires
        count <= all,
    ensures
        ctors_declared(store, types, id, ctors, count) matches Err(said) ==> ctors_declared(
            store,
            types,
            id,
            ctors,
            all,
        ) == Err::<Store, _>(said),
    decreases all,
{
    if count < all {
        ctors_stop_where_one_does(store, types, id, ctors, count, (all - 1) as nat);
    }
}

/// The last type that has a name.
fn find_type(types: &Vec<Declaration>, name: &str) -> (found: Option<TypeId>)
    requires
        types@.len() <= u32::MAX,
    ensures
        found == type_named(syntax::type_forms(types@), name@, types@.len()),
        found matches Some(id) ==> id.0 < types@.len(),
{
    let ghost forms = syntax::type_forms(types@);
    let mut count: usize = types.len();
    while count > 0
        invariant
            forms == syntax::type_forms(types@),
            count <= types@.len() <= u32::MAX,
            type_named(forms, name@, count as nat) == type_named(forms, name@, types@.len()),
        decreases count,
    {
        assert(forms[count - 1].name == types@[count - 1].name@);
        if text::same(types[count - 1].name.as_str(), name) {
            return Some(TypeId((count - 1) as u32));
        }
        count = count - 1;
    }
    None
}

/// The types that a constructor's fields name.
fn find_fields(types: &Vec<Declaration>, fields: &Vec<String>) -> (found: Result<
    Vec<TypeId>,
    String,
>)
    requires
        types@.len() <= u32::MAX,
    ensures
        match found {
            Ok(ids) => fields_found(
                syntax::type_forms(types@),
                syntax::texts(fields@),
                fields@.len(),
            ) == Ok::<_, Seq<char>>(ids@) && forall|i: int|
                0 <= i < ids@.len() ==> (#[trigger] ids@[i]).0 < types@.len(),
            Err(said) => fields_found(
                syntax::type_forms(types@),
                syntax::texts(fields@),
                fields@.len(),
            ) == Err::<Seq<TypeId>, _>(said@),
        },
{
    let ghost forms = syntax::type_forms(types@);
    let ghost names = syntax::texts(fields@);
    let mut ids: Vec<TypeId> = Vec::new();
    let mut at: usize = 0;
    assert(ids@ =~= seq![]);
    while at < fields.len()
        invariant
            forms == syntax::type_forms(types@),
            names == syntax::texts(fields@),
            types@.len() <= u32::MAX,
            at <= fields@.len(),
            fields_found(forms, names, at as nat) == Ok::<_, Seq<char>>(ids@),
            forall|i: int| 0 <= i < ids@.len() ==> (#[trigger] ids@[i]).0 < types@.len(),
        decreases fields@.len() - at,
    {
        proof {
            assert(names[at as int] == fields@[at as int]@);
            fields_stop_where_one_does(forms, names, at as nat + 1, names.len());
        }
        match find_type(types, fields[at].as_str()) {
            Some(id) => ids.push(id),
            None => {
                return Err(text::around("no type named `", fields[at].as_str(), "`"));
            },
        }
        at = at + 1;
    }
    Ok(ids)
}

/// The constructors that one declaration gives a type.
fn declare_ctors(
    program: &mut Program,
    types: &Vec<Declaration>,
    at: usize,
    id: TypeId,
) -> (done: Result<(), String>)
    requires
        old(program)@.wf(),
        at < types@.len(),
        old(program)@.types.len() == types@.len(),
        id.0 < types@.len(),
    ensures
        final(program)@.wf(),
        final(program)@.types.len() == types@.len(),
        final(program)@.functions == old(program)@.functions,
        match done {
            Ok(_) => ctors_declared(
                old(program)@,
                syntax::type_forms(types@),
                id,
                syntax::type_forms(types@)[at as int].ctors,
                syntax::type_forms(types@)[at as int].ctors.len(),
            ) == Ok::<_, Seq<char>>(final(program)@),
            Err(said) => ctors_declared(
                old(program)@,
                syntax::type_forms(types@),
                id,
                syntax::type_forms(types@)[at as int].ctors,
                syntax::type_forms(types@)[at as int].ctors.len(),
            ) == Err::<Store, _>(said@),
        },
{
    let ghost start = program@;
    let ghost forms = syntax::type_forms(types@);
    let ctors = &types[at].ctors;
    let ghost held = forms[at as int].ctors;
    assert(held =~= syntax::ctor_forms(ctors@));
    program.begin_ctors(id);
    let mut next: usize = 0;
    while next < ctors.len()
        invariant
            program@.wf(),
            start == old(program)@,
            forms == syntax::type_forms(types@),
            at < types@.len(),
            types@.len() == program@.types.len() == start.types.len(),
            held == forms[at as int].ctors,
            held == syntax::ctor_forms(ctors@),
            id.0 < types@.len(),
            builder::is_open(program@, id),
            program@.functions == start.functions,
            next <= ctors@.len(),
            ctors_declared(start, forms, id, held, next as nat) == Ok::<_, Seq<char>>(
                program@,
            ),
        decreases ctors@.len() - next,
    {
        let ctor = &ctors[next];
        proof {
            assert(held[next as int] == ctor@);
            ctors_stop_where_one_does(
                start,
                forms,
                id,
                held,
                next as nat + 1,
                held.len(),
            );
        }
        let fields = match find_fields(types, &ctor.fields) {
            Ok(fields) => fields,
            Err(said) => {
                return Err(said);
            },
        };
        let name = ctor.name.as_str();
        if !fits(program, name, fields.len()) {
            return Err(outgrown());
        }
        program.add_ctor(id, name, fields.as_slice());
        next = next + 1;
    }
    Ok(())
}

/// Whether a name and `more` entries fit.
fn fits(program: &Program, name: &str, more: usize) -> (fits: bool)
    ensures
        fits == program@.room(length(name@) + more as nat + 1),
{
    let count: usize = name.as_bytes().len();
    if count > u32::MAX as usize || more > u32::MAX as usize {
        return false;
    }
    let all: u64 = count as u64 + more as u64 + 1;
    all <= u32::MAX as u64 && program.has_room(all as usize)
}

/// Every type the program declares, then the constructors of each.
fn declare_types(program: &mut Program, types: &Vec<Declaration>) -> (done: Result<(), String>)
    requires
        old(program)@ == Store::nothing(),
        old(program)@.wf(),
    ensures
        final(program)@.wf(),
        match done {
            Ok(_) => declared(syntax::type_forms(types@)) == Ok::<_, Seq<char>>(final(program)@)
                && final(program)@.types.len() == types@.len()
                && final(program)@.functions.len() == 0,
            Err(said) => declared(syntax::type_forms(types@)) == Err::<Store, _>(said@),
        },
{
    let ghost forms = syntax::type_forms(types@);
    let mut at: usize = 0;
    while at < types.len()
        invariant
            forms == syntax::type_forms(types@),
            program@.wf(),
            at <= types@.len(),
            program@.types.len() == at,
            program@.functions.len() == 0,
            types_declared(Store::nothing(), forms, at as nat) == Ok::<_, Seq<char>>(program@),
        decreases types@.len() - at,
    {
        let name = types[at].name.as_str();
        proof {
            assert(forms[at as int].name == name@);
            types_stop_where_one_does(Store::nothing(), forms, at as nat + 1, forms.len());
        }
        if !fits(program, name, 0) {
            return Err(outgrown());
        }
        program.declare_type(name);
        at = at + 1;
    }
    let ghost reserved = program@;
    let mut at: usize = 0;
    while at < types.len()
        invariant
            forms == syntax::type_forms(types@),
            program@.wf(),
            at <= types@.len() == program@.types.len(),
            program@.functions.len() == 0,
            types_declared(Store::nothing(), forms, forms.len()) == Ok::<_, Seq<char>>(reserved),
            types_defined(reserved, forms, at as nat) == Ok::<_, Seq<char>>(program@),
        decreases types@.len() - at,
    {
        proof {
            assert(forms[at as int].name == types@[at as int].name@);
            types_stop_where_one_does(reserved, forms, at as nat + 1, forms.len());
            a_declared_type_is_named(forms, at as int, forms.len());
        }
        if let Some(id) = find_type(types, types[at].name.as_str()) {
            if let Err(said) = declare_ctors(program, types, at, id) {
                return Err(said);
            }
        }
        at = at + 1;
    }
    Ok(())
}

/// A type of one value that carries nothing, which no program can name.
fn declare_token(program: &mut Program, name: &str) -> (made: Result<TypeId, String>)
    requires
        old(program)@.wf(),
    ensures
        final(program)@.wf(),
        match made {
            Ok(id) => with_token(old(program)@, name@) == Ok::<_, Seq<char>>(final(program)@)
                && id.0 == old(program)@.types.len() && final(program)@.types.len()
                == old(program)@.types.len() + 1 && final(program)@.functions
                == old(program)@.functions && final(program)@.ctors.len()
                == old(program)@.ctors.len() + 1,
            Err(said) => with_token(old(program)@, name@) == Err::<Store, _>(said@),
        },
{
    if !fits(program, name, 0) {
        return Err(outgrown());
    }
    let id = program.declare_type(name);
    program.begin_ctors(id);
    if !fits(program, name, 0) {
        return Err(outgrown());
    }
    let none: [TypeId; 0] = [];
    assert(none@ =~= seq![]);
    program.add_ctor(id, name, &none);
    Ok(id)
}

/// A name a clause has bound, and what it stands for.
#[verifier::ext_equal]
pub struct BoundForm {
    pub name: Seq<char>,
    pub atom: Atom,
}

/// What the name bound last among the first `count` stands for.
pub open spec fn atom_of(scope: Seq<BoundForm>, name: Seq<char>, count: nat) -> Option<Atom>
    decreases count,
{
    if count == 0 {
        None
    } else if scope[count - 1].name == name {
        Some(scope[count - 1].atom)
    } else {
        atom_of(scope, name, (count - 1) as nat)
    }
}

/// A scope, then a constructor application bound in it.
pub open spec fn con_built(draft: Draft, ctor: CtorId, args: Seq<Atom>) -> Result<
    (Draft, Atom),
    Seq<char>,
> {
    if draft.room(args.len() + 1) {
        Ok((draft.con(ctor, args), draft.next()))
    } else {
        Err(pool::too_large())
    }
}

/// A scope, then a call bound in it.
pub open spec fn call_built(draft: Draft, function: FnId, args: Seq<Atom>) -> Result<
    (Draft, Atom),
    Seq<char>,
> {
    if draft.room(args.len() + 1) {
        Ok((draft.call(function, args), draft.next()))
    } else {
        Err(pool::too_large())
    }
}

/// How many of the constructors may be named, and the functions.
#[verifier::ext_equal]
pub struct TableForm {
    pub ctors: nat,
    pub scheme: SchemeForm,
}

impl TableForm {
    pub open spec fn world(self, store: Store) -> WorldForm {
        WorldForm { store, ctors: self.ctors, scheme: self.scheme }
    }

    pub open spec fn fits(self, store: Store) -> bool {
        &&& self.ctors <= store.ctors.len()
        &&& self.scheme.names.len() <= store.functions.len()
    }

    pub open spec fn term_built(self, draft: Draft, scope: Seq<BoundForm>, term: TermForm) -> Result<
        (Draft, Atom),
        Seq<char>,
    >
        decreases term,
    {
        match term {
            TermForm::Name(name) => match atom_of(scope, name, scope.len()) {
                Some(atom) => Ok((draft, atom)),
                None => match self.world(draft.program).ctor(name) {
                    Some(ctor) => con_built(draft, ctor, seq![]),
                    None => Err("nothing named `"@ + name + "` is in scope"@),
                },
            },
            TermForm::Apply(name, args) => match self.args_built(draft, scope, args) {
                Ok((draft, atoms)) => {
                    let ctor = self.world(draft.program).ctor(name);
                    let at = self.scheme.named(name);
                    if ctor is None && at >= self.scheme.names.len() {
                        Err("no function named `"@ + name + "`"@)
                    } else if args.len() > 0 && atom_of(scope, name, scope.len()) is Some {
                        Err("`"@ + name + "` is a value, not something to apply"@)
                    } else {
                        match ctor {
                            Some(ctor) => con_built(draft, ctor, atoms),
                            None => call_built(draft, FnId(at as u32), atoms),
                        }
                    }
                },
                Err(said) => Err(said),
            },
        }
    }

    pub open spec fn args_built(
        self,
        draft: Draft,
        scope: Seq<BoundForm>,
        args: Seq<TermForm>,
    ) -> Result<(Draft, Seq<Atom>), Seq<char>>
        decreases args,
    {
        if args.len() == 0 {
            Ok((draft, seq![]))
        } else {
            match self.args_built(draft, scope, args.drop_last()) {
                Ok((draft, atoms)) => match self.term_built(draft, scope, args.last()) {
                    Ok((draft, atom)) => Ok((draft, atoms.push(atom))),
                    Err(said) => Err(said),
                },
                Err(said) => Err(said),
            }
        }
    }

    /// A clause's first `count` steps in order, each bound where it named it.
    pub open spec fn steps_built(
        self,
        draft: Draft,
        scope: Seq<BoundForm>,
        steps: Seq<StepForm>,
        count: nat,
    ) -> Result<(Draft, Seq<BoundForm>), Seq<char>>
        decreases count,
    {
        if count == 0 {
            Ok((draft, scope))
        } else {
            match self.steps_built(draft, scope, steps, (count - 1) as nat) {
                Ok((draft, scope)) => match self.term_built(draft, scope, steps[count - 1].term) {
                    Ok((draft, atom)) => Ok(
                        (draft, scope.push(BoundForm { name: steps[count - 1].name, atom })),
                    ),
                    Err(said) => Err(said),
                },
                Err(said) => Err(said),
            }
        }
    }

    /// A clause's steps in order, then what it answers. Order is the order
    /// they were written, so an effect that must happen first is written
    /// first.
    pub open spec fn clause_built(
        self,
        draft: Draft,
        scope: Seq<BoundForm>,
        clause: ClauseForm,
    ) -> Result<(Draft, Atom), Seq<char>> {
        match self.steps_built(draft, scope, clause.steps, clause.steps.len()) {
            Ok((draft, scope)) => self.term_built(draft, scope, clause.body),
            Err(said) => Err(said),
        }
    }
}

proof fn args_stop_where_one_does(
    table: TableForm,
    draft: Draft,
    scope: Seq<BoundForm>,
    args: Seq<TermForm>,
    count: int,
)
    requires
        0 <= count <= args.len(),
    ensures
        table.args_built(draft, scope, args.take(count)) matches Err(said) ==> table.args_built(
            draft,
            scope,
            args,
        ) == Err::<(Draft, Seq<Atom>), _>(said),
    decreases args.len(),
{
    if count < args.len() {
        args_stop_where_one_does(table, draft, scope, args.drop_last(), count);
        assert(args.drop_last().take(count) =~= args.take(count));
    } else {
        assert(args.take(count) =~= args);
    }
}

proof fn steps_stop_where_one_does(
    table: TableForm,
    draft: Draft,
    scope: Seq<BoundForm>,
    steps: Seq<StepForm>,
    count: nat,
    all: nat,
)
    requires
        count <= all,
    ensures
        table.steps_built(draft, scope, steps, count) matches Err(said) ==> table.steps_built(
            draft,
            scope,
            steps,
            all,
        ) == Err::<(Draft, Seq<BoundForm>), _>(said),
    decreases all,
{
    if count < all {
        steps_stop_where_one_does(table, draft, scope, steps, count, (all - 1) as nat);
    }
}

/// A name a clause has bound, and what it stands for.
#[derive(Clone, Copy, Debug)]
struct Bound<'a> {
    name: &'a str,
    atom: Atom,
}

spec fn bound_forms(scope: Seq<Bound>) -> Seq<BoundForm> {
    Seq::new(scope.len(), |i: int| BoundForm { name: scope[i].name@, atom: scope[i].atom })
}

fn find_atom(scope: &Vec<Bound>, name: &str) -> (atom: Option<Atom>)
    ensures
        atom == atom_of(bound_forms(scope@), name@, scope@.len()),
{
    let ghost forms = bound_forms(scope@);
    let mut count: usize = scope.len();
    while count > 0
        invariant
            forms == bound_forms(scope@),
            count <= scope@.len(),
            atom_of(forms, name@, count as nat) == atom_of(forms, name@, scope@.len()),
        decreases count,
    {
        let held = &scope[count - 1];
        assert(forms[count - 1].name == held.name@);
        if text::same(held.name, name) {
            return Some(held.atom);
        }
        count = count - 1;
    }
    None
}

/// Compiles clauses into bodies.
struct Lowering<'a> {
    ctors: u32,
    scheme: &'a Scheme,
}

impl<'a> View for Lowering<'a> {
    type V = TableForm;

    closed spec fn view(&self) -> TableForm {
        TableForm { ctors: self.ctors as nat, scheme: self.scheme@ }
    }
}

impl<'a> Lowering<'a> {
    fn ctor(&self, b: &Builder, name: &str) -> (ctor: Option<CtorId>)
        requires
            b@.wf(),
            self@.fits(b@.program),
        ensures
            ctor == self@.world(b@.program).ctor(name@),
            ctor matches Some(found) ==> found.0 < b@.program.ctors.len(),
    {
        let world = World { program: b.program(), ctors: self.ctors, scheme: self.scheme };
        world.ctor(name)
    }

    fn con(&self, b: &mut Builder, ctor: CtorId, args: &[Atom]) -> (built: Result<Atom, String>)
        requires
            old(b)@.wf(),
            ctor.0 < old(b)@.program.ctors.len(),
        ensures
            final(b)@.wf(),
            final(b)@.program.grows(old(b)@.program),
            match built {
                Ok(atom) => con_built(old(b)@, ctor, args@) == Ok::<_, Seq<char>>((final(b)@, atom)),
                Err(said) => con_built(old(b)@, ctor, args@) == Err::<(Draft, Atom), _>(said@),
            },
    {
        if args.len() >= u32::MAX as usize || !b.has_room(args.len() + 1) {
            return Err(outgrown());
        }
        Ok(b.con(ctor, args))
    }

    fn call(&self, b: &mut Builder, function: FnId, args: &[Atom]) -> (built: Result<Atom, String>)
        requires
            old(b)@.wf(),
            function.0 < old(b)@.program.functions.len(),
        ensures
            final(b)@.wf(),
            final(b)@.program.grows(old(b)@.program),
            match built {
                Ok(atom) => call_built(old(b)@, function, args@) == Ok::<_, Seq<char>>(
                    (final(b)@, atom),
                ),
                Err(said) => call_built(old(b)@, function, args@) == Err::<(Draft, Atom), _>(said@),
            },
    {
        if args.len() >= u32::MAX as usize || !b.has_room(args.len() + 1) {
            return Err(outgrown());
        }
        Ok(b.call(function, args))
    }

    fn term(&self, b: &mut Builder, scope: &Vec<Bound>, term: &Term) -> (built: Result<
        Atom,
        String,
    >)
        requires
            old(b)@.wf(),
            self@.fits(old(b)@.program),
        ensures
            final(b)@.wf(),
            final(b)@.program.grows(old(b)@.program),
            match built {
                Ok(atom) => self@.term_built(old(b)@, bound_forms(scope@), term@) == Ok::<
                    _,
                    Seq<char>,
                >((final(b)@, atom)),
                Err(said) => self@.term_built(old(b)@, bound_forms(scope@), term@) == Err::<
                    (Draft, Atom),
                    _,
                >(said@),
            },
        decreases term@,
    {
        let ghost start = b@;
        let ghost forms = bound_forms(scope@);
        match term {
            Term::Name(name) => {
                if let Some(atom) = find_atom(scope, name.as_str()) {
                    return Ok(atom);
                }
                match self.ctor(b, name.as_str()) {
                    Some(ctor) => {
                        let none: [Atom; 0] = [];
                        assert(none@ =~= seq![]);
                        self.con(b, ctor, &none)
                    },
                    None => Err(
                        text::around("nothing named `", name.as_str(), "` is in scope"),
                    ),
                }
            },
            Term::Apply(name, args) => {
                proof {
                    syntax::forms_are_each(args@);
                }
                let ghost all = syntax::term_forms(args@);
                let mut atoms: Vec<Atom> = Vec::new();
                let mut at: usize = 0;
                assert(all.take(0) =~= seq![]);
                assert(atoms@ =~= seq![]);
                while at < args.len()
                    invariant
                        start == old(b)@,
                        forms == bound_forms(scope@),
                        b@.wf(),
                        b@.program.grows(start.program),
                        self@.fits(start.program),
                        *term == (Term::Apply(*name, *args)),
                        term@ == TermForm::Apply(name@, all),
                        all == syntax::term_forms(args@),
                        all.len() == args@.len(),
                        forall|i: int| 0 <= i < args@.len() ==> #[trigger] all[i] == args@[i]@,
                        at <= args@.len(),
                        self@.args_built(start, forms, all.take(at as int)) == Ok::<_, Seq<char>>(
                            (b@, atoms@),
                        ),
                    decreases args@.len() - at,
                {
                    let ghost next = all.take(at + 1);
                    let ghost here = b@.program;
                    proof {
                        assert(next.drop_last() =~= all.take(at as int));
                        assert(next.last() == args@[at as int]@);
                        args_stop_where_one_does(self@, start, forms, all, at + 1);
                    }
                    match self.term(b, scope, &args[at]) {
                        Ok(atom) => {
                            atoms.push(atom);
                        },
                        Err(said) => {
                            proof {
                                builder::growth_chains(start.program, here, b@.program);
                            }
                            return Err(said);
                        },
                    }
                    proof {
                        builder::growth_chains(start.program, here, b@.program);
                    }
                    at = at + 1;
                }
                assert(all.take(at as int) =~= all);
                let ghost here = b@.program;
                let ctor = self.ctor(b, name.as_str());
                let found: usize = self.scheme.named(name.as_str());
                if ctor.is_none() && found >= self.scheme.len() {
                    return Err(text::around("no function named `", name.as_str(), "`"));
                }
                // A value is handed nothing, whatever else is called that.
                if args.len() > 0 && find_atom(scope, name.as_str()).is_some() {
                    return Err(
                        text::around("`", name.as_str(), "` is a value, not something to apply"),
                    );
                }
                let built = match ctor {
                    Some(ctor) => self.con(b, ctor, atoms.as_slice()),
                    None => self.call(b, FnId(found as u32), atoms.as_slice()),
                };
                proof {
                    builder::growth_chains(start.program, here, b@.program);
                }
                built
            },
        }
    }

    /// A clause's steps in order, each bound where it named it, then what it
    /// answers.
    fn clause<'b>(&self, b: &mut Builder, clause: &'b Clause, bound: Vec<Bound<'b>>) -> (built:
        Result<Atom, String>)
        requires
            old(b)@.wf(),
            self@.fits(old(b)@.program),
        ensures
            final(b)@.wf(),
            final(b)@.program.grows(old(b)@.program),
            match built {
                Ok(atom) => self@.clause_built(old(b)@, bound_forms(bound@), clause@) == Ok::<
                    _,
                    Seq<char>,
                >((final(b)@, atom)),
                Err(said) => self@.clause_built(old(b)@, bound_forms(bound@), clause@) == Err::<
                    (Draft, Atom),
                    _,
                >(said@),
            },
    {
        let ghost start = b@;
        let ghost first = bound_forms(bound@);
        let ghost steps = clause@.steps;
        let mut scope: Vec<Bound<'b>> = bound;
        let mut at: usize = 0;
        while at < clause.steps.len()
            invariant
                start == old(b)@,
                b@.wf(),
                b@.program.grows(start.program),
                self@.fits(start.program),
                first == bound_forms(bound@),
                steps == clause@.steps,
                steps == syntax::step_forms(clause.steps@),
                at <= steps.len(),
                self@.steps_built(start, first, steps, at as nat) == Ok::<_, Seq<char>>(
                    (b@, bound_forms(scope@)),
                ),
            decreases steps.len() - at,
        {
            let ghost here = b@.program;
            let ghost before = bound_forms(scope@);
            proof {
                assert(steps[at as int] == clause.steps@[at as int]@);
                steps_stop_where_one_does(
                    self@,
                    start,
                    first,
                    steps,
                    at as nat + 1,
                    steps.len(),
                );
            }
            let built = self.term(b, &scope, &clause.steps[at].term);
            proof {
                builder::growth_chains(start.program, here, b@.program);
            }
            match built {
                Ok(atom) => {
                    let name = clause.steps[at].name.as_str();
                    scope.push(Bound { name, atom });
                    assert(bound_forms(scope@) =~= before.push(
                        BoundForm { name: steps[at as int].name, atom },
                    ));
                },
                Err(said) => {
                    return Err(said);
                },
            }
            at = at + 1;
        }
        let ghost here = b@.program;
        let built = self.term(b, &scope, &clause.body);
        proof {
            builder::growth_chains(start.program, here, b@.program);
        }
        built
    }
}

/// Which argument a clause's first `count` patterns match on, if any, where
/// one may be matched on already.
pub open spec fn patterns_matched(
    world: WorldForm,
    patterns: Seq<PatternForm>,
    already: Option<int>,
    count: nat,
) -> Result<Option<int>, Seq<char>>
    decreases count,
{
    if count == 0 {
        Ok(already)
    } else {
        match patterns_matched(world, patterns, already, (count - 1) as nat) {
            Ok(held) => if world.resolved(patterns[count - 1]) is Bind {
                Ok(held)
            } else {
                match held {
                    None => Ok(Some(count - 1)),
                    Some(earlier) => if earlier == count - 1 {
                        Ok(held)
                    } else {
                        Err(two_matched(earlier as nat, (count - 1) as nat))
                    },
                }
            },
            Err(said) => Err(said),
        }
    }
}

pub open spec fn two_matched(earlier: nat, at: nat) -> Seq<char> {
    "this matches on argument "@ + text::decimal(earlier) + " and on argument "@ + text::decimal(at)
        + "; one at a time"@
}

/// Which argument the first `count` clauses match on, if any. One is
/// allowed, so that a single `match` serves: more is a pattern-match
/// compiler.
pub open spec fn clauses_matched(world: WorldForm, clauses: Seq<ClauseForm>, count: nat) -> Result<
    Option<int>,
    Seq<char>,
>
    decreases count,
{
    if count == 0 {
        Ok(None)
    } else {
        match clauses_matched(world, clauses, (count - 1) as nat) {
            Ok(held) => patterns_matched(
                world,
                clauses[count - 1].patterns,
                held,
                clauses[count - 1].patterns.len(),
            ),
            Err(said) => Err(said),
        }
    }
}

/// Whether a pattern names a constructor.
pub open spec fn names_it(world: WorldForm, pattern: PatternForm, wanted: Seq<char>) -> bool {
    match world.resolved(pattern) {
        PatternForm::Bind(_) => false,
        PatternForm::Ctor(name, _) => name == wanted,
    }
}

/// The first clause from `from` on that names a constructor.
pub open spec fn naming(
    world: WorldForm,
    clauses: Seq<ClauseForm>,
    matched: int,
    wanted: Seq<char>,
    from: int,
) -> int
    decreases clauses.len() - from,
{
    if from >= clauses.len() || names_it(world, clauses[from].patterns[matched], wanted) {
        from
    } else {
        naming(world, clauses, matched, wanted, from + 1)
    }
}

/// The first clause from `from` on that binds the argument rather than matching
/// it.
pub open spec fn binding(
    world: WorldForm,
    clauses: Seq<ClauseForm>,
    matched: int,
    from: int,
) -> int
    decreases clauses.len() - from,
{
    if from >= clauses.len() || world.resolved(clauses[from].patterns[matched]) is Bind {
        from
    } else {
        binding(world, clauses, matched, from + 1)
    }
}

/// Which clause takes what a constructor builds: the first that names it, or
/// failing that the first that binds the argument rather than matching it.
pub open spec fn covering(
    world: WorldForm,
    clauses: Seq<ClauseForm>,
    matched: int,
    wanted: Seq<char>,
) -> int {
    let named = naming(world, clauses, matched, wanted, 0);
    if named < clauses.len() {
        named
    } else {
        binding(world, clauses, matched, 0)
    }
}

/// Names, each for one of the fields a constructor revealed.
pub open spec fn revealed(names: Seq<Seq<char>>, fields: Seq<Atom>) -> Seq<BoundForm> {
    Seq::new(names.len(), |i: int| BoundForm { name: names[i], atom: fields[i] })
}

/// What a clause's first `count` patterns bind. The matched argument binds
/// the fields the constructor revealed; every other one binds whatever name
/// the clause gave it.
pub open spec fn arm_scope(
    world: WorldForm,
    patterns: Seq<PatternForm>,
    args: Seq<Atom>,
    fields: Seq<Atom>,
    matched: Option<int>,
    count: nat,
) -> Seq<BoundForm>
    decreases count,
{
    if count == 0 {
        seq![]
    } else {
        let scope = arm_scope(world, patterns, args, fields, matched, (count - 1) as nat);
        match world.resolved(patterns[count - 1]) {
            PatternForm::Bind(name) => scope.push(BoundForm { name, atom: args[count - 1] }),
            PatternForm::Ctor(_, names) => if matched == Some(count - 1) {
                scope + revealed(names, fields)
            } else {
                scope
            },
        }
    }
}

impl TableForm {
    /// The clause for one constructor, in a scope that binds its fields.
    pub open spec fn arm_built(
        self,
        outer: Draft,
        clauses: Seq<ClauseForm>,
        args: Seq<Atom>,
        matched: int,
        ctor: CtorId,
    ) -> Result<(Draft, Arm), Seq<char>> {
        let world = self.world(outer.program);
        let wanted = outer.program.name(outer.program.ctor(ctor).name);
        let count = outer.program.ctor(ctor).fields.len as nat;
        let at = covering(world, clauses, matched, wanted);
        if world.ctor(wanted) != Some(ctor) {
            Err("`"@ + wanted + "` is declared twice"@)
        } else if at >= clauses.len() {
            Err("no clause covers `"@ + wanted + "`"@)
        } else if world.resolved(clauses[at].patterns[matched]) matches PatternForm::Ctor(_, names)
            && names.len() != count {
            Err("`"@ + wanted + "` takes "@ + text::decimal(count) + " fields"@)
        } else if !outer.room(count) {
            Err(pool::too_large())
        } else {
            let scope = arm_scope(
                world,
                clauses[at].patterns,
                args,
                outer.binders(count),
                Some(matched),
                clauses[at].patterns.len(),
            );
            match self.clause_built(outer.inside(count), scope, clauses[at]) {
                Ok((inner, result)) => if inner.room(inner.pending.len() + 1) {
                    Ok(
                        (
                            outer.after(inner, result),
                            Arm { ctor, body: inner.closed(result).1 },
                        ),
                    )
                } else {
                    Err(pool::too_large())
                },
                Err(said) => Err(said),
            }
        }
    }

    /// The arms for the first `count` constructors of a type, in tag order.
    pub open spec fn arms_built(
        self,
        outer: Draft,
        clauses: Seq<ClauseForm>,
        args: Seq<Atom>,
        matched: int,
        owner: TypeId,
        count: nat,
    ) -> Result<(Draft, Seq<Arm>), Seq<char>>
        decreases count,
    {
        if count == 0 {
            Ok((outer, seq![]))
        } else {
            match self.arms_built(outer, clauses, args, matched, owner, (count - 1) as nat) {
                Ok((outer, arms)) => match self.arm_built(
                    outer,
                    clauses,
                    args,
                    matched,
                    outer.program.ctor_at(owner, (count - 1) as nat),
                ) {
                    Ok((outer, arm)) => Ok((outer, arms.push(arm))),
                    Err(said) => Err(said),
                },
                Err(said) => Err(said),
            }
        }
    }

    /// The clauses of one function: a match on the argument they agree to
    /// match on, with each arm the clause that names that constructor.
    pub open spec fn clauses_built(
        self,
        draft: Draft,
        clauses: Seq<ClauseForm>,
        args: Seq<Atom>,
        types: Seq<TypeId>,
        matched: Option<int>,
    ) -> Result<(Draft, Atom), Seq<char>> {
        match matched {
            None => self.clause_built(
                draft,
                arm_scope(
                    self.world(draft.program),
                    clauses[0].patterns,
                    args,
                    seq![],
                    None,
                    clauses[0].patterns.len(),
                ),
                clauses[0],
            ),
            Some(at) => match self.arms_built(
                draft,
                clauses,
                args,
                at,
                types[at],
                draft.program.type_(types[at]).ctors.len as nat,
            ) {
                Ok((draft, arms)) => if draft.room(arms.len() + 1) {
                    Ok((draft.matching(args[at], arms), draft.next()))
                } else {
                    Err(pool::too_large())
                },
                Err(said) => Err(said),
            },
        }
    }

    /// One function's clauses, compiled into its body.
    pub open spec fn function_built(self, store: Store, id: FnId, clauses: Seq<ClauseForm>) -> Result<
        Store,
        Seq<char>,
    > {
        match clauses_matched(self.world(store), clauses, clauses.len()) {
            Ok(matched) => match self.clauses_built(
                Draft::opened(store, store.function(id).params.len as nat),
                clauses,
                store.parameters(id),
                store.params(id),
                matched,
            ) {
                Ok((draft, result)) => if draft.room(draft.pending.len() + 1) {
                    Ok(draft.as_body(id, result))
                } else {
                    Err(pool::too_large())
                },
                Err(said) => Err(said),
            },
            Err(said) => Err(said),
        }
    }

    /// The first `count` functions, compiled.
    pub open spec fn functions_built(
        self,
        store: Store,
        functions: Seq<FunctionForm>,
        count: nat,
    ) -> Result<Store, Seq<char>>
        decreases count,
    {
        if count == 0 {
            Ok(store)
        } else {
            match self.functions_built(store, functions, (count - 1) as nat) {
                Ok(store) => self.function_built(
                    store,
                    FnId((count - 1) as u32),
                    functions[count - 1].clauses,
                ),
                Err(said) => Err(said),
            }
        }
    }
}

proof fn matching_stops_where_one_does(
    world: WorldForm,
    clauses: Seq<ClauseForm>,
    count: nat,
    all: nat,
)
    requires
        count <= all,
    ensures
        clauses_matched(world, clauses, count) matches Err(said) ==> clauses_matched(
            world,
            clauses,
            all,
        ) == Err::<Option<int>, _>(said),
    decreases all,
{
    if count < all {
        matching_stops_where_one_does(world, clauses, count, (all - 1) as nat);
    }
}

proof fn patterns_stop_where_one_does(
    world: WorldForm,
    patterns: Seq<PatternForm>,
    already: Option<int>,
    count: nat,
    all: nat,
)
    requires
        count <= all,
    ensures
        patterns_matched(world, patterns, already, count) matches Err(said) ==> patterns_matched(
            world,
            patterns,
            already,
            all,
        ) == Err::<Option<int>, _>(said),
    decreases all,
{
    if count < all {
        patterns_stop_where_one_does(world, patterns, already, count, (all - 1) as nat);
    }
}

proof fn arms_stop_where_one_does(
    table: TableForm,
    outer: Draft,
    clauses: Seq<ClauseForm>,
    args: Seq<Atom>,
    matched: int,
    owner: TypeId,
    count: nat,
    all: nat,
)
    requires
        count <= all,
    ensures
        table.arms_built(outer, clauses, args, matched, owner, count) matches Err(said)
            ==> table.arms_built(outer, clauses, args, matched, owner, all) == Err::<
            (Draft, Seq<Arm>),
            _,
        >(said),
    decreases all,
{
    if count < all {
        arms_stop_where_one_does(
            table,
            outer,
            clauses,
            args,
            matched,
            owner,
            count,
            (all - 1) as nat,
        );
    }
}

proof fn building_stops_where_one_does(
    table: TableForm,
    store: Store,
    functions: Seq<FunctionForm>,
    count: nat,
    all: nat,
)
    requires
        count <= all,
    ensures
        table.functions_built(store, functions, count) matches Err(said) ==> table.functions_built(
            store,
            functions,
            all,
        ) == Err::<Store, _>(said),
    decreases all,
{
    if count < all {
        building_stops_where_one_does(table, store, functions, count, (all - 1) as nat);
    }
}

impl<'a> Lowering<'a> {
    /// The constructor a pattern names, where it names one.
    fn names_ctor(&self, program: &Program, pattern: &Pattern) -> (names: bool)
        requires
            program@.wf(),
            self@.fits(program@),
        ensures
            names == (self@.world(program@).resolved(pattern@) is Ctor),
    {
        match pattern {
            Pattern::Bind(name) => {
                let world = World { program, ctors: self.ctors, scheme: self.scheme };
                world.ctor(name.as_str()).is_some()
            },
            Pattern::Ctor(_, _) => true,
        }
    }

    /// Which argument the clauses match on, if any.
    fn matched_argument(&self, program: &Program, clauses: &Vec<Clause>) -> (matched: Result<
        Option<usize>,
        String,
    >)
        requires
            program@.wf(),
            self@.fits(program@),
        ensures
            match matched {
                Ok(None) => clauses_matched(
                    self@.world(program@),
                    syntax::clause_forms(clauses@),
                    clauses@.len(),
                ) == Ok::<_, Seq<char>>(None::<int>),
                Ok(Some(at)) => clauses_matched(
                    self@.world(program@),
                    syntax::clause_forms(clauses@),
                    clauses@.len(),
                ) == Ok::<_, Seq<char>>(Some(at as int)) && exists|c: int|
                    0 <= c < clauses@.len() && at < (#[trigger] clauses@[c])@.patterns.len(),
                Err(said) => clauses_matched(
                    self@.world(program@),
                    syntax::clause_forms(clauses@),
                    clauses@.len(),
                ) == Err::<Option<int>, _>(said@),
            },
    {
        let ghost world = self@.world(program@);
        let ghost forms = syntax::clause_forms(clauses@);
        let mut matched: Option<usize> = None;
        let ghost mut held: Option<int> = None;
        let mut next: usize = 0;
        while next < clauses.len()
            invariant
                program@.wf(),
                self@.fits(program@),
                world == self@.world(program@),
                forms == syntax::clause_forms(clauses@),
                next <= clauses@.len(),
                held == match matched {
                    Some(at) => Some(at as int),
                    None => None,
                },
                matched matches Some(at) ==> exists|c: int|
                    0 <= c < clauses@.len() && at < (#[trigger] clauses@[c])@.patterns.len(),
                clauses_matched(world, forms, next as nat) == Ok::<_, Seq<char>>(held),
            decreases clauses@.len() - next,
        {
            let patterns = &clauses[next].patterns;
            let ghost listed = forms[next as int].patterns;
            let ghost before = held;
            proof {
                assert(forms[next as int] == clauses@[next as int]@);
                assert(listed =~= syntax::pattern_forms(patterns@));
                matching_stops_where_one_does(world, forms, next as nat + 1, forms.len());
            }
            let mut at: usize = 0;
            while at < patterns.len()
                invariant
                    program@.wf(),
                    self@.fits(program@),
                    world == self@.world(program@),
                    forms == syntax::clause_forms(clauses@),
                    next < clauses@.len(),
                    forms[next as int] == clauses@[next as int]@,
                    listed == forms[next as int].patterns,
                    listed == syntax::pattern_forms(patterns@),
                    clauses_matched(world, forms, next as nat) == Ok::<_, Seq<char>>(before),
                    clauses_matched(world, forms, next as nat + 1) matches Err(said)
                        ==> clauses_matched(world, forms, forms.len()) == Err::<Option<int>, _>(
                        said,
                    ),
                    at <= patterns@.len(),
                    held == match matched {
                        Some(at) => Some(at as int),
                        None => None,
                    },
                    matched matches Some(at) ==> exists|c: int|
                        0 <= c < clauses@.len() && at < (#[trigger] clauses@[c])@.patterns.len(),
                    patterns_matched(world, listed, before, at as nat) == Ok::<_, Seq<char>>(held),
                decreases patterns@.len() - at,
            {
                proof {
                    assert(listed[at as int] == patterns@[at as int]@);
                    patterns_stop_where_one_does(
                        world,
                        listed,
                        before,
                        at as nat + 1,
                        listed.len(),
                    );
                }
                if self.names_ctor(program, &patterns[at]) {
                    match matched {
                        None => {
                            matched = Some(at);
                            proof {
                                held = Some(at as int);
                                assert(at < clauses@[next as int]@.patterns.len());
                            }
                        },
                        Some(already) => {
                            if already != at {
                                let mut said = String::new();
                                said.append("this matches on argument ");
                                text::push_decimal(&mut said, already as u64);
                                said.append(" and on argument ");
                                text::push_decimal(&mut said, at as u64);
                                said.append("; one at a time");
                                assert(said@ =~= two_matched(already as nat, at as nat));
                                return Err(said);
                            }
                        },
                    }
                }
                at = at + 1;
            }
            next = next + 1;
        }
        Ok(matched)
    }

    /// What a clause binds, where a constructor revealed `fields`.
    fn scope<'b>(
        &self,
        program: &Program,
        patterns: &'b Vec<Pattern>,
        args: &Vec<Atom>,
        fields: &Vec<Atom>,
        matched: Option<usize>,
    ) -> (scope: Vec<Bound<'b>>)
        requires
            program@.wf(),
            self@.fits(program@),
            patterns@.len() == args@.len(),
            matched matches Some(at) ==> at < patterns@.len() && (self@.world(program@).resolved(
                patterns@[at as int]@,
            ) matches PatternForm::Ctor(_, names) ==> names.len() == fields@.len()),
        ensures
            bound_forms(scope@) == arm_scope(
                self@.world(program@),
                syntax::pattern_forms(patterns@),
                args@,
                fields@,
                match matched {
                    Some(at) => Some(at as int),
                    None => None,
                },
                patterns@.len(),
            ),
    {
        let ghost world = self@.world(program@);
        let ghost forms = syntax::pattern_forms(patterns@);
        let ghost place = match matched {
            Some(at) => Some(at as int),
            None => None::<int>,
        };
        let mut scope: Vec<Bound<'b>> = Vec::new();
        let mut at: usize = 0;
        assert(bound_forms(scope@) =~= seq![]);
        while at < patterns.len()
            invariant
                program@.wf(),
                self@.fits(program@),
                world == self@.world(program@),
                forms == syntax::pattern_forms(patterns@),
                patterns@.len() == args@.len(),
                place == match matched {
                    Some(at) => Some(at as int),
                    None => None,
                },
                matched matches Some(at) ==> at < patterns@.len() && (world.resolved(
                    patterns@[at as int]@,
                ) matches PatternForm::Ctor(_, names) ==> names.len() == fields@.len()),
                at <= patterns@.len(),
                bound_forms(scope@) == arm_scope(world, forms, args@, fields@, place, at as nat),
            decreases patterns@.len() - at,
        {
            let ghost before = bound_forms(scope@);
            let ghost after = arm_scope(world, forms, args@, fields@, place, at as nat + 1);
            assert(forms[at as int] == patterns@[at as int]@);
            if !self.names_ctor(program, &patterns[at]) {
                match &patterns[at] {
                    Pattern::Bind(name) => {
                        let name = name.as_str();
                        scope.push(Bound { name, atom: args[at] });
                        assert(bound_forms(scope@) =~= before.push(
                            BoundForm { name: name@, atom: args@[at as int] },
                        ));
                    },
                    Pattern::Ctor(_, _) => {
                        assert(false);
                    },
                }
            } else if matched.is_some() && matched.unwrap() == at {
                match &patterns[at] {
                    Pattern::Bind(_) => {
                        assert(bound_forms(scope@) =~= before + revealed(seq![], fields@));
                    },
                    Pattern::Ctor(_, names) => {
                        let ghost listed = syntax::texts(names@);
                        let mut next: usize = 0;
                        while next < names.len()
                            invariant
                                listed == syntax::texts(names@),
                                names@.len() == fields@.len(),
                                next <= names@.len(),
                                bound_forms(scope@) == before + revealed(listed, fields@).take(
                                    next as int,
                                ),
                            decreases names@.len() - next,
                        {
                            let ghost here = bound_forms(scope@);
                            let name = names[next].as_str();
                            scope.push(Bound { name, atom: fields[next] });
                            assert(bound_forms(scope@) =~= here.push(
                                BoundForm { name: listed[next as int], atom: fields@[next as int] },
                            ));
                            next = next + 1;
                            assert(bound_forms(scope@) =~= before + revealed(
                                listed,
                                fields@,
                            ).take(next as int));
                        }
                        assert(revealed(listed, fields@).take(next as int) =~= revealed(
                            listed,
                            fields@,
                        ));
                    },
                }
            }
            assert(bound_forms(scope@) =~= after);
            at = at + 1;
        }
        scope
    }
}

impl<'a> Lowering<'a> {
    /// Which clause takes what a constructor builds: the first that names it,
    /// or failing that the first that binds the argument.
    fn covering(&self, program: &Program, clauses: &Vec<Clause>, matched: usize, wanted: &str) -> (at:
        usize)
        requires
            program@.wf(),
            self@.fits(program@),
            forall|c: int|
                0 <= c < clauses@.len() ==> matched < (#[trigger] clauses@[c])@.patterns.len(),
        ensures
            at == covering(
                self@.world(program@),
                syntax::clause_forms(clauses@),
                matched as int,
                wanted@,
            ),
            at <= clauses@.len(),
    {
        let ghost world = self@.world(program@);
        let ghost forms = syntax::clause_forms(clauses@);
        let mut bound: usize = clauses.len();
        let mut at: usize = 0;
        while at < clauses.len()
            invariant
                program@.wf(),
                self@.fits(program@),
                world == self@.world(program@),
                forms == syntax::clause_forms(clauses@),
                forall|c: int|
                    0 <= c < clauses@.len() ==> matched < (#[trigger] clauses@[c])@.patterns.len(),
                at <= clauses@.len(),
                bound <= clauses@.len(),
                naming(world, forms, matched as int, wanted@, at as int) == naming(
                    world,
                    forms,
                    matched as int,
                    wanted@,
                    0,
                ),
                if bound < clauses@.len() {
                    binding(world, forms, matched as int, 0) == bound
                } else {
                    binding(world, forms, matched as int, at as int) == binding(
                        world,
                        forms,
                        matched as int,
                        0,
                    )
                },
            decreases clauses@.len() - at,
        {
            assert(forms[at as int] == clauses@[at as int]@);
            assert(matched < clauses@[at as int]@.patterns.len());
            let pattern = &clauses[at].patterns[matched];
            assert(forms[at as int].patterns[matched as int] == pattern@);
            if self.names_ctor(program, pattern) {
                let name = match pattern {
                    Pattern::Bind(name) => name.as_str(),
                    Pattern::Ctor(name, _) => name.as_str(),
                };
                if text::same(name, wanted) {
                    return at;
                }
            } else if bound == clauses.len() {
                bound = at;
            }
            at = at + 1;
        }
        bound
    }

    /// The clause for one constructor: the one naming it, or failing that a
    /// clause that binds the argument rather than matching it.
    fn arm(
        &self,
        b: &mut Builder,
        clauses: &Vec<Clause>,
        args: &Vec<Atom>,
        matched: usize,
        ctor: CtorId,
    ) -> (built: Result<Arm, String>)
        requires
            old(b)@.wf(),
            self@.fits(old(b)@.program),
            ctor.0 < old(b)@.program.ctors.len(),
            matched < args@.len(),
            forall|c: int|
                0 <= c < clauses@.len() ==> (#[trigger] clauses@[c])@.patterns.len() == args@.len(),
        ensures
            match built {
                Ok(arm) => {
                    &&& self@.arm_built(
                        old(b)@,
                        syntax::clause_forms(clauses@),
                        args@,
                        matched as int,
                        ctor,
                    ) == Ok::<_, Seq<char>>((final(b)@, arm))
                    &&& final(b)@.wf()
                    &&& final(b)@.program.grows(old(b)@.program)
                    &&& final(b)@ == (Draft { program: final(b)@.program, ..old(b)@ })
                    &&& arm.ctor == ctor
                    &&& arm.body.0 < final(b)@.program.exprs.len()
                },
                Err(said) => self@.arm_built(
                    old(b)@,
                    syntax::clause_forms(clauses@),
                    args@,
                    matched as int,
                    ctor,
                ) == Err::<(Draft, Arm), _>(said@),
            },
    {
        let ghost outer = b@;
        let ghost world = self@.world(outer.program);
        let ghost forms = syntax::clause_forms(clauses@);
        proof {
            assert(outer.program.ctor_fits(ctor.0 as int));
        }
        let held = *b.program().ctor(ctor);
        let wanted = b.program().name(held.name).to_owned();
        let meant = match self.ctor(b, wanted.as_str()) {
            Some(found) => found.0 == ctor.0,
            None => false,
        };
        if !meant {
            return Err(text::around("`", wanted.as_str(), "` is declared twice"));
        }
        let at: usize = self.covering(b.program(), clauses, matched, wanted.as_str());
        if at >= clauses.len() {
            return Err(text::around("no clause covers `", wanted.as_str(), "`"));
        }
        let clause = &clauses[at];
        proof {
            assert(forms[at as int] == clauses@[at as int]@);
            assert(clauses@[at as int]@.patterns.len() == args@.len());
            assert(clause@.patterns[matched as int] == clause.patterns@[matched as int]@);
        }
        let named: Option<usize> = match &clause.patterns[matched] {
            Pattern::Bind(_) => if self.names_ctor(b.program(), &clause.patterns[matched]) {
                Some(0)
            } else {
                None
            },
            Pattern::Ctor(_, names) => Some(names.len()),
        };
        if named.is_some() && named.unwrap() != held.fields.len() {
            let mut said = text::around("`", wanted.as_str(), "` takes ");
            text::push_decimal(&mut said, held.fields.len as u64);
            said.append(" fields");
            assert(said@ =~= "`"@ + wanted@ + "` takes "@ + text::decimal(held.fields.len as nat)
                + " fields"@);
            return Err(said);
        }
        if !b.has_room(held.fields.len()) {
            return Err(outgrown());
        }
        let (kept, fields) = b.open(held.fields.len);
        let ghost inside = b@;
        let scope = self.scope(b.program(), &clause.patterns, args, &fields, Some(matched));
        match self.clause(b, clause, scope) {
            Ok(result) => {
                let ghost inner = b@;
                let pending: usize = b.held();
                if pending >= u32::MAX as usize || !b.has_room(pending + 1) {
                    return Err(outgrown());
                }
                let body = b.close(kept, result);
                proof {
                    builder::growth_chains(outer.program, inner.program, b@.program);
                    assert(b@ =~= outer.after(inner, result));
                    builder::a_scope_outlives_growth(outer, b@.program);
                }
                Ok(Arm { ctor, body })
            },
            Err(said) => Err(said),
        }
    }

    /// The clauses of one function: a match on the argument they agree to
    /// match on, with each arm the clause that names that constructor.
    fn clauses(
        &self,
        b: &mut Builder,
        clauses: &Vec<Clause>,
        args: &Vec<Atom>,
        types: &Vec<TypeId>,
        matched: Option<usize>,
    ) -> (built: Result<Atom, String>)
        requires
            old(b)@.wf(),
            self@.fits(old(b)@.program),
            clauses@.len() > 0,
            args@.len() == types@.len(),
            matched matches Some(at) ==> at < args@.len(),
            forall|i: int|
                0 <= i < types@.len() ==> (#[trigger] types@[i]).0 < old(b)@.program.types.len(),
            forall|c: int|
                0 <= c < clauses@.len() ==> (#[trigger] clauses@[c])@.patterns.len() == args@.len(),
        ensures
            match built {
                Ok(atom) => self@.clauses_built(
                    old(b)@,
                    syntax::clause_forms(clauses@),
                    args@,
                    types@,
                    match matched {
                        Some(at) => Some(at as int),
                        None => None,
                    },
                ) == Ok::<_, Seq<char>>((final(b)@, atom)) && final(b)@.wf()
                    && final(b)@.program.grows(old(b)@.program),
                Err(said) => self@.clauses_built(
                    old(b)@,
                    syntax::clause_forms(clauses@),
                    args@,
                    types@,
                    match matched {
                        Some(at) => Some(at as int),
                        None => None,
                    },
                ) == Err::<(Draft, Atom), _>(said@),
            },
    {
        let ghost start = b@;
        let ghost forms = syntax::clause_forms(clauses@);
        let place: usize = match matched {
            Some(at) => at,
            None => {
                proof {
                    assert(clauses@[0]@.patterns.len() == args@.len());
                    assert(forms[0] == clauses@[0]@);
                }
                let none: Vec<Atom> = Vec::new();
                assert(none@ =~= seq![]);
                let scope = self.scope(b.program(), &clauses[0].patterns, args, &none, None);
                return self.clause(b, &clauses[0], scope);
            },
        };
        let owner = types[place];
        proof {
            assert(types@[place as int].0 < start.program.types.len());
            assert(start.program.type_fits(owner.0 as int));
        }
        let ctors = b.program().type_(owner).ctors;
        let mut arms: Vec<Arm> = Vec::new();
        let mut tag: u32 = 0;
        assert(arms@ =~= seq![]);
        while tag < ctors.len
            invariant
                start == old(b)@,
                forms == syntax::clause_forms(clauses@),
                b@.wf(),
                b@.program.grows(start.program),
                self@.fits(start.program),
                start.program.wf(),
                owner.0 < start.program.types.len(),
                start.program.type_fits(owner.0 as int),
                ctors == start.program.type_(owner).ctors,
                matched == Some(place),
                place < types@.len(),
                owner == types@[place as int],
                place < args@.len(),
                forall|c: int|
                    0 <= c < clauses@.len() ==> (#[trigger] clauses@[c])@.patterns.len()
                        == args@.len(),
                tag <= ctors.len,
                arms@.len() == tag,
                forall|i: int|
                    0 <= i < arms@.len() ==> (#[trigger] arms@[i]).body.0 < b@.program.exprs.len()
                        && arms@[i].ctor.0 < b@.program.ctors.len(),
                self@.arms_built(start, forms, args@, place as int, owner, tag as nat) == Ok::<
                    _,
                    Seq<char>,
                >((b@, arms@)),
            decreases ctors.len - tag,
        {
            let ghost here = b@.program;
            proof {
                arms_stop_where_one_does(
                    self@,
                    start,
                    forms,
                    args@,
                    place as int,
                    owner,
                    tag as nat + 1,
                    ctors.len as nat,
                );
            }
            let ctor = CtorId(ctors.start + tag);
            match self.arm(b, clauses, args, place, ctor) {
                Ok(arm) => {
                    proof {
                        builder::growth_chains(start.program, here, b@.program);
                    }
                    arms.push(arm);
                },
                Err(said) => {
                    return Err(said);
                },
            }
            tag = tag + 1;
        }
        if arms.len() >= u32::MAX as usize || !b.has_room(arms.len() + 1) {
            return Err(outgrown());
        }
        let ghost here = b@.program;
        let atom = b.choose_arm(args[place], arms.as_slice());
        proof {
            builder::growth_chains(start.program, here, b@.program);
        }
        Ok(atom)
    }

    /// Compile one function's clauses into its body.
    fn define(&self, program: Program, id: FnId, clauses: &Vec<Clause>) -> (built: Result<
        Program,
        String,
    >)
        requires
            program@.wf(),
            self@.fits(program@),
            id.0 < program@.functions.len(),
            clauses@.len() > 0,
            forall|c: int|
                0 <= c < clauses@.len() ==> (#[trigger] clauses@[c])@.patterns.len()
                    == program@.function(id).params.len,
        ensures
            match built {
                Ok(made) => {
                    &&& self@.function_built(program@, id, syntax::clause_forms(clauses@)) == Ok::<
                        _,
                        Seq<char>,
                    >(made@)
                    &&& made@.wf()
                    &&& made@.ctors == program@.ctors
                    &&& made@.functions.len() == program@.functions.len()
                    &&& forall|i: int|
                        0 <= i < made@.functions.len() ==> (#[trigger] made@.functions[i]).params
                            == program@.functions[i].params
                    &&& made@.entry == program@.entry
                },
                Err(said) => self@.function_built(program@, id, syntax::clause_forms(clauses@))
                    == Err::<Store, _>(said@),
            },
    {
        let ghost store = program@;
        proof {
            assert(store.function_fits(id.0 as int));
        }
        let matched = match self.matched_argument(&program, clauses) {
            Ok(matched) => matched,
            Err(said) => {
                return Err(said);
            },
        };
        let types = vstd::slice::slice_to_vec(program.params(id));
        proof {
            assert(types@ == store.params(id));
            assert forall|i: int| 0 <= i < types@.len() implies (#[trigger] types@[i]).0
                < store.types.len() by {
                assert(types@[i] == store.types_pool[store.function(id).params.start + i]);
            }
        }
        let mut b = program.begin(id);
        let args = b.parameters();
        assert(args@ =~= store.parameters(id));
        let result = match self.clauses(&mut b, clauses, &args, &types, matched) {
            Ok(result) => result,
            Err(said) => {
                return Err(said);
            },
        };
        let pending: usize = b.held();
        if pending >= u32::MAX as usize || !b.has_room(pending + 1) {
            return Err(outgrown());
        }
        let ghost last = b@;
        proof {
            builder::a_closed_scope_fits(last, last, result);
        }
        let made = b.end(id, result);
        Ok(made)
    }
}

/// Whether a term has a name in it, in front or further in.
pub open spec fn term_mentions(term: TermForm, name: Seq<char>) -> bool
    decreases term,
{
    match term {
        TermForm::Name(held) => held == name,
        TermForm::Apply(held, args) => held == name || terms_mention(args, name),
    }
}

pub open spec fn terms_mention(terms: Seq<TermForm>, name: Seq<char>) -> bool
    decreases terms,
{
    terms.len() > 0 && (terms_mention(terms.drop_last(), name) || term_mentions(
        terms.last(),
        name,
    ))
}

pub open spec fn steps_mention(steps: Seq<StepForm>, name: Seq<char>, count: nat) -> bool
    decreases count,
{
    count > 0 && (steps_mention(steps, name, (count - 1) as nat) || term_mentions(
        steps[count - 1].term,
        name,
    ))
}

pub open spec fn clauses_mention(clauses: Seq<ClauseForm>, name: Seq<char>, count: nat) -> bool
    decreases count,
{
    count > 0 && (clauses_mention(clauses, name, (count - 1) as nat) || {
        let clause = clauses[count - 1];
        steps_mention(clause.steps, name, clause.steps.len()) || term_mentions(clause.body, name)
    })
}

pub open spec fn functions_mention(
    functions: Seq<FunctionForm>,
    name: Seq<char>,
    count: nat,
) -> bool
    decreases count,
{
    count > 0 && (functions_mention(functions, name, (count - 1) as nat) || {
        let clauses = functions[count - 1].clauses;
        clauses_mention(clauses, name, clauses.len())
    })
}

/// Whether a program leaves through `exit!`: it mentions one, and does not
/// write its own.
pub open spec fn exits(source: SourceForm, scheme: SchemeForm) -> bool {
    functions_mention(source.functions, "exit!"@, source.functions.len()) && scheme.named("exit!"@)
        >= scheme.names.len()
}

/// Whether everything a function takes and answers is known.
pub open spec fn is_told(slots: Slots, scheme: SchemeForm, at: int) -> bool {
    forall|i: int|
        0 <= i <= scheme.arity[at] ==> (#[trigger] slots.get(scheme.base[at] + i)) is Some
}

/// What a function takes.
pub open spec fn told_params(slots: Slots, scheme: SchemeForm, at: int) -> Seq<TypeId> {
    Seq::new(scheme.arity[at], |i: int| slots.get(scheme.base[at] + i)->Some_0)
}

/// The first `count` functions, declared as what was worked out of them.
pub open spec fn functions_declared(
    store: Store,
    scheme: SchemeForm,
    slots: Slots,
    count: nat,
) -> Result<Store, Seq<char>>
    decreases count,
{
    if count == 0 {
        Ok(store)
    } else {
        match functions_declared(store, scheme, slots, (count - 1) as nat) {
            Ok(store) => {
                let at = count - 1;
                if !is_told(slots, scheme, at) {
                    Err("nothing says what type `"@ + scheme.names[at] + "` works over"@)
                } else if !store.room(length(scheme.names[at]) + scheme.arity[at] + 1) {
                    Err(pool::too_large())
                } else {
                    Ok(
                        store.with_function(
                            scheme.names[at],
                            told_params(slots, scheme, at),
                            slots.get(scheme.result(at))->Some_0,
                        ),
                    )
                }
            },
            Err(said) => Err(said),
        }
    }
}

/// With `main` where a program starts, by name, since nothing in the text
/// says so and the tier below needs an entry.
pub open spec fn with_main(store: Store, scheme: SchemeForm) -> Store {
    if scheme.named("main"@) < scheme.names.len() {
        store.with_entry(FnId(scheme.named("main"@) as u32))
    } else if scheme.named("main!"@) < scheme.names.len() {
        store.with_entry(FnId(scheme.named("main!"@) as u32))
    } else {
        store
    }
}

/// What is said turned into a program, where the types are declared and the
/// functions laid out.
pub open spec fn worked_out(
    source: SourceForm,
    store: Store,
    ctors: nat,
    scheme: SchemeForm,
    slots: Slots,
) -> Result<Store, Seq<char>> {
    let world = WorldForm { store, ctors, scheme };
    match world.functions_told(slots, source.functions, source.functions.len()) {
        Ok(slots) => match functions_declared(store, scheme, slots, scheme.names.len()) {
            Ok(store) => TableForm { ctors, scheme }.functions_built(
                with_main(store, scheme),
                source.functions,
                source.functions.len(),
            ),
            Err(said) => Err(said),
        },
        Err(said) => Err(said),
    }
}

/// The slots of `exit!`: it takes the host and a status, and answers
/// nothing.
pub open spec fn exit_told(slots: Slots, host: TypeId, nothing: TypeId) -> Slots {
    let base = slots.len() as int;
    spread(slots, 3).pin(base, host)->Ok_0.pin(base + 2, nothing)->Ok_0
}

/// What is said turned into a program.
pub open spec fn built(source: SourceForm) -> Result<Store, Seq<char>> {
    match declared(source.types) {
        Ok(store) => match infer::layout(source.functions, source.functions.len()) {
            Ok((scheme, slots)) => if exits(source, scheme) {
                match with_token(store, "Host"@) {
                    Ok(handed) => match with_token(handed, "Nothing"@) {
                        Ok(both) => worked_out(
                            source,
                            both,
                            store.ctors.len(),
                            scheme.with("exit!"@, 2, slots.len() as int),
                            exit_told(
                                slots,
                                TypeId(store.types.len() as u32),
                                TypeId(handed.types.len() as u32),
                            ),
                        ),
                        Err(said) => Err(said),
                    },
                    Err(said) => Err(said),
                }
            } else {
                worked_out(source, store, store.ctors.len(), scheme, slots)
            },
            Err(said) => Err(said),
        },
        Err(said) => Err(said),
    }
}

/// What a text says, as a program.
pub open spec fn parsed(text: Seq<char>) -> Result<Store, Seq<char>> {
    match syntax::source(text) {
        Ok(source) => built(source),
        Err(said) => Err(said),
    }
}

proof fn declaring_stops_where_one_does(
    store: Store,
    scheme: SchemeForm,
    slots: Slots,
    count: nat,
    all: nat,
)
    requires
        count <= all,
    ensures
        functions_declared(store, scheme, slots, count) matches Err(said) ==> functions_declared(
            store,
            scheme,
            slots,
            all,
        ) == Err::<Store, _>(said),
    decreases all,
{
    if count < all {
        declaring_stops_where_one_does(store, scheme, slots, count, (all - 1) as nat);
    }
}

fn mentions(term: &Term, name: &str) -> (found: bool)
    ensures
        found == term_mentions(term@, name@),
    decreases term@,
{
    match term {
        Term::Name(held) => text::same(held.as_str(), name),
        Term::Apply(held, args) => {
            if text::same(held.as_str(), name) {
                return true;
            }
            proof {
                syntax::forms_are_each(args@);
            }
            let ghost all = syntax::term_forms(args@);
            let mut at: usize = 0;
            let mut found = false;
            assert(all.take(0) =~= seq![]);
            while at < args.len()
                invariant
                    *term == (Term::Apply(*held, *args)),
                    term@ == TermForm::Apply(held@, all),
                    all == syntax::term_forms(args@),
                    all.len() == args@.len(),
                    forall|i: int| 0 <= i < args@.len() ==> #[trigger] all[i] == args@[i]@,
                    at <= args@.len(),
                    found == terms_mention(all.take(at as int), name@),
                decreases args@.len() - at,
            {
                proof {
                    assert(all.take(at + 1).drop_last() =~= all.take(at as int));
                    assert(all.take(at + 1).last() == args@[at as int]@);
                    assert(all[at as int] == args@[at as int]@);
                    assert(decreases_to!(term@ => term@->Apply_1));
                    assert(decreases_to!(all => all[at as int]));
                }
                if mentions(&args[at], name) {
                    found = true;
                }
                at = at + 1;
            }
            assert(all.take(at as int) =~= all);
            found
        },
    }
}

fn mentioned(functions: &Vec<Definition>, name: &str) -> (found: bool)
    ensures
        found == functions_mention(
            syntax::function_forms(functions@),
            name@,
            functions@.len(),
        ),
{
    let ghost forms = syntax::function_forms(functions@);
    let mut found = false;
    let mut at: usize = 0;
    while at < functions.len()
        invariant
            forms == syntax::function_forms(functions@),
            at <= functions@.len(),
            found == functions_mention(forms, name@, at as nat),
        decreases functions@.len() - at,
    {
        let clauses = &functions[at].clauses;
        let ghost held = forms[at as int].clauses;
        assert(held =~= syntax::clause_forms(clauses@));
        let mut here = false;
        let mut next: usize = 0;
        while next < clauses.len()
            invariant
                held == syntax::clause_forms(clauses@),
                next <= clauses@.len(),
                here == clauses_mention(held, name@, next as nat),
            decreases clauses@.len() - next,
        {
            let clause = &clauses[next];
            let ghost steps = clause@.steps;
            assert(held[next as int] == clause@);
            let mut inside = false;
            let mut step: usize = 0;
            while step < clause.steps.len()
                invariant
                    steps == clause@.steps,
                    steps == syntax::step_forms(clause.steps@),
                    step <= clause.steps@.len(),
                    inside == steps_mention(steps, name@, step as nat),
                decreases clause.steps@.len() - step,
            {
                assert(steps[step as int] == clause.steps@[step as int]@);
                if mentions(&clause.steps[step].term, name) {
                    inside = true;
                }
                step = step + 1;
            }
            if inside || mentions(&clause.body, name) {
                here = true;
            }
            next = next + 1;
        }
        if here {
            found = true;
        }
        at = at + 1;
    }
    found
}

/// Declare every function, as what was worked out of it.
fn declare_functions(program: &mut Program, scheme: &Scheme, slots: &mut Unify) -> (done: Result<
    (),
    String,
>)
    requires
        old(program)@.wf(),
        old(program)@.functions.len() == 0,
        old(slots).wf(),
        old(slots)@.fits(),
        scheme@.fits(old(slots)@.len()),
        forall|i: int|
            0 <= i < old(slots)@.known.len() ==> ((#[trigger] old(slots)@.known[i]) matches Some(id)
                ==> id.0 < old(program)@.types.len()),
    ensures
        final(program)@.wf(),
        match done {
            Ok(_) => {
                &&& functions_declared(
                    old(program)@,
                    scheme@,
                    old(slots)@,
                    scheme@.names.len(),
                ) == Ok::<_, Seq<char>>(final(program)@)
                &&& final(program)@.ctors == old(program)@.ctors
                &&& final(program)@.functions.len() == scheme@.names.len()
                &&& forall|i: int|
                    0 <= i < scheme@.names.len() ==> (#[trigger] final(
                        program)@.functions[i]).params.len == scheme@.arity[i]
            },
            Err(said) => functions_declared(
                old(program)@,
                scheme@,
                old(slots)@,
                scheme@.names.len(),
            ) == Err::<Store, _>(said@),
        },
{
    let ghost start = program@;
    let ghost known = slots@;
    let ghost forms = scheme@;
    let count: usize = scheme.len();
    let mut at: usize = 0;
    while at < count
        invariant
            start == old(program)@,
            known == old(slots)@,
            forms == scheme@,
            count == forms.names.len(),
            slots.wf(),
            slots@ == known,
            known.fits(),
            forms.fits(known.len()),
            program@.wf(),
            program@.types == start.types,
            program@.ctors == start.ctors,
            forall|i: int|
                0 <= i < known.known.len() ==> ((#[trigger] known.known[i]) matches Some(id)
                    ==> id.0 < start.types.len()),
            at <= count,
            program@.functions.len() == at,
            forall|i: int|
                0 <= i < at ==> (#[trigger] program@.functions[i]).params.len == forms.arity[i],
            functions_declared(start, forms, known, at as nat) == Ok::<_, Seq<char>>(program@),
        decreases count - at,
    {
        proof {
            declaring_stops_where_one_does(start, forms, known, at as nat + 1, count as nat);
            assert(forms.base[at as int] + forms.arity[at as int] < known.len());
        }
        let name = scheme.name(at);
        let arity: usize = scheme.arity(at);
        let base: usize = scheme.base(at);
        let taken: usize = slots.len();
        let ghost want = told_params(known, forms, at as int);
        let mut params: Vec<TypeId> = Vec::new();
        let mut next: usize = 0;
        while next < arity
            invariant
                slots.wf(),
                slots@ == known,
                known.fits(),
                known.len() == taken,
                forms.base[at as int] == base,
                forms.arity[at as int] == arity,
                0 <= at < forms.names.len() == forms.arity.len(),
                base + arity < taken,
                forall|i: int|
                    0 <= i < known.known.len() ==> ((#[trigger] known.known[i]) matches Some(id)
                        ==> id.0 < start.types.len()),
                name@ == forms.names[at as int],
                want == told_params(known, forms, at as int),
                next <= arity,
                params@ == want.take(next as int),
                forall|i: int| 0 <= i < next ==> (#[trigger] known.get(base + i)) is Some,
                forall|i: int|
                    0 <= i < params@.len() ==> (#[trigger] params@[i]).0 < start.types.len(),
                start == old(program)@,
                known == old(slots)@,
                forms == scheme@,
                functions_declared(start, forms, known, at as nat) is Ok,
                program@.wf(),
                functions_declared(start, forms, known, at as nat + 1) matches Err(said)
                    ==> functions_declared(start, forms, known, forms.names.len()) == Err::<
                    Store,
                    _,
                >(said),
            decreases arity - next,
        {
            match slots.get(base + next) {
                Some(id) => {
                    params.push(id);
                    assert(known.known[known.root[base + next]] == Some(id));
                    assert(params@ =~= want.take(next + 1));
                },
                None => {
                    assert(known.get(forms.base[at as int] + next as int) is None);
                    assert(!is_told(known, forms, at as int));
                    return Err(text::around("nothing says what type `", name, "` works over"));
                },
            }
            next = next + 1;
        }
        assert(params@ =~= want);
        let result = match slots.get(base + arity) {
            Some(id) => id,
            None => {
                assert(known.get(forms.base[at as int] + arity as int) is None);
                assert(!is_told(known, forms, at as int));
                return Err(text::around("nothing says what type `", name, "` works over"));
            },
        };
        assert(known.known[known.root[base + arity]] == Some(result));
        assert(is_told(known, forms, at as int));
        if !fits(program, name, arity) {
            return Err(outgrown());
        }
        let ghost before = program@;
        program.declare(name, params.as_slice(), result);
        proof {
            assert forall|i: int| 0 <= i < at + 1 implies (
            #[trigger] program@.functions[i]).params.len == forms.arity[i] by {
                if i < at {
                    assert(program@.functions[i] == before.functions[i]);
                }
            }
        }
        at = at + 1;
    }
    Ok(())
}

/// Read a program. One that is read is typed, takes one thing apart at most in
/// every function, and means what its clauses say.
pub fn parse(text: &str) -> (read: Result<Program, String>)
    ensures
        match read {
            Ok(program) => parsed(text@) == Ok::<_, Seq<char>>(program@) && program@.wf()
                && program@.typed() && program@.flat() && telling::is_told_by(
                syntax::source(text@)->Ok_0,
                program@,
            ),
            Err(said) => parsed(text@) == Err::<Store, _>(said@),
        },
{
    match syntax::read(text) {
        Ok(source) => {
            let made = build(&source);
            proof {
                if made is Ok {
                    telling::what_is_built_is_told(source@, made->Ok_0@);
                }
            }
            made
        },
        Err(said) => Err(said),
    }
}

/// Turn what was read into a program.
fn build(source: &Source) -> (made: Result<Program, String>)
    requires
        source@.is_written(),
    ensures
        match made {
            Ok(program) => built(source@) == Ok::<_, Seq<char>>(program@) && program@.wf()
                && program@.typed() && program@.flat(),
            Err(said) => built(source@) == Err::<Store, _>(said@),
        },
{
    let ghost form = source@;
    let mut program = Program::new();
    if let Err(said) = declare_types(&mut program, &source.types) {
        return Err(said);
    }
    let ghost store = program@;
    proof {
        assert forall|f: int| 0 <= f < source.functions@.len() implies (
        #[trigger] source.functions@[f]).clauses@.len() > 0 by {
            assert(form.functions[f] == source.functions@[f]@);
        }
    }
    let ctors: usize = program.count_ctors();
    let (mut scheme, mut slots): (Scheme, Unify) = match lay_out(&source.functions) {
        Ok(laid) => laid,
        Err(said) => {
            return Err(said);
        },
    };
    let ghost plain = scheme@;
    let ghost free = slots@;
    if mentioned(&source.functions, "exit!") && scheme.named("exit!") >= scheme.len() {
        let host = match declare_token(&mut program, "Host") {
            Ok(host) => host,
            Err(said) => {
                return Err(said);
            },
        };
        let nothing = match declare_token(&mut program, "Nothing") {
            Ok(nothing) => nothing,
            Err(said) => {
                return Err(said);
            },
        };
        let base: usize = slots.fresh();
        let status: usize = slots.fresh();
        let answer: usize = slots.fresh();
        proof {
            reveal_with_fuel(spread, 4);
            assert(slots@ =~= spread(free, 3));
        }
        let pinned = slots.pin(base, host);
        assert(pinned is Ok);
        let pinned = slots.pin(answer, nothing);
        assert(pinned is Ok);
        assert(slots@ == exit_told(free, host, nothing));
        scheme.add("exit!", 2, base);
        proof {
            assert(scheme@ == plain.with("exit!"@, 2, free.len() as int));
            assert(exits(form, plain));
        }
    } else {
        assert(!exits(form, plain));
    }
    work_out(source, program, ctors as u32, &scheme, slots)
}

/// Work out what every function takes and answers, then compile it.
fn work_out(source: &Source, program: Program, ctors: u32, scheme: &Scheme, slots: Unify) -> (made:
    Result<Program, String>)
    requires
        source@.is_written(),
        program@.wf(),
        program@.functions.len() == 0,
        ctors <= program@.ctors.len(),
        slots.wf(),
        slots_fit(
            (WorldForm { store: program@, ctors: ctors as nat, scheme: scheme@ }),
            slots@,
        ),
        source@.functions.len() <= scheme@.names.len(),
        forall|f: int, c: int|
            0 <= f < source.functions@.len() && 0 <= c < source.functions@[f].clauses@.len() ==> (
            #[trigger] source.functions@[f].clauses@[c])@.patterns.len() == scheme@.arity[f],
    ensures
        match made {
            Ok(done) => worked_out(source@, program@, ctors as nat, scheme@, slots@) == Ok::<
                _,
                Seq<char>,
            >(done@) && done@.wf() && done@.typed() && done@.flat(),
            Err(said) => worked_out(source@, program@, ctors as nat, scheme@, slots@) == Err::<
                Store,
                _,
            >(said@),
        },
{
    let ghost form = source@;
    proof {
        let world = WorldForm { store: program@, ctors: ctors as nat, scheme: scheme@ };
        assert(agreement::steady(world, form.functions)) by {
            assert forall|f: int| 0 <= f < form.functions.len() implies (
            #[trigger] form.functions[f]).clauses.len() > 0 && forall|c: int|
                0 <= c < form.functions[f].clauses.len() ==> (
                #[trigger] form.functions[f].clauses[c]).patterns.len()
                    == scheme@.arity[f] by {
                assert(form.functions[f] == source.functions@[f]@);
                assert forall|c: int| 0 <= c < form.functions[f].clauses.len() implies (
                #[trigger] form.functions[f].clauses[c]).patterns.len()
                    == scheme@.arity[f] by {
                    assert(form.functions[f].clauses[c] == source.functions@[f].clauses@[c]@);
                }
            }
        }
        agreement::a_worked_out_program_is_typed(
            form,
            program@,
            ctors as nat,
            scheme@,
            slots@,
        );
    }
    let mut told: Unify = slots;
    let mut program: Program = program;
    {
        let world = World { program: &program, ctors, scheme };
        if let Err(said) = world.functions(&mut told, &source.functions) {
            return Err(said);
        }
    }
    if let Err(said) = declare_functions(&mut program, scheme, &mut told) {
        return Err(said);
    }
    let ghost declared = program@;
    let main: usize = scheme.named("main");
    if main < scheme.len() {
        program.set_entry(FnId(main as u32));
    } else {
        let main: usize = scheme.named("main!");
        if main < scheme.len() {
            program.set_entry(FnId(main as u32));
        }
    }
    let ghost start = program@;
    assert(start == with_main(declared, scheme@));
    proof {
        assert forall|f: int| 0 <= f < source.functions@.len() implies (
        #[trigger] source.functions@[f]).clauses@.len() > 0 by {
            assert(form.functions[f] == source.functions@[f]@);
        }
    }
    let lowering = Lowering { ctors, scheme };
    lowering.functions(program, &source.functions)
}

impl<'a> Lowering<'a> {
    /// Compile every function's clauses into its body.
    fn functions(&self, program: Program, functions: &Vec<Definition>) -> (made: Result<
        Program,
        String,
    >)
        requires
            program@.wf(),
            self@.fits(program@),
            functions@.len() <= self@.scheme.names.len() == program@.functions.len(),
            forall|f: int|
                0 <= f < functions@.len() ==> (#[trigger] functions@[f]).clauses@.len() > 0,
            forall|f: int, c: int|
                0 <= f < functions@.len() && 0 <= c < functions@[f].clauses@.len() ==> (
                #[trigger] functions@[f].clauses@[c])@.patterns.len() == self@.scheme.arity[f],
            forall|i: int|
                0 <= i < self@.scheme.names.len() ==> (#[trigger] program@.functions[i]).params.len
                    == self@.scheme.arity[i],
        ensures
            match made {
                Ok(done) => self@.functions_built(
                    program@,
                    syntax::function_forms(functions@),
                    functions@.len(),
                ) == Ok::<_, Seq<char>>(done@) && done@.wf(),
                Err(said) => self@.functions_built(
                    program@,
                    syntax::function_forms(functions@),
                    functions@.len(),
                ) == Err::<Store, _>(said@),
            },
    {
        let ghost forms = syntax::function_forms(functions@);
        let ghost start = program@;
        let ghost arity = self@.scheme.arity;
        let mut work: Program = program;
        let mut at: usize = 0;
        while at < functions.len()
            invariant
                start == program@,
                forms == syntax::function_forms(functions@),
                work@.wf(),
                self@.fits(work@),
                arity == self@.scheme.arity,
                functions@.len() <= self@.scheme.names.len() == work@.functions.len(),
                forall|f: int|
                    0 <= f < functions@.len() ==> (#[trigger] functions@[f]).clauses@.len() > 0,
                forall|f: int, c: int|
                    0 <= f < functions@.len() && 0 <= c < functions@[f].clauses@.len() ==> (
                    #[trigger] functions@[f].clauses@[c])@.patterns.len() == arity[f],
                forall|i: int|
                    0 <= i < work@.functions.len() ==> (#[trigger] work@.functions[i]).params.len
                        == arity[i],
                at <= functions@.len(),
                self@.functions_built(start, forms, at as nat) == Ok::<_, Seq<char>>(work@),
            decreases functions@.len() - at,
        {
            let ghost before = work@;
            proof {
                assert(forms[at as int] == functions@[at as int]@);
                building_stops_where_one_does(
                    self@,
                    start,
                    forms,
                    at as nat + 1,
                    forms.len(),
                );
                assert(before.functions[at as int].params.len == arity[at as int]);
            }
            match self.define(work, FnId(at as u32), &functions[at].clauses) {
                Ok(made) => {
                    proof {
                        assert forall|i: int| 0 <= i < made@.functions.len() implies (
                        #[trigger] made@.functions[i]).params.len == arity[i] by {
                            assert(made@.functions[i].params == before.functions[i].params);
                        }
                    }
                    work = made;
                },
                Err(said) => {
                    return Err(said);
                },
            }
            at = at + 1;
        }
        Ok(work)
    }
}

} // verus!
