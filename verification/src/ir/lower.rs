//! Lowering barb into the machine tier.
//!
//! This is where a value stops being a term and becomes storage, which is
//! this tier's job rather than barb's or a target's. One rule so far:
//!
//! - a spine-shaped type whose elements carry nothing is a number, and a
//!   number is a machine word. `Zero` is nought, `Succ(n)` is `n + 1`, and
//!   matching one asks whether it is nought.
//!
//! That is sound only while the number fits a word. A bound says when, and
//! nothing derives bounds yet, so this is a placeholder for the rule rather
//! than the rule.

use super::builder::{Builder, Draft};
use super::model::{
    Binary, Class, Exit, FunctionId, Op, Parts, PlatformId, Range, RegionId, Relation, ValueId,
};
use super::validate::validate;
use super::Program;
use crate::barb;
use crate::barb::constant;
use crate::pool::outgrown;
use crate::{pool, text};
use vstd::prelude::*;
use vstd::string::StringExecFns;

verus! {

/// A type with one constructor and no fields says nothing by being one value
/// rather than another, so it needs no bits and no argument. The authority a
/// program is handed is such a type, and so is what an effect answers when it
/// answers nothing.
pub open spec fn is_erased(store: barb::Store, id: barb::TypeId) -> bool {
    let ctors = store.ctors_of(id);
    ctors.len() == 1 && ctors[0].fields.len == 0
}

/// The class a type's values take, where it takes one. Only numbers are
/// decided so far.
pub open spec fn represented(store: barb::Store, id: barb::TypeId) -> Result<
    Option<Class>,
    Seq<char>,
> {
    let name = store.name(store.type_(id).name);
    if is_erased(store, id) {
        Ok(None)
    } else if store.is_number(id) {
        Ok(Some(Class::Word))
    } else if store.shape(id) is Spine {
        Err(
            "`"@ + name
                + "` carries something per element, which has no representation in this tier yet"@,
        )
    } else {
        Err("`"@ + name + "` has no representation in this tier yet"@)
    }
}

/// The class each of the first `count` types takes.
pub open spec fn classes_found(store: barb::Store, count: nat) -> Result<
    Seq<Option<Class>>,
    Seq<char>,
>
    decreases count,
{
    if count == 0 {
        Ok(seq![])
    } else {
        match classes_found(store, (count - 1) as nat) {
            Ok(found) => match represented(store, barb::TypeId((count - 1) as u32)) {
                Ok(class) => Ok(found.push(class)),
                Err(said) => Err(said),
            },
            Err(said) => Err(said),
        }
    }
}

/// The class something takes, and nothing where it is erased.
pub open spec fn listed(class: Option<Class>) -> Seq<Class> {
    match class {
        Some(class) => seq![class],
        None => seq![],
    }
}

/// The classes that the first `count` of some types take. One that carries
/// nothing takes no slot.
pub open spec fn classes_of(
    classes: Seq<Option<Class>>,
    types: Seq<barb::TypeId>,
    count: nat,
) -> Seq<Class>
    decreases count,
{
    if count == 0 {
        seq![]
    } else {
        classes_of(classes, types, (count - 1) as nat) + listed(classes[types[count - 1].0 as int])
    }
}

/// What a definition becomes: a function, an instruction, or a routine
/// something outside provides.
#[derive(Clone, Copy, Debug, PartialEq, Eq, Structural)]
pub enum Place {
    Function(FunctionId),
    Instruction,
    Routine(PlatformId),
}

/// The routine a name stands for. The `!` says the program may observe it
/// working; the routine a target provides is named without it.
pub open spec fn routine_name(name: Seq<char>) -> Seq<char> {
    if barb::infer::is_effectful(name) {
        name.drop_last()
    } else {
        name
    }
}

/// How much room declaring something takes.
pub open spec fn declaring(name: Seq<char>, params: nat, answers: nat) -> nat {
    vstd::utf8::encode_utf8(name).len() + params + answers + 1
}

/// The first `count` definitions, declared as what each becomes.
pub open spec fn declared(
    store: barb::Store,
    facts: Seq<Option<barb::Operation>>,
    classes: Seq<Option<Class>>,
    entry: barb::FnId,
    start: Parts,
    count: nat,
) -> Result<(Parts, Seq<Place>), Seq<char>>
    decreases count,
{
    if count == 0 {
        Ok((start, seq![]))
    } else {
        match declared(store, facts, classes, entry, start, (count - 1) as nat) {
            Ok((parts, places)) => {
                let id = barb::FnId((count - 1) as u32);
                let function = store.function(id);
                let name = store.name(function.name);
                let params = classes_of(classes, store.params(id), store.params(id).len());
                let answers = listed(classes[function.result.0 as int]);
                if id == entry {
                    Ok((parts, places.push(Place::Function(FunctionId(0)))))
                } else if barb::facts::known_of(facts, id) is Some {
                    Ok((parts, places.push(Place::Instruction)))
                } else if function.defined {
                    if parts.room(declaring(name, params.len(), answers.len())) {
                        Ok(
                            (
                                parts.with_function(name, params, answers),
                                places.push(
                                    Place::Function(FunctionId(parts.functions.len() as u32)),
                                ),
                            ),
                        )
                    } else {
                        Err(pool::too_large())
                    }
                } else if parts.room(declaring(routine_name(name), params.len(), answers.len())) {
                    Ok(
                        (
                            parts.with_platform(routine_name(name), params, answers),
                            places.push(Place::Routine(PlatformId(parts.platform.len() as u32))),
                        ),
                    )
                } else {
                    Err(pool::too_large())
                }
            },
            Err(said) => Err(said),
        }
    }
}

proof fn declaring_stops_where_one_does(
    store: barb::Store,
    facts: Seq<Option<barb::Operation>>,
    classes: Seq<Option<Class>>,
    entry: barb::FnId,
    start: Parts,
    count: nat,
    all: nat,
)
    requires
        count <= all,
    ensures
        declared(store, facts, classes, entry, start, count) matches Err(said) ==> declared(
            store,
            facts,
            classes,
            entry,
            start,
            all,
        ) == Err::<(Parts, Seq<Place>), _>(said),
    decreases all,
{
    if count < all {
        declaring_stops_where_one_does(
            store,
            facts,
            classes,
            entry,
            start,
            count,
            (all - 1) as nat,
        );
    }
}

proof fn representing_stops_where_one_does(store: barb::Store, count: nat, all: nat)
    requires
        count <= all,
    ensures
        classes_found(store, count) matches Err(said) ==> classes_found(store, all) == Err::<
            Seq<Option<Class>>,
            _,
        >(said),
    decreases all,
{
    if count < all {
        representing_stops_where_one_does(store, count, (all - 1) as nat);
    }
}

fn erased(program: &barb::Program, id: barb::TypeId) -> (erased: bool)
    requires
        program@.wf(),
        id.0 < program@.types.len(),
    ensures
        erased == is_erased(program@, id),
{
    let ctors = program.ctors(id);
    ctors.len() == 1 && ctors[0].fields.is_empty()
}

/// The class a type's values take. Only numbers are decided so far.
fn represent(program: &barb::Program, id: barb::TypeId) -> (class: Result<Option<Class>, String>)
    requires
        program@.wf(),
        id.0 < program@.types.len(),
    ensures
        match class {
            Ok(found) => represented(program@, id) == Ok::<_, Seq<char>>(found),
            Err(said) => represented(program@, id) == Err::<Option<Class>, _>(said@),
        },
{
    proof {
        assert(program@.type_fits(id.0 as int));
        constant::a_spine_has_two_ends(program@, id);
    }
    if erased(program, id) {
        return Ok(None);
    }
    let name = program.name(program.type_(id).name);
    match barb::shape(program, id) {
        barb::Shape::Spine { cons, .. } => {
            if program.fields(cons).len() == 1 {
                Ok(Some(Class::Word))
            } else {
                Err(
                    text::around(
                        "`",
                        name,
                        "` carries something per element, which has no representation in this tier yet",
                    ),
                )
            }
        },
        barb::Shape::Tagged => Err(
            text::around("`", name, "` has no representation in this tier yet"),
        ),
    }
}

/// The class every type takes.
fn represent_all(program: &barb::Program) -> (classes: Result<Vec<Option<Class>>, String>)
    requires
        program@.wf(),
    ensures
        match classes {
            Ok(found) => classes_found(program@, program@.types.len()) == Ok::<_, Seq<char>>(
                found@,
            ) && found@.len() == program@.types.len(),
            Err(said) => classes_found(program@, program@.types.len()) == Err::<
                Seq<Option<Class>>,
                _,
            >(said@),
        },
{
    let count: usize = program.types().len();
    let mut classes: Vec<Option<Class>> = Vec::new();
    let mut at: usize = 0;
    assert(classes@ =~= seq![]);
    while at < count
        invariant
            program@.wf(),
            at <= count == program@.types.len(),
            classes@.len() == at,
            classes_found(program@, at as nat) == Ok::<_, Seq<char>>(classes@),
        decreases count - at,
    {
        proof {
            representing_stops_where_one_does(program@, at as nat + 1, count as nat);
        }
        match represent(program, barb::TypeId(at as u32)) {
            Ok(class) => classes.push(class),
            Err(said) => {
                return Err(said);
            },
        }
        at = at + 1;
    }
    Ok(classes)
}

/// The classes that some types take.
fn pick(classes: &Vec<Option<Class>>, types: &[barb::TypeId]) -> (picked: Vec<Class>)
    requires
        forall|i: int| 0 <= i < types@.len() ==> (#[trigger] types@[i]).0 < classes@.len(),
    ensures
        picked@ == classes_of(classes@, types@, types@.len()),
        picked@.len() <= types@.len(),
{
    let mut picked: Vec<Class> = Vec::new();
    let mut at: usize = 0;
    assert(picked@ =~= seq![]);
    while at < types.len()
        invariant
            forall|i: int| 0 <= i < types@.len() ==> (#[trigger] types@[i]).0 < classes@.len(),
            at <= types@.len(),
            picked@ == classes_of(classes@, types@, at as nat),
            picked@.len() <= at,
        decreases types@.len() - at,
    {
        let ghost before = picked@;
        assert(types@[at as int].0 < classes@.len());
        if let Some(class) = classes[types[at].index()] {
            picked.push(class);
        }
        at = at + 1;
        assert(picked@ =~= before + listed(classes@[types@[at - 1].0 as int]));
    }
    picked
}

/// A name without the mark that says it may do observable work.
fn unmarked(name: &str) -> (bare: String)
    ensures
        bare@ == routine_name(name@),
{
    let characters = text::characters(name);
    let count: usize = if barb::infer::effectful(name) {
        characters.len() - 1
    } else {
        characters.len()
    };
    let mut bare = String::new();
    let mut at: usize = 0;
    assert(bare@ =~= name@.take(0));
    while at < count
        invariant
            at <= count <= characters@.len(),
            characters@ == name@,
            bare@ == name@.take(at as int),
        decreases count - at,
    {
        bare.push(characters[at]);
        at = at + 1;
        assert(bare@ =~= name@.take(at as int));
    }
    assert(bare@ =~= routine_name(name@));
    bare
}

/// Whether a declaration fits.
fn fits(program: &Program, name: &str, params: usize, answers: usize) -> (fits: bool)
    ensures
        fits == program@.room(declaring(name@, params as nat, answers as nat)),
{
    let count: usize = name.as_bytes().len();
    if count > u32::MAX as usize || params > u32::MAX as usize || answers > u32::MAX as usize {
        return false;
    }
    let all: u64 = count as u64 + params as u64 + answers as u64 + 1;
    all <= u32::MAX as u64 && program.has_room(all as u32)
}

/// Every definition, as what it becomes: a function, an instruction, or a
/// routine something outside provides.
fn declare(
    program: &barb::Program,
    facts: &barb::Facts,
    classes: &Vec<Option<Class>>,
    machine: &mut Program,
    entry: barb::FnId,
) -> (done: Result<Vec<Place>, String>)
    requires
        program@.wf(),
        classes@.len() == program@.types.len(),
        old(machine)@.wf(),
        old(machine)@.functions.len() > 0,
    ensures
        final(machine)@.wf(),
        match done {
            Ok(places) => {
                &&& declared(
                    program@,
                    facts@,
                    classes@,
                    entry,
                    old(machine)@,
                    program@.functions.len(),
                ) == Ok::<_, Seq<char>>((final(machine)@, places@))
                &&& places_fit(final(machine)@, places@)
                &&& places@.len() == program@.functions.len()
            },
            Err(said) => declared(
                program@,
                facts@,
                classes@,
                entry,
                old(machine)@,
                program@.functions.len(),
            ) == Err::<(Parts, Seq<Place>), _>(said@),
        },
{
    let ghost store = program@;
    let ghost start = machine@;
    let count: usize = program.functions().len();
    let mut places: Vec<Place> = Vec::new();
    let mut at: usize = 0;
    assert(places@ =~= seq![]);
    while at < count
        invariant
            store == program@,
            store.wf(),
            start == old(machine)@,
            classes@.len() == store.types.len(),
            machine@.wf(),
            machine@.functions.len() > 0,
            at <= count == store.functions.len(),
            places@.len() == at,
            places_fit(machine@, places@),
            declared(store, facts@, classes@, entry, start, at as nat) == Ok::<_, Seq<char>>(
                (machine@, places@),
            ),
        decreases count - at,
    {
        let id = barb::FnId(at as u32);
        let ghost before = machine@;
        proof {
            declaring_stops_where_one_does(
                store,
                facts@,
                classes@,
                entry,
                start,
                at as nat + 1,
                count as nat,
            );
            assert(store.function_fits(at as int));
        }
        if id.0 == entry.0 {
            places.push(Place::Function(FunctionId(0)));
        } else if facts.operation(id).is_some() {
            // A definition the tier below has an instruction for is never
            // emitted: its callers write the instruction instead.
            places.push(Place::Instruction);
        } else {
            let function = *program.function(id);
            let types = program.params(id);
            proof {
                assert forall|i: int| 0 <= i < types@.len() implies (#[trigger] types@[i]).0
                    < classes@.len() by {
                    assert(types@[i] == store.types_pool[store.function(id).params.start + i]);
                }
            }
            let params = pick(classes, types);
            let mut answers: Vec<Class> = Vec::new();
            if let Some(class) = classes[function.result.index()] {
                answers.push(class);
            }
            assert(answers@ =~= listed(classes@[function.result.0 as int]));
            let name = program.name(function.name);
            // One something else answers for is a platform routine rather
            // than a function: the program declares it and a target
            // provides it.
            if function.defined {
                if !fits(machine, name, params.len(), answers.len()) {
                    return Err(outgrown());
                }
                let declared = machine.declare(name, params.as_slice(), answers.as_slice());
                places.push(Place::Function(declared));
            } else {
                let routine = unmarked(name);
                if !fits(machine, routine.as_str(), params.len(), answers.len()) {
                    return Err(outgrown());
                }
                let provided = machine.platform(
                    routine.as_str(),
                    params.as_slice(),
                    answers.as_slice(),
                );
                places.push(Place::Routine(provided));
            }
        }
        at = at + 1;
    }
    Ok(places)
}

/// Whether every function and routine named is one there is.
pub open spec fn places_fit(parts: Parts, places: Seq<Place>) -> bool {
    forall|i: int|
        0 <= i < places.len() ==> match #[trigger] places[i] {
            Place::Function(function) => function.0 < parts.functions.len(),
            Place::Instruction => true,
            Place::Routine(platform) => platform.0 < parts.platform.len(),
        }
}

/// A region, then an instruction in it.
pub open spec fn pushed(draft: Draft, op: Op, classes: Seq<Class>) -> Result<Draft, Seq<char>> {
    if draft.program.room(classes.len()) {
        Ok(draft.push(op, classes))
    } else {
        Err(pool::too_large())
    }
}

/// The value the next instruction of one result defines.
pub open spec fn next(draft: Draft) -> ValueId {
    ValueId(draft.program.classes.len() as u32)
}

pub open spec fn constant_pushed(draft: Draft, class: Class, value: u64) -> Result<
    (Draft, ValueId),
    Seq<char>,
> {
    match pushed(
        draft,
        Op::Constant { class, value: super::model::wrapped(class, value) },
        seq![class],
    ) {
        Ok(after) => Ok((after, next(draft))),
        Err(said) => Err(said),
    }
}

pub open spec fn binary_pushed(draft: Draft, op: Binary, left: ValueId, right: ValueId) -> Result<
    (Draft, ValueId),
    Seq<char>,
> {
    match pushed(draft, Op::Binary { op, left, right }, seq![draft.program.class(left)]) {
        Ok(after) => Ok((after, next(draft))),
        Err(said) => Err(said),
    }
}

/// What a term cannot be lowered for, where it is not one a program says.
pub open spec fn unbound() -> Seq<char> {
    "a term reads something that is not bound to anything"@
}

/// The value an atom stands for, where it stands for one.
pub open spec fn read_local(locals: Seq<Option<ValueId>>, atom: barb::Atom) -> Result<
    Option<ValueId>,
    Seq<char>,
> {
    if atom.0.0 < locals.len() {
        Ok(locals[atom.0.0 as int])
    } else {
        Err(unbound())
    }
}

/// The value an atom stands for, which must stand for one.
pub open spec fn read_value(locals: Seq<Option<ValueId>>, atom: barb::Atom) -> Result<
    ValueId,
    Seq<char>,
> {
    if atom.0.0 < locals.len() && locals[atom.0.0 as int] is Some {
        Ok(locals[atom.0.0 as int]->Some_0)
    } else {
        Err(unbound())
    }
}

/// What the first `count` atoms pass. An argument that carries nothing is not
/// passed.
pub open spec fn passed(locals: Seq<Option<ValueId>>, atoms: Seq<barb::Atom>, count: nat) -> Result<
    Seq<ValueId>,
    Seq<char>,
>
    decreases count,
{
    if count == 0 {
        Ok(seq![])
    } else {
        match passed(locals, atoms, (count - 1) as nat) {
            Ok(values) => match read_local(locals, atoms[count - 1]) {
                Ok(Some(value)) => Ok(values.push(value)),
                Ok(None) => Ok(values),
                Err(said) => Err(said),
            },
            Err(said) => Err(said),
        }
    }
}

/// Which locals stand for a value.
pub open spec fn carrying(locals: Seq<Option<ValueId>>) -> Seq<bool> {
    Seq::new(locals.len(), |i: int| locals[i] is Some)
}

/// Where the first arm that is not for a constructor is, from `from` on.
pub open spec fn other_arm(arms: Seq<barb::Arm>, ctor: barb::CtorId, from: int) -> int
    decreases arms.len() - from,
{
    if from >= arms.len() || arms[from].ctor != ctor {
        from
    } else {
        other_arm(arms, ctor, from + 1)
    }
}

/// A value that leaves a region, where one does.
pub open spec fn leaving(value: Option<ValueId>) -> Seq<ValueId> {
    match value {
        Some(value) => seq![value],
        None => seq![],
    }
}

/// Everything lowering a body goes by.
#[verifier::ext_equal]
pub struct FrameForm {
    pub store: barb::Store,
    pub facts: Seq<Option<barb::Operation>>,
    /// The class each barb type takes, by type, and nothing where it is
    /// erased.
    pub classes: Seq<Option<Class>>,
    /// What each barb function became, by function.
    pub places: Seq<Place>,
}

impl FrameForm {
    pub open spec fn fits(self, parts: Parts) -> bool {
        &&& self.store.wf()
        &&& self.classes.len() == self.store.types.len()
        &&& self.places.len() == self.store.functions.len()
        &&& places_fit(parts, self.places)
    }

    /// Whether a value of each type carries something.
    pub open spec fn carrying(self, types: Seq<barb::TypeId>) -> Seq<bool> {
        Seq::new(types.len(), |i: int| self.classes[types[i].0 as int] is Some)
    }

    /// The class a term answers, where it answers anything: `carried` says
    /// which locals carry something.
    pub open spec fn answers(self, expr: barb::ExprId, carried: Seq<bool>) -> Option<Class>
        decreases expr.0,
    {
        match self.store.expr(expr) {
            barb::Expr::Static(id, _) => self.classes[id.0 as int],
            barb::Expr::Con(ctor, _) => self.classes[self.store.ctor(ctor).owner.0 as int],
            barb::Expr::Call(function, _) => self.classes[self.store.function(
                function,
            ).result.0 as int],
            barb::Expr::Let(value, body) => if value.0 < expr.0 && body.0 < expr.0 {
                self.answers(body, carried.push(self.answers(value, carried) is Some))
            } else {
                None
            },
            barb::Expr::Match(_, arms) => {
                let first = self.store.arms[arms.start as int];
                if arms.len > 0 && first.body.0 < expr.0 {
                    self.answers(
                        first.body,
                        carried + self.carrying(self.store.fields(first.ctor)),
                    )
                } else {
                    None
                }
            },
            barb::Expr::Atom(atom) => if atom.0.0 < carried.len() && carried[atom.0.0 as int] {
                Some(Class::Word)
            } else {
                None
            },
        }
    }

    /// An instruction where the tier below has one, a platform routine where
    /// something outside answers, and a call otherwise.
    pub open spec fn call_lowered(self, draft: Draft, function: barb::FnId, args: Seq<ValueId>) -> Result<
        (Draft, Option<ValueId>),
        Seq<char>,
    > {
        let run = Range::from(draft.program.operands.len(), args.len());
        if barb::facts::known_of(self.facts, function) == Some(barb::Operation::Add) {
            if args.len() < 2 {
                Err(unbound())
            } else {
                match binary_pushed(draft, Binary::Add, args[0], args[1]) {
                    Ok((draft, value)) => Ok((draft, Some(value))),
                    Err(said) => Err(said),
                }
            }
        } else {
            match self.places[function.0 as int] {
                Place::Routine(platform) => {
                    let answers = draft.program.routine(platform).answers;
                    called(draft, args, Op::PlatformCall { platform, args: run }, answers)
                },
                Place::Function(function) => {
                    let answers = draft.program.function(function).answers;
                    called(draft, args, Op::Call { function, args: run }, answers)
                },
                Place::Instruction => Err(unbound()),
            }
        }
    }

    /// A number's empty constructor is nought, and its other one counts up.
    /// One that carries nothing builds nothing.
    pub open spec fn con_lowered(
        self,
        draft: Draft,
        ctor: barb::CtorId,
        atoms: Seq<barb::Atom>,
        locals: Seq<Option<ValueId>>,
    ) -> Result<(Draft, Option<ValueId>), Seq<char>> {
        match self.classes[self.store.ctor(ctor).owner.0 as int] {
            None => Ok((draft, None)),
            Some(class) => if atoms.len() == 0 {
                match constant_pushed(draft, class, 0) {
                    Ok((draft, value)) => Ok((draft, Some(value))),
                    Err(said) => Err(said),
                }
            } else {
                match constant_pushed(draft, class, 1) {
                    Ok((draft, one)) => match read_value(locals, atoms[0]) {
                        Ok(held) => match binary_pushed(draft, Binary::Add, held, one) {
                            Ok((draft, value)) => Ok((draft, Some(value))),
                            Err(said) => Err(said),
                        },
                        Err(said) => Err(said),
                    },
                    Err(said) => Err(said),
                }
            },
        }
    }

    /// A number known outright.
    pub open spec fn known_lowered(self, draft: Draft, id: barb::TypeId, value: barb::ConstId) -> Result<
        (Draft, Option<ValueId>),
        Seq<char>,
    > {
        let bytes = self.store.known_bytes(value);
        match self.classes[id.0 as int] {
            Some(class) => if self.store.is_number(id) && constant::reads(bytes) {
                match constant_pushed(draft, class, constant::front(bytes).0 as u64) {
                    Ok((draft, value)) => Ok((draft, Some(value))),
                    Err(said) => Err(said),
                }
            } else {
                Err(unbound())
            },
            None => Err(unbound()),
        }
    }

    pub open spec fn expr_lowered(
        self,
        draft: Draft,
        expr: barb::ExprId,
        locals: Seq<Option<ValueId>>,
    ) -> Result<(Draft, Option<ValueId>), Seq<char>>
        decreases expr.0, 2nat,
    {
        match self.store.expr(expr) {
            barb::Expr::Atom(atom) => match read_local(locals, atom) {
                Ok(value) => Ok((draft, value)),
                Err(said) => Err(said),
            },
            barb::Expr::Static(id, value) => self.known_lowered(draft, id, value),
            barb::Expr::Con(ctor, args) => self.con_lowered(
                draft,
                ctor,
                args.read(self.store.atoms),
                locals,
            ),
            barb::Expr::Call(function, args) => match passed(
                locals,
                args.read(self.store.atoms),
                args.len as nat,
            ) {
                Ok(values) => self.call_lowered(draft, function, values),
                Err(said) => Err(said),
            },
            barb::Expr::Let(value, body) => if value.0 < expr.0 && body.0 < expr.0 {
                match self.expr_lowered(draft, value, locals) {
                    Ok((draft, held)) => self.expr_lowered(draft, body, locals.push(held)),
                    Err(said) => Err(said),
                }
            } else {
                Err(unbound())
            },
            barb::Expr::Match(scrutinee, arms) => match read_value(locals, scrutinee) {
                Ok(held) => self.branch_lowered(
                    draft,
                    expr,
                    held,
                    arms.read(self.store.arms),
                    locals,
                ),
                Err(said) => Err(said),
            },
        }
    }

    /// Matching a number asks whether it is nought; the other arm counts the
    /// scrutinee back down to what it wraps.
    pub open spec fn branch_lowered(
        self,
        draft: Draft,
        expr: barb::ExprId,
        scrutinee: ValueId,
        arms: Seq<barb::Arm>,
        locals: Seq<Option<ValueId>>,
    ) -> Result<(Draft, Option<ValueId>), Seq<char>>
        decreases expr.0, 1nat,
    {
        let owner = self.store.ctor(arms[0].ctor).owner;
        let nil = self.store.shape(owner)->nil;
        let empty = barb::facts::arm_for(arms, nil, 0);
        let counted = other_arm(arms, nil, 0);
        if arms.len() == 0 || self.classes[owner.0 as int] is None || self.store.shape(
            owner,
        ) is Tagged || empty >= arms.len() || counted >= arms.len() {
            Err(unbound())
        } else {
            let class = self.classes[owner.0 as int]->Some_0;
            match asked(draft, class, scrutinee) {
                Ok((draft, condition)) => match self.arm_lowered(
                    draft,
                    expr,
                    arms[empty].body,
                    locals,
                    None,
                ) {
                    Ok(between) => match self.arm_lowered(
                        between,
                        expr,
                        arms[counted].body,
                        locals,
                        Some((class, scrutinee)),
                    ) {
                        Ok(after) => joined(
                            between,
                            after,
                            condition,
                            listed(self.answers(arms[empty].body, carrying(locals))),
                        ),
                        Err(said) => Err(said),
                    },
                    Err(said) => Err(said),
                },
                Err(said) => Err(said),
            }
        }
    }

    /// One arm of a match, in a region of its own. One that counts down binds
    /// one less than what it was matched on.
    pub open spec fn arm_lowered(
        self,
        outer: Draft,
        expr: barb::ExprId,
        body: barb::ExprId,
        locals: Seq<Option<ValueId>>,
        counts: Option<(Class, ValueId)>,
    ) -> Result<Draft, Seq<char>>
        decreases expr.0, 0nat,
    {
        if body.0 >= expr.0 || !outer.program.room(0) {
            Err(pool::too_large())
        } else {
            match counted_down(outer.inside(seq![]), locals, counts) {
                Ok((inner, locals)) => match self.expr_lowered(inner, body, locals) {
                    Ok((inner, answer)) => yielded(outer, inner, answer),
                    Err(said) => Err(said),
                },
                Err(said) => Err(said),
            }
        }
    }
}

/// A region, then a call in it whose answers a signature names.
pub open spec fn called(draft: Draft, args: Seq<ValueId>, op: Op, answers: Range) -> Result<
    (Draft, Option<ValueId>),
    Seq<char>,
> {
    if draft.program.room(args.len() + answers.len as nat) {
        Ok(
            (
                draft.hold(args).push(op, answers.read(draft.program.signature)),
                if answers.len > 0 {
                    Some(next(draft))
                } else {
                    None
                },
            ),
        )
    } else {
        Err(pool::too_large())
    }
}

/// A region, then whether a number is nought.
pub open spec fn asked(draft: Draft, class: Class, scrutinee: ValueId) -> Result<
    (Draft, ValueId),
    Seq<char>,
> {
    match constant_pushed(draft, class, 0) {
        Ok((draft, nought)) => match pushed(
            draft,
            Op::Compare { relation: Relation::Equal, left: scrutinee, right: nought },
            seq![Class::Word],
        ) {
            Ok(after) => Ok((after, next(draft))),
            Err(said) => Err(said),
        },
        Err(said) => Err(said),
    }
}

/// What an arm begins with.
pub open spec fn counted_down(
    inner: Draft,
    locals: Seq<Option<ValueId>>,
    counts: Option<(Class, ValueId)>,
) -> Result<(Draft, Seq<Option<ValueId>>), Seq<char>> {
    match counts {
        None => Ok((inner, locals)),
        Some((class, scrutinee)) => match constant_pushed(inner, class, 1) {
            Ok((inner, one)) => match binary_pushed(inner, Binary::Sub, scrutinee, one) {
                Ok((inner, less)) => Ok((inner, locals.push(Some(less)))),
                Err(said) => Err(said),
            },
            Err(said) => Err(said),
        },
    }
}

/// The region around an arm, once the arm has yielded what it answers.
pub open spec fn yielded(outer: Draft, inner: Draft, answer: Option<ValueId>) -> Result<
    Draft,
    Seq<char>,
> {
    let values = leaving(answer);
    let ended = inner.hold(values);
    if !inner.program.room(values.len()) || !ended.program.room(ended.ops.len() + 1) {
        Err(pool::too_large())
    } else {
        Ok(outer.after(ended, inner.leaving(Exit::Yield, values.len())))
    }
}

/// A match, once both its arms are built: the newest regions there are after
/// each.
pub open spec fn joined(
    between: Draft,
    after: Draft,
    condition: ValueId,
    results: Seq<Class>,
) -> Result<(Draft, Option<ValueId>), Seq<char>> {
    let op = Op::If {
        condition,
        then_region: RegionId((between.program.regions.len() - 1) as u32),
        else_region: RegionId((after.program.regions.len() - 1) as u32),
    };
    match pushed(after, op, results) {
        Ok(draft) => Ok(
            (
                draft,
                if results.len() > 0 {
                    Some(next(after))
                } else {
                    None
                },
            ),
        ),
        Err(said) => Err(said),
    }
}

/// Whether every local that stands for a value stands for one there is.
pub open spec fn all_bound(parts: Parts, locals: Seq<Option<ValueId>>) -> bool {
    forall|i: int|
        0 <= i < locals.len() ==> ((#[trigger] locals[i]) matches Some(value) ==> parts.known(
            value,
        ))
}

proof fn locals_outlive_growth(old: Parts, new: Parts, locals: Seq<Option<ValueId>>)
    requires
        all_bound(old, locals),
        new.extends(old),
    ensures
        all_bound(new, locals),
{
}

/// Lowers bodies.
struct Lowering<'a> {
    barb: &'a barb::Program,
    facts: &'a barb::Facts,
    /// The class each barb type takes, by type, and nothing where it is
    /// erased.
    classes: Vec<Option<Class>>,
    /// What each barb function became, by function.
    places: Vec<Place>,
}

impl<'a> View for Lowering<'a> {
    type V = FrameForm;

    closed spec fn view(&self) -> FrameForm {
        FrameForm {
            store: self.barb@,
            facts: self.facts@,
            classes: self.classes@,
            places: self.places@,
        }
    }
}

fn push_constant(b: &mut Builder, class: Class, value: u64) -> (made: Result<ValueId, String>)
    requires
        old(b)@.wf(),
    ensures
        final(b)@.wf(),
        final(b)@.program.extends(old(b)@.program),
        match made {
            Ok(id) => constant_pushed(old(b)@, class, value) == Ok::<_, Seq<char>>((final(b)@, id))
                && final(b)@.program.known(id),
            Err(said) => constant_pushed(old(b)@, class, value) == Err::<(Draft, ValueId), _>(
                said@,
            ),
        },
{
    if !b.has_room(1) {
        return Err(outgrown());
    }
    Ok(b.constant(class, value))
}

fn push_binary(b: &mut Builder, op: Binary, left: ValueId, right: ValueId) -> (made: Result<
    ValueId,
    String,
>)
    requires
        old(b)@.wf(),
        old(b)@.program.known(left),
        old(b)@.program.known(right),
    ensures
        final(b)@.wf(),
        final(b)@.program.extends(old(b)@.program),
        match made {
            Ok(id) => binary_pushed(old(b)@, op, left, right) == Ok::<_, Seq<char>>((final(b)@, id))
                && final(b)@.program.known(id),
            Err(said) => binary_pushed(old(b)@, op, left, right) == Err::<(Draft, ValueId), _>(
                said@,
            ),
        },
{
    if !b.has_room(1) {
        return Err(outgrown());
    }
    Ok(b.binary(op, left, right))
}

fn refuse() -> (said: String)
    ensures
        said@ == unbound(),
{
    "a term reads something that is not bound to anything".to_owned()
}

/// The value an atom stands for, which must stand for one.
fn value_of(locals: &Vec<Option<ValueId>>, atom: barb::Atom) -> (value: Result<ValueId, String>)
    ensures
        match value {
            Ok(found) => read_value(locals@, atom) == Ok::<_, Seq<char>>(found) && exists|i: int|
                0 <= i < locals@.len() && (#[trigger] locals@[i]) == Some(found),
            Err(said) => read_value(locals@, atom) == Err::<ValueId, _>(said@),
        },
{
    if atom.0.index() < locals.len() {
        if let Some(value) = locals[atom.0.index()] {
            assert(locals@[atom.0.0 as int] == Some(value));
            return Ok(value);
        }
    }
    Err(refuse())
}

proof fn passing_stops_where_one_does(
    locals: Seq<Option<ValueId>>,
    atoms: Seq<barb::Atom>,
    count: nat,
    all: nat,
)
    requires
        count <= all,
    ensures
        passed(locals, atoms, count) matches Err(said) ==> passed(locals, atoms, all) == Err::<
            Seq<ValueId>,
            _,
        >(said),
    decreases all,
{
    if count < all {
        passing_stops_where_one_does(locals, atoms, count, (all - 1) as nat);
    }
}

/// What atoms pass. An argument that carries nothing is not passed.
fn pass(locals: &Vec<Option<ValueId>>, atoms: &[barb::Atom], parts: Ghost<Parts>) -> (values: Result<
    Vec<ValueId>,
    String,
>)
    requires
        all_bound(parts@, locals@),
    ensures
        match values {
            Ok(found) => passed(locals@, atoms@, atoms@.len()) == Ok::<_, Seq<char>>(found@)
                && super::builder::all_known(parts@, found@) && found@.len() <= atoms@.len(),
            Err(said) => passed(locals@, atoms@, atoms@.len()) == Err::<Seq<ValueId>, _>(said@),
        },
{
    let mut values: Vec<ValueId> = Vec::new();
    let mut at: usize = 0;
    assert(values@ =~= seq![]);
    while at < atoms.len()
        invariant
            all_bound(parts@, locals@),
            super::builder::all_known(parts@, values@),
            at <= atoms@.len(),
            values@.len() <= at,
            passed(locals@, atoms@, at as nat) == Ok::<_, Seq<char>>(values@),
        decreases atoms@.len() - at,
    {
        proof {
            passing_stops_where_one_does(locals@, atoms@, at as nat + 1, atoms@.len());
        }
        let local: usize = atoms[at].0.index();
        if local >= locals.len() {
            return Err(refuse());
        }
        if let Some(value) = locals[local] {
            assert(locals@[local as int] == Some(value));
            values.push(value);
        }
        at = at + 1;
    }
    Ok(values)
}

/// Which locals stand for a value.
fn carried_by(locals: &Vec<Option<ValueId>>) -> (carried: Vec<bool>)
    ensures
        carried@ == carrying(locals@),
{
    let mut carried: Vec<bool> = Vec::new();
    let mut at: usize = 0;
    while at < locals.len()
        invariant
            at <= locals@.len(),
            carried@ == carrying(locals@).take(at as int),
        decreases locals@.len() - at,
    {
        carried.push(locals[at].is_some());
        at = at + 1;
        assert(carried@ =~= carrying(locals@).take(at as int));
    }
    assert(carried@ =~= carrying(locals@));
    carried
}

/// The same again.
fn carrying_too(carried: &Vec<bool>) -> (copy: Vec<bool>)
    ensures
        copy@ == carried@,
{
    let mut copy: Vec<bool> = Vec::new();
    pool::append(&mut copy, carried.as_slice());
    assert(copy@ =~= carried@);
    copy
}

impl<'a> Lowering<'a> {
    /// The class a term answers, where it answers anything: `carried` says
    /// which locals carry something.
    fn answers(&self, expr: barb::ExprId, carried: &Vec<bool>) -> (class: Option<Class>)
        requires
            self@.store.wf(),
            self@.classes.len() == self@.store.types.len(),
            expr.0 < self@.store.exprs.len(),
        ensures
            class == self@.answers(expr, carried@),
        decreases expr.0,
    {
        let ghost store = self.barb@;
        proof {
            assert(store.expr_fits(expr.0 as int, store.exprs[expr.0 as int]));
        }
        match self.barb.expr(expr) {
            barb::Expr::Static(id, _) => self.classes[id.index()],
            barb::Expr::Con(ctor, _) => {
                proof {
                    assert(store.ctor_fits(ctor.0 as int));
                }
                self.classes[self.barb.ctor(ctor).owner.index()]
            },
            barb::Expr::Call(function, _) => {
                proof {
                    assert(store.function_fits(function.0 as int));
                }
                self.classes[self.barb.function(function).result.index()]
            },
            barb::Expr::Let(value, body) => {
                let held = self.answers(value, carried);
                let mut more = carrying_too(carried);
                more.push(held.is_some());
                assert(more@ =~= carried@.push(held is Some));
                self.answers(body, &more)
            },
            barb::Expr::Match(_, arms) => {
                if arms.len == 0 {
                    return None;
                }
                let list = self.barb.arms(arms);
                assert(list@[0] == store.arms[arms.start as int]);
                let more = self.carrying_fields(list[0].ctor, carried);
                self.answers(list[0].body, &more)
            },
            barb::Expr::Atom(atom) => {
                let at: usize = atom.0.index();
                if at < carried.len() && carried[at] {
                    Some(Class::Word)
                } else {
                    None
                }
            },
        }
    }

    /// Which locals carry something, once a constructor's fields are locals
    /// too.
    fn carrying_fields(&self, ctor: barb::CtorId, carried: &Vec<bool>) -> (more: Vec<bool>)
        requires
            self@.store.wf(),
            self@.classes.len() == self@.store.types.len(),
            ctor.0 < self@.store.ctors.len(),
        ensures
            more@ == carried@ + self@.carrying(self@.store.fields(ctor)),
    {
        let ghost store = self.barb@;
        proof {
            assert(store.ctor_fits(ctor.0 as int));
        }
        let fields = self.barb.fields(ctor);
        let mut more = carrying_too(carried);
        let mut at: usize = 0;
        assert(more@ =~= carried@ + self@.carrying(fields@).take(0));
        while at < fields.len()
            invariant
                at <= fields@.len(),
                fields@ == store.fields(ctor),
                store == self@.store,
                store.wf(),
                store.ctor_fits(ctor.0 as int),
                ctor.0 < store.ctors.len(),
                self@.classes.len() == store.types.len(),
                more@ == carried@ + self@.carrying(fields@).take(at as int),
            decreases fields@.len() - at,
        {
            assert(fields@[at as int] == store.types_pool[store.ctor(ctor).fields.start + at]);
            more.push(self.classes[fields[at].index()].is_some());
            at = at + 1;
            assert(more@ =~= carried@ + self@.carrying(fields@).take(at as int));
        }
        assert(self@.carrying(fields@).take(at as int) =~= self@.carrying(fields@));
        more
    }

    /// An instruction where the tier below has one, a platform routine where
    /// something outside answers, and a call otherwise.
    fn call(&self, b: &mut Builder, function: barb::FnId, args: &Vec<ValueId>) -> (made: Result<
        Option<ValueId>,
        String,
    >)
        requires
            old(b)@.wf(),
            self@.fits(old(b)@.program),
            function.0 < self@.store.functions.len(),
            super::builder::all_known(old(b)@.program, args@),
        ensures
            final(b)@.wf(),
            final(b)@.program.extends(old(b)@.program),
            match made {
                Ok(value) => self@.call_lowered(old(b)@, function, args@) == Ok::<_, Seq<char>>(
                    (final(b)@, value),
                ) && (value matches Some(found) ==> final(b)@.program.known(found)),
                Err(said) => self@.call_lowered(old(b)@, function, args@) == Err::<
                    (Draft, Option<ValueId>),
                    _,
                >(said@),
            },
    {
        let ghost start = b@;
        if let Some(operation) = self.facts.operation(function) {
            assert(operation == barb::Operation::Add);
            if args.len() < 2 {
                return Err(refuse());
            }
            return match push_binary(b, Binary::Add, args[0], args[1]) {
                Ok(value) => Ok(Some(value)),
                Err(said) => Err(said),
            };
        }
        let place = self.places[function.index()];
        let (answers, most): (usize, usize) = match place {
            Place::Routine(platform) => {
                proof {
                    assert(self@.places[function.0 as int] == place);
                    assert(start.program.platform_fits(
                        start.program.platform[platform.0 as int],
                    ));
                }
                (b.program().platforms()[platform.index()].answers.len(), args.len())
            },
            Place::Function(callee) => {
                proof {
                    assert(self@.places[function.0 as int] == place);
                    assert(start.program.function_fits(
                        start.program.functions[callee.0 as int],
                    ));
                }
                (b.program().functions()[callee.index()].answers.len(), args.len())
            },
            Place::Instruction => {
                return Err(refuse());
            },
        };
        if most > u32::MAX as usize || answers > u32::MAX as usize - most || !b.has_room(
            (most + answers) as u32,
        ) {
            return Err(outgrown());
        }
        let values = match place {
            Place::Routine(platform) => b.platform_call(platform, args.as_slice()),
            Place::Function(callee) => b.call(callee, args.as_slice()),
            Place::Instruction => {
                return Err(refuse());
            },
        };
        if values.len() > 0 {
            assert(values@[0] == next(start));
            Ok(Some(values[0]))
        } else {
            Ok(None)
        }
    }

    /// A number's empty constructor is nought, and its other one counts up.
    /// One that carries nothing builds nothing.
    fn construct(
        &self,
        b: &mut Builder,
        ctor: barb::CtorId,
        atoms: &[barb::Atom],
        locals: &Vec<Option<ValueId>>,
    ) -> (made: Result<Option<ValueId>, String>)
        requires
            old(b)@.wf(),
            self@.fits(old(b)@.program),
            ctor.0 < self@.store.ctors.len(),
            all_bound(old(b)@.program, locals@),
        ensures
            final(b)@.wf(),
            final(b)@.program.extends(old(b)@.program),
            match made {
                Ok(value) => self@.con_lowered(old(b)@, ctor, atoms@, locals@) == Ok::<
                    _,
                    Seq<char>,
                >((final(b)@, value)) && (value matches Some(found) ==> final(b)@.program.known(
                    found,
                )),
                Err(said) => self@.con_lowered(old(b)@, ctor, atoms@, locals@) == Err::<
                    (Draft, Option<ValueId>),
                    _,
                >(said@),
            },
    {
        proof {
            assert(self.barb@.ctor_fits(ctor.0 as int));
        }
        let ghost start = b@;
        let class = match self.classes[self.barb.ctor(ctor).owner.index()] {
            Some(class) => class,
            None => {
                return Ok(None);
            },
        };
        if atoms.len() == 0 {
            return match push_constant(b, class, 0) {
                Ok(value) => Ok(Some(value)),
                Err(said) => Err(said),
            };
        }
        let one = match push_constant(b, class, 1) {
            Ok(one) => one,
            Err(said) => {
                return Err(said);
            },
        };
        let ghost between = b@;
        let held = match value_of(locals, atoms[0]) {
            Ok(held) => held,
            Err(said) => {
                return Err(said);
            },
        };
        let made = push_binary(b, Binary::Add, held, one);
        proof {
            super::builder::growth_chains(start.program, between.program, b@.program);
        }
        match made {
            Ok(value) => Ok(Some(value)),
            Err(said) => Err(said),
        }
    }

    /// A number known outright.
    fn known(&self, b: &mut Builder, id: barb::TypeId, value: barb::ConstId) -> (made: Result<
        Option<ValueId>,
        String,
    >)
        requires
            old(b)@.wf(),
            self@.fits(old(b)@.program),
            id.0 < self@.store.types.len(),
            value.0 < self@.store.consts.len(),
        ensures
            final(b)@.wf(),
            final(b)@.program.extends(old(b)@.program),
            match made {
                Ok(found) => self@.known_lowered(old(b)@, id, value) == Ok::<_, Seq<char>>(
                    (final(b)@, found),
                ) && (found matches Some(held) ==> final(b)@.program.known(held)),
                Err(said) => self@.known_lowered(old(b)@, id, value) == Err::<
                    (Draft, Option<ValueId>),
                    _,
                >(said@),
            },
    {
        let class = match self.classes[id.index()] {
            Some(class) => class,
            None => {
                return Err(refuse());
            },
        };
        let bytes = self.barb.known_bytes(value);
        if !constant::is_readable(bytes) {
            return Err(refuse());
        }
        match barb::as_number(self.barb, id, bytes) {
            Some(number) => match push_constant(b, class, number) {
                Ok(value) => Ok(Some(value)),
                Err(said) => Err(said),
            },
            None => Err(refuse()),
        }
    }
}

impl<'a> Lowering<'a> {
    fn expr(&self, b: &mut Builder, expr: barb::ExprId, locals: &Vec<Option<ValueId>>) -> (made:
        Result<Option<ValueId>, String>)
        requires
            old(b)@.wf(),
            self@.fits(old(b)@.program),
            expr.0 < self@.store.exprs.len(),
            all_bound(old(b)@.program, locals@),
        ensures
            match made {
                Ok(value) => final(b)@.wf() && final(b)@.program.extends(old(b)@.program) && self@.expr_lowered(old(b)@, expr, locals@) == Ok::<_, Seq<char>>(
                    (final(b)@, value),
                ) && (value matches Some(found) ==> final(b)@.program.known(found)),
                Err(said) => self@.expr_lowered(old(b)@, expr, locals@) == Err::<
                    (Draft, Option<ValueId>),
                    _,
                >(said@),
            },
        decreases expr.0, 2nat,
    {
        let ghost start = b@;
        let ghost store = self.barb@;
        proof {
            assert(store.expr_fits(expr.0 as int, store.exprs[expr.0 as int]));
        }
        match self.barb.expr(expr) {
            barb::Expr::Atom(atom) => {
                if atom.0.index() >= locals.len() {
                    return Err(refuse());
                }
                assert(locals@[atom.0.0 as int] == locals[atom.0.0 as int]);
                Ok(locals[atom.0.index()])
            },
            barb::Expr::Static(id, value) => self.known(b, id, value),
            barb::Expr::Con(ctor, args) => self.construct(b, ctor, self.barb.atoms(args), locals),
            barb::Expr::Call(function, args) => {
                match pass(locals, self.barb.atoms(args), Ghost(start.program)) {
                    Ok(values) => self.call(b, function, &values),
                    Err(said) => Err(said),
                }
            },
            barb::Expr::Let(value, body) => {
                let held = match self.expr(b, value, locals) {
                    Ok(held) => held,
                    Err(said) => {
                        return Err(said);
                    },
                };
                let ghost between = b@;
                let mut inner = copied(locals);
                inner.push(held);
                assert(inner@ =~= locals@.push(held));
                let made = self.expr(b, body, &inner);
                proof {
                    if made is Ok {
                        super::builder::growth_chains(start.program, between.program, b@.program);
                    }
                }
                made
            },
            barb::Expr::Match(scrutinee, arms) => match value_of(locals, scrutinee) {
                Ok(held) => self.branch(b, expr, held, arms, locals),
                Err(said) => Err(said),
            },
        }
    }

    /// Matching a number asks whether it is nought; the other arm counts the
    /// scrutinee back down to what it wraps.
    fn branch(
        &self,
        b: &mut Builder,
        expr: barb::ExprId,
        scrutinee: ValueId,
        arms: barb::Range,
        locals: &Vec<Option<ValueId>>,
    ) -> (made: Result<Option<ValueId>, String>)
        requires
            old(b)@.wf(),
            self@.fits(old(b)@.program),
            expr.0 < self@.store.exprs.len(),
            self@.store.exprs[expr.0 as int] matches barb::Expr::Match(_, held) && held == arms,
            old(b)@.program.known(scrutinee),
            all_bound(old(b)@.program, locals@),
        ensures
            match made {
                Ok(value) => final(b)@.wf() && final(b)@.program.extends(old(b)@.program) && self@.branch_lowered(
                    old(b)@,
                    expr,
                    scrutinee,
                    arms.read(self@.store.arms),
                    locals@,
                ) == Ok::<_, Seq<char>>((final(b)@, value)) && (value matches Some(found) ==> final(
                    b)@.program.known(found)),
                Err(said) => self@.branch_lowered(
                    old(b)@,
                    expr,
                    scrutinee,
                    arms.read(self@.store.arms),
                    locals@,
                ) == Err::<(Draft, Option<ValueId>), _>(said@),
            },
        decreases expr.0, 1nat,
    {
        let ghost start = b@;
        let ghost store = self.barb@;
        proof {
            assert(store.expr_fits(expr.0 as int, store.exprs[expr.0 as int]));
        }
        let list = self.barb.arms(arms);
        if list.len() == 0 {
            return Err(refuse());
        }
        proof {
            assert(list@[0] == store.arms[arms.start as int]);
            assert(store.ctor_fits(list@[0].ctor.0 as int));
        }
        let owner = self.barb.ctor(list[0].ctor).owner;
        let class = match self.classes[owner.index()] {
            Some(class) => class,
            None => {
                return Err(refuse());
            },
        };
        let nil = match barb::shape(self.barb, owner) {
            barb::Shape::Spine { nil, .. } => nil,
            barb::Shape::Tagged => {
                return Err(refuse());
            },
        };
        let empty: usize = barb::facts::find_arm(list, nil);
        let counted: usize = find_other(list, nil);
        if empty >= list.len() || counted >= list.len() {
            return Err(refuse());
        }
        proof {
            assert(list@[empty as int] == store.arms[arms.start + empty]);
            assert(list@[counted as int] == store.arms[arms.start + counted]);
        }
        let nought = match push_constant(b, class, 0) {
            Ok(nought) => nought,
            Err(said) => {
                return Err(said);
            },
        };
        let ghost first = b@;
        if !b.has_room(1) {
            return Err(outgrown());
        }
        let condition = b.compare(Relation::Equal, scrutinee, nought);
        let ghost second = b@;
        proof {
            super::builder::growth_chains(start.program, first.program, second.program);
            assert(asked(start, class, scrutinee) == Ok::<_, Seq<char>>((second, condition)));
        }
        // Both arms answer alike, so one of them says what the match holds.
        let carried = carried_by(locals);
        let answers = self.answers(list[empty].body, &carried);
        let mut held: Vec<Class> = Vec::new();
        if let Some(class) = answers {
            held.push(class);
        }
        assert(held@ =~= listed(answers));
        let then_region = match self.arm(b, expr, list[empty].body, locals, None) {
            Ok(region) => region,
            Err(said) => {
                return Err(said);
            },
        };
        let ghost third = b@;
        proof {
            super::builder::growth_chains(start.program, second.program, third.program);
            locals_outlive_growth(start.program, third.program, locals@);
        }
        let else_region = match self.arm(
            b,
            expr,
            list[counted].body,
            locals,
            Some((class, scrutinee)),
        ) {
            Ok(region) => region,
            Err(said) => {
                return Err(said);
            },
        };
        let ghost fourth = b@;
        proof {
            super::builder::growth_chains(start.program, third.program, fourth.program);
            super::builder::growth_chains(second.program, third.program, fourth.program);
        }
        if !b.has_room(held.len() as u32) {
            return Err(outgrown());
        }
        assert(!fourth.program.is_body(then_region));
        let values = b.if_of(condition, then_region, else_region, held.as_slice());
        proof {
            super::builder::growth_chains(start.program, fourth.program, b@.program);
        }
        if values.len() > 0 {
            assert(values@[0] == next(fourth));
            Ok(Some(values[0]))
        } else {
            Ok(None)
        }
    }

    /// One arm of a match, in a region of its own.
    fn arm(
        &self,
        b: &mut Builder,
        expr: barb::ExprId,
        body: barb::ExprId,
        locals: &Vec<Option<ValueId>>,
        counts: Option<(Class, ValueId)>,
    ) -> (made: Result<RegionId, String>)
        requires
            old(b)@.wf(),
            self@.fits(old(b)@.program),
            body.0 < expr.0 < self@.store.exprs.len(),
            all_bound(old(b)@.program, locals@),
            counts matches Some((_, scrutinee)) ==> old(b)@.program.known(scrutinee),
        ensures
            match made {
                Ok(region) => final(b)@.wf() && final(b)@.program.extends(old(b)@.program) && self@.arm_lowered(old(b)@, expr, body, locals@, counts) == Ok::<
                    _,
                    Seq<char>,
                >(final(b)@) && region.0 == final(b)@.program.regions.len() - 1 && !final(
                    b)@.program.is_body(region),
                Err(said) => self@.arm_lowered(old(b)@, expr, body, locals@, counts) == Err::<
                    Draft,
                    _,
                >(said@),
            },
        decreases expr.0, 0nat,
    {
        let ghost outer = b@;
        if !b.has_room(0) {
            return Err(outgrown());
        }
        let none: [Class; 0] = [];
        assert(none@ =~= seq![]);
        let kept = b.open(&none);
        let ghost opened = b@;
        let mut inner = copied(locals);
        proof {
            locals_outlive_growth(outer.program, opened.program, locals@);
        }
        if let Some((class, scrutinee)) = counts {
            let one = match push_constant(b, class, 1) {
                Ok(one) => one,
                Err(said) => {
                    return Err(said);
                },
            };
            let ghost mid = b@;
            let made = push_binary(b, Binary::Sub, scrutinee, one);
            proof {
                super::builder::growth_chains(opened.program, mid.program, b@.program);
            }
            match made {
                Ok(less) => {
                    inner.push(Some(less));
                },
                Err(said) => {
                    return Err(said);
                },
            }
        }
        let ghost begun = b@;
        proof {
            super::builder::growth_chains(outer.program, opened.program, begun.program);
            locals_outlive_growth(outer.program, begun.program, locals@);
            assert(counted_down(opened, locals@, counts) == Ok::<_, Seq<char>>((begun, inner@)));
        }
        let answer = match self.expr(b, body, &inner) {
            Ok(answer) => answer,
            Err(said) => {
                return Err(said);
            },
        };
        let ghost done = b@;
        proof {
            super::builder::growth_chains(outer.program, begun.program, done.program);
        }
        let mut values: Vec<ValueId> = Vec::new();
        if let Some(value) = answer {
            values.push(value);
        }
        assert(values@ =~= leaving(answer));
        if !b.has_room(values.len() as u32) {
            return Err(outgrown());
        }
        let end = b.yield_(values.as_slice());
        let ghost ended = b@;
        proof {
            super::builder::growth_chains(outer.program, done.program, ended.program);
        }
        let count: usize = b.count();
        if count >= u32::MAX as usize || !b.has_room((count + 1) as u32) {
            return Err(outgrown());
        }
        let region = b.close(kept, end);
        proof {
            super::builder::growth_chains(outer.program, ended.program, b@.program);
            assert(b@ =~= outer.after(ended, end));
            super::builder::a_draft_outlives_growth(outer, b@.program);
        }
        Ok(region)
    }
}

/// Locals to begin from.
fn copied(locals: &Vec<Option<ValueId>>) -> (copy: Vec<Option<ValueId>>)
    ensures
        copy@ == locals@,
{
    let mut copy: Vec<Option<ValueId>> = Vec::new();
    pool::append(&mut copy, locals.as_slice());
    assert(copy@ =~= locals@);
    copy
}

fn find_other(arms: &[barb::Arm], ctor: barb::CtorId) -> (at: usize)
    ensures
        at == other_arm(arms@, ctor, 0),
        at <= arms@.len(),
{
    let mut at: usize = 0;
    while at < arms.len() && arms[at].ctor.0 == ctor.0
        invariant
            at <= arms@.len(),
            other_arm(arms@, ctor, at as int) == other_arm(arms@, ctor, 0),
        decreases arms@.len() - at,
    {
        at = at + 1;
    }
    at
}

impl FrameForm {
    /// What a function's first `count` parameters stand for. An erased one
    /// takes no slot, so the machine's run of them is shorter than barb's and
    /// they are matched up in order.
    pub open spec fn params_bound(
        self,
        name: Seq<char>,
        types: Seq<barb::TypeId>,
        values: Seq<ValueId>,
        count: nat,
    ) -> Result<Seq<Option<ValueId>>, Seq<char>>
        decreases count,
    {
        if count == 0 {
            Ok(seq![])
        } else {
            match self.params_bound(name, types, values, (count - 1) as nat) {
                Ok(locals) => {
                    let taken = classes_of(self.classes, types, (count - 1) as nat).len();
                    if self.classes[types[count - 1].0 as int] is None {
                        Ok(locals.push(None))
                    } else if taken < values.len() {
                        Ok(locals.push(Some(values[taken as int])))
                    } else {
                        Err("`"@ + name + "` takes something that nothing hands it"@)
                    }
                },
                Err(said) => Err(said),
            }
        }
    }

    /// What a function leaves with. The entry answers a status whatever the
    /// program says, and reaches here only where nothing has already left.
    pub open spec fn answered(self, draft: Draft, answer: Option<ValueId>, entry: bool) -> Result<
        (Draft, Seq<ValueId>),
        Seq<char>,
    > {
        if answer is None && entry {
            match constant_pushed(draft, Class::Word, 0) {
                Ok((draft, status)) => Ok((draft, seq![status])),
                Err(said) => Err(said),
            }
        } else {
            Ok((draft, leaving(answer)))
        }
    }

    /// One function's body, lowered.
    pub open spec fn function_lowered(self, parts: Parts, id: barb::FnId, into: FunctionId) -> Result<
        Parts,
        Seq<char>,
    > {
        let function = self.store.function(id);
        let name = self.store.name(function.name);
        let params = parts.function(into).params;
        let types = self.store.params(id);
        match self.params_bound(name, types, parts.values(params), types.len()) {
            Ok(locals) => match self.expr_lowered(
                Draft::opened(parts, params),
                function.body,
                locals,
            ) {
                Ok((draft, answer)) => match self.answered(
                    draft,
                    answer,
                    self.store.entry == Some(id),
                ) {
                    Ok((draft, values)) => {
                        let ended = draft.hold(values);
                        if !draft.program.room(values.len()) || !ended.program.room(
                            ended.ops.len() + 1,
                        ) {
                            Err(pool::too_large())
                        } else {
                            Ok(ended.as_body(into, draft.leaving(Exit::Return, values.len())))
                        }
                    },
                    Err(said) => Err(said),
                },
                Err(said) => Err(said),
            },
            Err(said) => Err(said),
        }
    }

    /// The first `count` functions, lowered: every one that has a body and
    /// did not become an instruction.
    pub open spec fn functions_lowered(self, parts: Parts, count: nat) -> Result<Parts, Seq<char>>
        decreases count,
    {
        if count == 0 {
            Ok(parts)
        } else {
            match self.functions_lowered(parts, (count - 1) as nat) {
                Ok(parts) => {
                    let id = barb::FnId((count - 1) as u32);
                    if self.store.function(id).defined && barb::facts::known_of(
                        self.facts,
                        id,
                    ) is None {
                        match self.places[count - 1] {
                            Place::Function(into) => self.function_lowered(parts, id, into),
                            _ => Ok(parts),
                        }
                    } else {
                        Ok(parts)
                    }
                },
                Err(said) => Err(said),
            }
        }
    }
}

/// A whole program, lowered, or what it holds that this tier cannot yet
/// represent.
pub open spec fn lowered(store: barb::Store, facts: Seq<Option<barb::Operation>>) -> Result<
    Parts,
    Seq<char>,
> {
    let entry = store.entry->Some_0;
    let name = store.name(store.function(entry).name);
    match classes_found(store, store.types.len()) {
        Ok(classes) => if vstd::utf8::encode_utf8(name).len() + 2 > u32::MAX {
            Err(pool::too_large())
        } else {
            match declared(
                store,
                facts,
                classes,
                entry,
                Parts::nothing().with_function(name, seq![], seq![Class::Word]),
                store.functions.len(),
            ) {
                Ok((parts, places)) => match (FrameForm {
                    store,
                    facts,
                    classes,
                    places,
                }).functions_lowered(parts, store.functions.len()) {
                    Ok(parts) => match parts.complaint(0) {
                        Some(said) => Err(said),
                        None => Ok(parts),
                    },
                    Err(said) => Err(said),
                },
                Err(said) => Err(said),
            }
        },
        Err(said) => Err(said),
    }
}

proof fn binding_stops_where_one_does(
    frame: FrameForm,
    name: Seq<char>,
    types: Seq<barb::TypeId>,
    values: Seq<ValueId>,
    count: nat,
    all: nat,
)
    requires
        count <= all,
    ensures
        frame.params_bound(name, types, values, count) matches Err(said) ==> frame.params_bound(
            name,
            types,
            values,
            all,
        ) == Err::<Seq<Option<ValueId>>, _>(said),
    decreases all,
{
    if count < all {
        binding_stops_where_one_does(frame, name, types, values, count, (all - 1) as nat);
    }
}

proof fn lowering_stops_where_one_does(frame: FrameForm, parts: Parts, count: nat, all: nat)
    requires
        count <= all,
    ensures
        frame.functions_lowered(parts, count) matches Err(said) ==> frame.functions_lowered(
            parts,
            all,
        ) == Err::<Parts, _>(said),
    decreases all,
{
    if count < all {
        lowering_stops_where_one_does(frame, parts, count, (all - 1) as nat);
    }
}

impl<'a> Lowering<'a> {
    /// What a function's parameters stand for.
    fn bind(&self, name: &str, types: &[barb::TypeId], values: &[ValueId], parts: Ghost<Parts>) -> (bound:
        Result<Vec<Option<ValueId>>, String>)
        requires
            forall|i: int|
                0 <= i < types@.len() ==> (#[trigger] types@[i]).0 < self@.classes.len(),
            super::builder::all_known(parts@, values@),
        ensures
            match bound {
                Ok(locals) => self@.params_bound(name@, types@, values@, types@.len()) == Ok::<
                    _,
                    Seq<char>,
                >(locals@) && all_bound(parts@, locals@),
                Err(said) => self@.params_bound(name@, types@, values@, types@.len()) == Err::<
                    Seq<Option<ValueId>>,
                    _,
                >(said@),
            },
    {
        let mut locals: Vec<Option<ValueId>> = Vec::new();
        let mut taken: usize = 0;
        let mut at: usize = 0;
        assert(locals@ =~= seq![]);
        while at < types.len()
            invariant
                forall|i: int|
                    0 <= i < types@.len() ==> (#[trigger] types@[i]).0 < self@.classes.len(),
                super::builder::all_known(parts@, values@),
                all_bound(parts@, locals@),
                at <= types@.len(),
                taken <= at,
                taken == classes_of(self@.classes, types@, at as nat).len(),
                self@.params_bound(name@, types@, values@, at as nat) == Ok::<_, Seq<char>>(
                    locals@,
                ),
            decreases types@.len() - at,
        {
            proof {
                binding_stops_where_one_does(
                    self@,
                    name@,
                    types@,
                    values@,
                    at as nat + 1,
                    types@.len(),
                );
                assert(types@[at as int].0 < self@.classes.len());
            }
            if self.classes[types[at].index()].is_none() {
                locals.push(None);
            } else if taken < values.len() {
                let value = values[taken];
                assert(parts@.known(values@[taken as int]));
                locals.push(Some(value));
                taken = taken + 1;
            } else {
                return Err(text::around("`", name, "` takes something that nothing hands it"));
            }
            at = at + 1;
        }
        Ok(locals)
    }

    fn function(&self, machine: Program, id: barb::FnId, into: FunctionId) -> (made: Result<
        Program,
        String,
    >)
        requires
            machine@.wf(),
            self@.fits(machine@),
            id.0 < self@.store.functions.len(),
            self@.store.function(id).defined,
            into.0 < machine@.functions.len(),
        ensures
            match made {
                Ok(done) => {
                    &&& self@.function_lowered(machine@, id, into) == Ok::<_, Seq<char>>(done@)
                    &&& done@.wf()
                    &&& done@.functions == machine@.functions
                    &&& done@.platform == machine@.platform
                },
                Err(said) => self@.function_lowered(machine@, id, into) == Err::<Parts, _>(said@),
            },
    {
        let ghost store = self.barb@;
        let ghost parts = machine@;
        proof {
            assert(store.function_fits(id.0 as int));
            assert(parts.function_fits(parts.functions[into.0 as int]));
        }
        let function = *self.barb.function(id);
        let types = self.barb.params(id);
        proof {
            assert forall|i: int| 0 <= i < types@.len() implies (#[trigger] types@[i]).0
                < self@.classes.len() by {
                assert(types@[i] == store.types_pool[store.function(id).params.start + i]);
            }
        }
        let params = machine.functions()[into.index()].params;
        let values = vstd::slice::slice_to_vec(machine.values(params));
        proof {
            super::model::known_values(parts, params);
        }
        let name = self.barb.name(function.name);
        let locals = match self.bind(name, types, values.as_slice(), Ghost(parts)) {
            Ok(locals) => locals,
            Err(said) => {
                return Err(said);
            },
        };
        let mut b = machine.begin(into);
        let ghost opened = b@;
        let answer = match self.expr(&mut b, function.body, &locals) {
            Ok(answer) => answer,
            Err(said) => {
                return Err(said);
            },
        };
        let ghost done = b@;
        let entry = match self.barb.entry() {
            Some(entry) => entry.0 == id.0,
            None => false,
        };
        let mut values: Vec<ValueId> = Vec::new();
        match answer {
            Some(value) => values.push(value),
            None => {
                if entry {
                    match push_constant(&mut b, Class::Word, 0) {
                        Ok(status) => values.push(status),
                        Err(said) => {
                            return Err(said);
                        },
                    }
                    assert(values@ =~= seq![values@[0]]);
                }
            },
        }
        let ghost said = b@;
        proof {
            if answer is Some || !entry {
                assert(values@ =~= leaving(answer));
            }
            super::builder::growth_chains(opened.program, done.program, said.program);
            assert(self@.answered(done, answer, entry) == Ok::<_, Seq<char>>((said, values@)));
        }
        if !b.has_room(values.len() as u32) {
            return Err(outgrown());
        }
        let end = b.ret(values.as_slice());
        let ghost ended = b@;
        proof {
            super::builder::growth_chains(opened.program, said.program, ended.program);
        }
        let count: usize = b.count();
        if count >= u32::MAX as usize || !b.has_room((count + 1) as u32) {
            return Err(outgrown());
        }
        Ok(b.end(into, end))
    }

    /// Every function that has a body and did not become an instruction.
    fn functions(&self, machine: Program) -> (made: Result<Program, String>)
        requires
            machine@.wf(),
            self@.fits(machine@),
        ensures
            match made {
                Ok(done) => self@.functions_lowered(machine@, self@.store.functions.len()) == Ok::<
                    _,
                    Seq<char>,
                >(done@) && done@.wf(),
                Err(said) => self@.functions_lowered(machine@, self@.store.functions.len())
                    == Err::<Parts, _>(said@),
            },
    {
        let ghost start = machine@;
        let count: usize = self.barb.functions().len();
        let mut work: Program = machine;
        let mut at: usize = 0;
        while at < count
            invariant
                start == machine@,
                work@.wf(),
                self@.fits(work@),
                at <= count == self@.store.functions.len(),
                self@.functions_lowered(start, at as nat) == Ok::<_, Seq<char>>(work@),
            decreases count - at,
        {
            let id = barb::FnId(at as u32);
            proof {
                lowering_stops_where_one_does(self@, start, at as nat + 1, count as nat);
            }
            if self.barb.function(id).defined && self.facts.operation(id).is_none() {
                if let Place::Function(into) = self.places[at] {
                    assert(self@.places[at as int] == Place::Function(into));
                    match self.function(work, id, into) {
                        Ok(made) => {
                            work = made;
                        },
                        Err(said) => {
                            return Err(said);
                        },
                    }
                }
            }
            at = at + 1;
        }
        Ok(work)
    }
}

/// Lower a whole program, or say what it holds that this tier cannot yet
/// represent.
pub fn lower(program: &barb::Program, facts: &barb::Facts) -> (made: Result<Program, String>)
    requires
        program@.wf(),
        program@.entry is Some,
    ensures
        match made {
            Ok(machine) => {
                &&& lowered(program@, facts@) == Ok::<_, Seq<char>>(machine@)
                &&& machine@.wf()
                &&& machine@.agrees()
            },
            Err(said) => lowered(program@, facts@) == Err::<Parts, _>(said@),
        },
{
    let ghost store = program@;
    let entry = match program.entry() {
        Some(entry) => entry,
        None => {
            assert(false);
            barb::FnId(0)
        },
    };
    proof {
        assert(store.function_fits(entry.0 as int));
    }
    let classes = match represent_all(program) {
        Ok(classes) => classes,
        Err(said) => {
            return Err(said);
        },
    };
    let name = program.name(program.function(entry).name);
    if name.as_bytes().len() > u32::MAX as usize - 2 {
        return Err(outgrown());
    }
    let (machine, _) = Program::new(name);
    let mut machine: Program = machine;
    let places = match declare(program, facts, &classes, &mut machine, entry) {
        Ok(places) => places,
        Err(said) => {
            return Err(said);
        },
    };
    let lowering = Lowering { barb: program, facts, classes, places };
    match lowering.functions(machine) {
        Ok(machine) => match validate(&machine) {
            Ok(_) => Ok(machine),
            Err(said) => Err(said),
        },
        Err(said) => Err(said),
    }
}

} // verus!
