//! What every function takes and answers, worked out rather than declared.
//!
//! Types are inferred, since every one of them is a name a declaration
//! already gave, so there is nothing to infer but which.

use super::ir::{CtorId, Store, TypeId};
use super::syntax::{
    Clause, ClauseForm, Definition, FunctionForm, Pattern, PatternForm, StepForm, Term, TermForm,
};
use super::{syntax, Program};
use crate::text;
use vstd::prelude::*;
use vstd::string::StringExecFns;

verus! {

/// Slots that must hold the same type, and the type they hold once anything
/// pins it. Every type here is a name some declaration already gave, so
/// there is nothing to infer but which one.
#[verifier::ext_equal]
pub struct Slots {
    /// The slot that stands for each one, the same for those that must agree.
    pub root: Seq<int>,
    /// What is known of a slot that stands for itself.
    pub known: Seq<Option<TypeId>>,
}

impl Slots {
    pub open spec fn none() -> Slots {
        Slots { root: seq![], known: seq![] }
    }

    pub open spec fn len(self) -> nat {
        self.root.len()
    }

    pub open spec fn fits(self) -> bool {
        &&& self.known.len() == self.root.len()
        &&& forall|i: int|
            0 <= i < self.root.len() ==> 0 <= #[trigger] self.root[i] < self.root.len()
        &&& forall|i: int|
            0 <= i < self.root.len() ==> self.root[#[trigger] self.root[i]] == self.root[i]
    }

    /// With one more slot, of which nothing is known.
    pub open spec fn fresh(self) -> Slots {
        Slots { root: self.root.push(self.root.len() as int), known: self.known.push(None) }
    }

    /// What is known of a slot.
    pub open spec fn get(self, slot: int) -> Option<TypeId> {
        self.known[self.root[slot]]
    }

    /// With two slots that must hold the same type.
    pub open spec fn union(self, left: int, right: int) -> Result<Slots, Seq<char>> {
        let one = self.root[left];
        let other = self.root[right];
        if one == other {
            Ok(self)
        } else if self.known[one] is Some && self.known[other] is Some && self.known[one]
            != self.known[other] {
            Err("a value is used at two types"@)
        } else {
            let held = if self.known[one] is Some {
                self.known[one]
            } else {
                self.known[other]
            };
            Ok(
                Slots {
                    root: Seq::new(
                        self.root.len(),
                        |i: int|
                            if self.root[i] == other {
                                one
                            } else {
                                self.root[i]
                            },
                    ),
                    known: self.known.update(one, held),
                },
            )
        }
    }

    /// With a slot known to hold a type.
    pub open spec fn pin(self, slot: int, id: TypeId) -> Result<Slots, Seq<char>> {
        let at = self.root[slot];
        if self.known[at] is Some && self.known[at] != Some(id) {
            Err("a value is used at two types"@)
        } else {
            Ok(Slots { known: self.known.update(at, Some(id)), ..self })
        }
    }
}

/// Slots that have been told to agree go on agreeing, whatever else is told.
pub proof fn agreement_is_kept(slots: Slots, left: int, right: int, one: int, other: int)
    requires
        slots.fits(),
        0 <= left < slots.len(),
        0 <= right < slots.len(),
        0 <= one < slots.len(),
        0 <= other < slots.len(),
        slots.root[one] == slots.root[other],
    ensures
        slots.union(left, right) matches Ok(after) ==> {
            &&& after.fits()
            &&& after.root[one] == after.root[other]
            &&& after.root[left] == after.root[right]
            &&& after.get(one) == after.get(other)
        },
{
}

/// What is known of a slot is never forgotten, and never changes.
pub proof fn knowledge_is_kept(slots: Slots, left: int, right: int, slot: int)
    requires
        slots.fits(),
        0 <= left < slots.len(),
        0 <= right < slots.len(),
        0 <= slot < slots.len(),
        slots.get(slot) is Some,
    ensures
        slots.union(left, right) matches Ok(after) ==> after.get(slot) == slots.get(slot),
        forall|id: TypeId|
            (#[trigger] slots.pin(left, id)) matches Ok(after) ==> after.get(slot) == slots.get(
                slot,
            ),
{
}

/// Slots, as they are kept: each knows one that agrees with it, and the last
/// of a run of them knows the type.
pub struct Unify {
    parent: Vec<usize>,
    known: Vec<Option<TypeId>>,
    root: Ghost<Seq<int>>,
    /// How far each slot is from the one that stands for it, at most.
    depth: Ghost<Seq<nat>>,
}

impl View for Unify {
    type V = Slots;

    closed spec fn view(&self) -> Slots {
        Slots { root: self.root@, known: self.known@ }
    }
}

impl Unify {
    pub closed spec fn wf(&self) -> bool {
        &&& self@.fits()
        &&& self.parent@.len() == self.root@.len()
        &&& self.depth@.len() == self.root@.len()
        &&& forall|i: int|
            0 <= i < self.parent@.len() ==> (#[trigger] self.parent@[i]) < self.parent@.len()
        &&& forall|i: int|
            0 <= i < self.parent@.len() ==> self.root@[#[trigger] self.parent@[i] as int]
                == self.root@[i]
        &&& forall|i: int|
            0 <= i < self.parent@.len() ==> ((#[trigger] self.parent@[i]) == i <==> self.root@[i]
                == i)
        &&& forall|i: int|
            0 <= i < self.parent@.len() && (#[trigger] self.parent@[i]) != i
                ==> self.depth@[self.parent@[i] as int] < self.depth@[i]
    }

    pub fn new() -> (slots: Self)
        ensures
            slots.wf(),
            slots@ == Slots::none(),
    {
        let slots = Unify {
            parent: Vec::new(),
            known: Vec::new(),
            root: Ghost(Seq::empty()),
            depth: Ghost(Seq::empty()),
        };
        assert(slots@ =~= Slots::none());
        slots
    }

    pub fn len(&self) -> (len: usize)
        requires
            self.wf(),
        ensures
            len == self@.len(),
    {
        self.parent.len()
    }

    pub fn fresh(&mut self) -> (slot: usize)
        requires
            old(self).wf(),
        ensures
            final(self).wf(),
            final(self)@ == old(self)@.fresh(),
            slot == old(self)@.len(),
    {
        let at: usize = self.parent.len();
        self.parent.push(at);
        self.known.push(None);
        proof {
            self.root@ = self.root@.push(at as int);
            self.depth@ = self.depth@.push(0);
        }
        assert(self@ =~= old(self)@.fresh());
        at
    }

    fn find(&mut self, slot: usize) -> (at: usize)
        requires
            old(self).wf(),
            slot < old(self)@.len(),
        ensures
            final(self).wf(),
            final(self)@ == old(self)@,
            at == old(self)@.root[slot as int],
            at < final(self)@.len(),
    {
        let mut at: usize = slot;
        while self.parent[at] != at
            invariant
                self.wf(),
                self@ == old(self)@,
                at < self@.len(),
                self@.root[at as int] == old(self)@.root[slot as int],
            decreases self.depth@[at as int],
        {
            let ghost before = self.parent@;
            let next: usize = self.parent[at];
            let past: usize = self.parent[next];
            proof {
                assert(self.root@[past as int] == self.root@[next as int]);
                assert(past == at ==> false) by {
                    if past == at {
                        assert(self.depth@[next as int] < self.depth@[at as int]);
                        assert(self.parent@[next as int] != next);
                    }
                }
            }
            self.parent.set(at, past);
            proof {
                assert forall|i: int| 0 <= i < self.parent@.len() && (
                #[trigger] self.parent@[i]) != i implies self.depth@[self.parent@[i] as int]
                    < self.depth@[i] by {
                    if i == at {
                        if before[next as int] != next {
                            assert(self.depth@[past as int] < self.depth@[next as int]);
                        }
                    } else {
                        assert(self.parent@[i] == before[i]);
                    }
                }
                assert forall|i: int| 0 <= i < self.parent@.len() implies (
                #[trigger] self.parent@[i]) < self.parent@.len()
                    && self.root@[self.parent@[i] as int] == self.root@[i] && (self.parent@[i] == i
                    <==> self.root@[i] == i) by {
                    if i != at {
                        assert(self.parent@[i] == before[i]);
                    } else {
                        assert(before[i] == next);
                    }
                }
            }
            at = past;
        }
        at
    }

    pub fn union(&mut self, left: usize, right: usize) -> (done: Result<(), String>)
        requires
            old(self).wf(),
            left < old(self)@.len(),
            right < old(self)@.len(),
        ensures
            final(self).wf(),
            match done {
                Ok(_) => old(self)@.union(left as int, right as int) == Ok::<_, Seq<char>>(
                    final(self)@,
                ),
                Err(said) => old(self)@.union(left as int, right as int) == Err::<Slots, _>(said@)
                    && final(self)@ == old(self)@,
            },
    {
        let left: usize = self.find(left);
        let right: usize = self.find(right);
        if left == right {
            return Ok(());
        }
        let held: Option<TypeId> = match (self.known[left], self.known[right]) {
            (Some(one), Some(other)) => {
                if one.0 != other.0 {
                    return Err("a value is used at two types".to_owned());
                }
                Some(one)
            },
            (Some(one), None) => Some(one),
            (None, other) => other,
        };
        let ghost before = *self;
        let ghost after = self@.union(left as int, right as int);
        self.parent.set(right, left);
        self.known.set(left, held);
        proof {
            let lift = before.depth@[left as int] + 1;
            self.root@ = Seq::new(
                before.root@.len(),
                |i: int|
                    if before.root@[i] == right {
                        left as int
                    } else {
                        before.root@[i]
                    },
            );
            self.depth@ = Seq::new(
                before.depth@.len(),
                |i: int|
                    if before.root@[i] == right {
                        before.depth@[i] + lift
                    } else {
                        before.depth@[i]
                    },
            );
            assert forall|i: int| 0 <= i < self.parent@.len() && (#[trigger] self.parent@[i])
                != i implies self.depth@[self.parent@[i] as int] < self.depth@[i] by {
                if i != right {
                    assert(self.parent@[i] == before.parent@[i]);
                }
            }
            assert forall|i: int| 0 <= i < self.parent@.len() implies (#[trigger] self.parent@[i])
                < self.parent@.len() && self.root@[self.parent@[i] as int] == self.root@[i] && (
            self.parent@[i] == i <==> self.root@[i] == i) by {
                if i != right {
                    assert(self.parent@[i] == before.parent@[i]);
                }
            }
            assert(self@ =~= after->Ok_0);
        }
        Ok(())
    }

    pub fn pin(&mut self, slot: usize, id: TypeId) -> (done: Result<(), String>)
        requires
            old(self).wf(),
            slot < old(self)@.len(),
        ensures
            final(self).wf(),
            match done {
                Ok(_) => old(self)@.pin(slot as int, id) == Ok::<_, Seq<char>>(final(self)@),
                Err(said) => old(self)@.pin(slot as int, id) == Err::<Slots, _>(said@) && final(self)@ == old(self)@,
            },
    {
        let slot: usize = self.find(slot);
        if let Some(held) = self.known[slot] {
            if held.0 != id.0 {
                return Err("a value is used at two types".to_owned());
            }
        }
        self.known.set(slot, Some(id));
        Ok(())
    }

    pub fn get(&mut self, slot: usize) -> (known: Option<TypeId>)
        requires
            old(self).wf(),
            slot < old(self)@.len(),
        ensures
            final(self).wf(),
            final(self)@ == old(self)@,
            known == old(self)@.get(slot as int),
    {
        let slot: usize = self.find(slot);
        self.known[slot]
    }
}

/// Every function that may be called, in the order they were written, and
/// the run of slots each takes: one per argument, then its result.
#[verifier::ext_equal]
pub struct SchemeForm {
    pub names: Seq<Seq<char>>,
    pub arity: Seq<nat>,
    pub base: Seq<int>,
}

/// With `count` more slots.
pub open spec fn spread(slots: Slots, count: nat) -> Slots
    decreases count,
{
    if count == 0 {
        slots
    } else {
        spread(slots, (count - 1) as nat).fresh()
    }
}

pub proof fn spreading_fits(slots: Slots, count: nat)
    requires
        slots.fits(),
    ensures
        spread(slots, count).fits(),
        spread(slots, count).len() == slots.len() + count,
    decreases count,
{
    if count > 0 {
        spreading_fits(slots, (count - 1) as nat);
    }
}

impl SchemeForm {
    pub open spec fn none() -> SchemeForm {
        SchemeForm { names: seq![], arity: seq![], base: seq![] }
    }

    pub open spec fn with(self, name: Seq<char>, arity: nat, base: int) -> SchemeForm {
        SchemeForm {
            names: self.names.push(name),
            arity: self.arity.push(arity),
            base: self.base.push(base),
        }
    }

    /// Which function has a name, from `from` on.
    pub open spec fn named_from(self, name: Seq<char>, from: int) -> int
        decreases self.names.len() - from,
    {
        if from >= self.names.len() || self.names[from] == name {
            from
        } else {
            self.named_from(name, from + 1)
        }
    }

    pub open spec fn named(self, name: Seq<char>) -> int {
        self.named_from(name, 0)
    }

    /// The slot a function's result takes.
    pub open spec fn result(self, at: int) -> int {
        self.base[at] + self.arity[at]
    }

    /// Whether every function's slots are there.
    pub open spec fn fits(self, slots: nat) -> bool {
        &&& self.arity.len() == self.names.len()
        &&& self.base.len() == self.names.len()
        &&& forall|i: int|
            0 <= i < self.names.len() ==> 0 <= (#[trigger] self.base[i]) && self.base[i]
                + self.arity[i] < slots
    }
}

/// Whether a function's clauses all take the same number of arguments.
pub open spec fn is_steady(function: FunctionForm) -> bool {
    forall|i: int|
        0 <= i < function.clauses.len() ==> (#[trigger] function.clauses[i]).patterns.len()
            == function.clauses[0].patterns.len()
}

/// The first `count` functions, laid out in slots.
pub open spec fn layout(functions: Seq<FunctionForm>, count: nat) -> Result<
    (SchemeForm, Slots),
    Seq<char>,
>
    decreases count,
{
    if count == 0 {
        Ok((SchemeForm::none(), Slots::none()))
    } else {
        match layout(functions, (count - 1) as nat) {
            Ok((scheme, slots)) => {
                let function = functions[count - 1];
                let arity = function.clauses[0].patterns.len();
                if is_steady(function) {
                    Ok(
                        (
                            scheme.with(function.name, arity, slots.len() as int),
                            spread(slots, arity + 1),
                        ),
                    )
                } else {
                    Err("`"@ + function.name + "` takes a different number each clause"@)
                }
            },
            Err(said) => Err(said),
        }
    }
}

impl Store {
    /// The last of the first `count` constructors that has a name, of those
    /// that some type has.
    pub open spec fn ctor_named(self, name: Seq<char>, count: nat) -> Option<CtorId>
        decreases count,
    {
        if count == 0 {
            None
        } else if self.is_listed(CtorId((count - 1) as u32)) && self.name(
            self.ctors[count - 1].name,
        ) == name {
            Some(CtorId((count - 1) as u32))
        } else {
            self.ctor_named(name, (count - 1) as nat)
        }
    }
}

pub proof fn a_named_ctor_is_one(store: Store, name: Seq<char>, count: nat)
    requires
        count <= store.ctors.len() <= u32::MAX,
    ensures
        store.ctor_named(name, count) matches Some(ctor) ==> ctor.0 < count && store.is_listed(
            ctor,
        ) && store.name(store.ctor(ctor).name) == name,
    decreases count,
{
    if count > 0 {
        a_named_ctor_is_one(store, name, (count - 1) as nat);
    }
}

/// What a clause is read against: the types and constructors there are, how
/// many of the constructors may be named, and the functions.
#[verifier::ext_equal]
pub struct WorldForm {
    pub store: Store,
    pub ctors: nat,
    pub scheme: SchemeForm,
}

/// A name a clause has bound, and the slot its type is in.
#[verifier::ext_equal]
pub struct HeldForm {
    pub name: Seq<char>,
    pub slot: int,
}

/// The slot of the name bound last among the first `count`.
pub open spec fn slot_of(scope: Seq<HeldForm>, name: Seq<char>, count: nat) -> Option<int>
    decreases count,
{
    if count == 0 {
        None
    } else if scope[count - 1].name == name {
        Some(scope[count - 1].slot)
    } else {
        slot_of(scope, name, (count - 1) as nat)
    }
}

/// Whether a name may do observable work.
pub open spec fn is_effectful(name: Seq<char>) -> bool {
    name.len() > 0 && name.last() == '!'
}

impl WorldForm {
    pub open spec fn ctor(self, name: Seq<char>) -> Option<CtorId> {
        self.store.ctor_named(name, self.ctors)
    }

    pub open spec fn wf(self) -> bool {
        &&& self.store.wf()
        &&& self.ctors <= self.store.ctors.len()
    }

    /// A pattern naming a declared constructor is that constructor, not a
    /// name the clause binds. Nothing in the text says which.
    pub open spec fn resolved(self, pattern: PatternForm) -> PatternForm {
        match pattern {
            PatternForm::Bind(name) => if self.ctor(name) is Some {
                PatternForm::Ctor(name, seq![])
            } else {
                pattern
            },
            _ => pattern,
        }
    }

    /// What the names a constructor's fields take bind: a fresh slot per
    /// field.
    pub open spec fn fields_bound(
        self,
        slots: Slots,
        scope: Seq<HeldForm>,
        fields: Seq<TypeId>,
        names: Seq<Seq<char>>,
        count: nat,
    ) -> (Slots, Seq<HeldForm>)
        decreases count,
    {
        if count == 0 {
            (slots, scope)
        } else {
            let (slots, scope) = self.fields_bound(
                slots,
                scope,
                fields,
                names,
                (count - 1) as nat,
            );
            let slot = slots.len() as int;
            (
                slots.fresh().pin(slot, fields[count - 1])->Ok_0,
                scope.push(HeldForm { name: names[count - 1], slot }),
            )
        }
    }

    /// What the first `count` patterns of a clause bind: an argument's own
    /// slot where the pattern names it, and a fresh slot per field where it
    /// takes one apart.
    pub open spec fn patterns_bound(
        self,
        slots: Slots,
        patterns: Seq<PatternForm>,
        base: int,
        count: nat,
    ) -> Result<(Slots, Seq<HeldForm>), Seq<char>>
        decreases count,
    {
        if count == 0 {
            Ok((slots, seq![]))
        } else {
            match self.patterns_bound(slots, patterns, base, (count - 1) as nat) {
                Ok((slots, scope)) => self.pattern_bound(
                    slots,
                    scope,
                    patterns[count - 1],
                    base + count - 1,
                ),
                Err(said) => Err(said),
            }
        }
    }

    pub open spec fn pattern_bound(
        self,
        slots: Slots,
        scope: Seq<HeldForm>,
        pattern: PatternForm,
        slot: int,
    ) -> Result<(Slots, Seq<HeldForm>), Seq<char>> {
        match self.resolved(pattern) {
            PatternForm::Bind(name) => Ok((slots, scope.push(HeldForm { name, slot }))),
            PatternForm::Ctor(name, names) => match self.ctor(name) {
                Some(ctor) => match slots.pin(slot, self.store.ctor(ctor).owner) {
                    Ok(slots) => {
                        let fields = self.store.fields(ctor);
                        let count = if fields.len() < names.len() {
                            fields.len()
                        } else {
                            names.len()
                        };
                        Ok(self.fields_bound(slots, scope, fields, names, count))
                    },
                    Err(said) => Err(said),
                },
                None => Err("no constructor named `"@ + name + "`"@),
            },
        }
    }

    /// The slot a term's type lives in, constraining what it is built from.
    /// `caller` is whose clause it is in.
    pub open spec fn term_slot(
        self,
        slots: Slots,
        scope: Seq<HeldForm>,
        caller: Seq<char>,
        term: TermForm,
    ) -> Result<(Slots, int), Seq<char>>
        decreases term,
    {
        match term {
            TermForm::Name(name) => self.name_slot(slots, scope, name),
            TermForm::Apply(name, args) => match slot_of(scope, name, scope.len()) {
                Some(slot) => if args.len() == 0 {
                    self.bare_slot(slots, slot, caller, name)
                } else {
                    Err("`"@ + name + "` is a value, not something to apply"@)
                },
                None => match self.ctor(name) {
                    Some(ctor) => if self.store.fields(ctor).len() != args.len() {
                        Err(self.takes_fields(name, ctor))
                    } else {
                        match self.args_pinned(
                            slots,
                            scope,
                            caller,
                            args,
                            self.store.fields(ctor),
                        ) {
                            Ok(slots) => Ok(self.built(slots, ctor)),
                            Err(said) => Err(said),
                        }
                    },
                    None => {
                        let at = self.scheme.named(name);
                        if at >= self.scheme.names.len() {
                            Err("nothing named `"@ + name + "` is in scope"@)
                        } else if !is_effectful(caller) && is_effectful(name) {
                            Err(calls_an_effect(caller, name))
                        } else if args.len() != self.scheme.arity[at] {
                            Err(takes_arguments(name, self.scheme.arity[at]))
                        } else {
                            match self.args_united(
                                slots,
                                scope,
                                caller,
                                args,
                                self.scheme.base[at],
                            ) {
                                Ok(slots) => Ok((slots, self.scheme.result(at))),
                                Err(said) => Err(said),
                            }
                        }
                    },
                },
            },
        }
    }

    /// The slot of a bound name that is handed nothing. What is called that
    /// is what is built, where anything is, so the two are of one type.
    pub open spec fn bare_slot(
        self,
        slots: Slots,
        slot: int,
        caller: Seq<char>,
        name: Seq<char>,
    ) -> Result<(Slots, int), Seq<char>> {
        match self.ctor(name) {
            Some(ctor) => if self.store.fields(ctor).len() != 0 {
                Err(self.takes_fields(name, ctor))
            } else {
                match slots.pin(slot, self.store.ctor(ctor).owner) {
                    Ok(slots) => Ok((slots, slot)),
                    Err(said) => Err(said),
                }
            },
            None => {
                let at = self.scheme.named(name);
                if at >= self.scheme.names.len() {
                    Ok((slots, slot))
                } else if !is_effectful(caller) && is_effectful(name) {
                    Err(calls_an_effect(caller, name))
                } else if self.scheme.arity[at] != 0 {
                    Err(takes_arguments(name, self.scheme.arity[at]))
                } else {
                    match slots.union(slot, self.scheme.result(at)) {
                        Ok(slots) => Ok((slots, slot)),
                        Err(said) => Err(said),
                    }
                }
            },
        }
    }

    pub open spec fn takes_fields(self, name: Seq<char>, ctor: CtorId) -> Seq<char> {
        "`"@ + name + "` takes "@ + text::decimal(self.store.fields(ctor).len()) + " fields"@
    }

    /// What a constructor builds: a fresh slot, of the type it is one of.
    pub open spec fn built(self, slots: Slots, ctor: CtorId) -> (Slots, int) {
        let slot = slots.len() as int;
        (slots.fresh().pin(slot, self.store.ctor(ctor).owner)->Ok_0, slot)
    }

    /// The slot a bare name's type lives in. One that names a function is
    /// told apart later, where its clause is built.
    pub open spec fn name_slot(
        self,
        slots: Slots,
        scope: Seq<HeldForm>,
        name: Seq<char>,
    ) -> Result<(Slots, int), Seq<char>> {
        match slot_of(scope, name, scope.len()) {
            Some(slot) => Ok((slots, slot)),
            None => match self.ctor(name) {
                Some(ctor) => if self.store.fields(ctor).len() != 0 {
                    Err(self.takes_fields(name, ctor))
                } else {
                    Ok(self.built(slots, ctor))
                },
                None => {
                    let at = self.scheme.named(name);
                    if at >= self.scheme.names.len() {
                        Err("nothing named `"@ + name + "` is in scope"@)
                    } else {
                        Ok((slots, self.scheme.base[at]))
                    }
                },
            },
        }
    }

    /// Arguments, each of a field's type.
    pub open spec fn args_pinned(
        self,
        slots: Slots,
        scope: Seq<HeldForm>,
        caller: Seq<char>,
        args: Seq<TermForm>,
        fields: Seq<TypeId>,
    ) -> Result<Slots, Seq<char>>
        decreases args,
    {
        if args.len() == 0 {
            Ok(slots)
        } else {
            match self.args_pinned(slots, scope, caller, args.drop_last(), fields) {
                Ok(slots) => match self.term_slot(slots, scope, caller, args.last()) {
                    Ok((slots, slot)) => slots.pin(slot, fields[args.len() - 1]),
                    Err(said) => Err(said),
                },
                Err(said) => Err(said),
            }
        }
    }

    /// Arguments, each of a parameter's type.
    pub open spec fn args_united(
        self,
        slots: Slots,
        scope: Seq<HeldForm>,
        caller: Seq<char>,
        args: Seq<TermForm>,
        base: int,
    ) -> Result<Slots, Seq<char>>
        decreases args,
    {
        if args.len() == 0 {
            Ok(slots)
        } else {
            match self.args_united(slots, scope, caller, args.drop_last(), base) {
                Ok(slots) => match self.term_slot(slots, scope, caller, args.last()) {
                    Ok((slots, slot)) => slots.union(slot, base + args.len() - 1),
                    Err(said) => Err(said),
                },
                Err(said) => Err(said),
            }
        }
    }

    /// The first `count` steps of a clause, each bound where it named it.
    pub open spec fn steps_bound(
        self,
        slots: Slots,
        scope: Seq<HeldForm>,
        caller: Seq<char>,
        steps: Seq<StepForm>,
        count: nat,
    ) -> Result<(Slots, Seq<HeldForm>), Seq<char>>
        decreases count,
    {
        if count == 0 {
            Ok((slots, scope))
        } else {
            match self.steps_bound(slots, scope, caller, steps, (count - 1) as nat) {
                Ok((slots, scope)) => match self.term_slot(
                    slots,
                    scope,
                    caller,
                    steps[count - 1].term,
                ) {
                    Ok((slots, slot)) => Ok(
                        (slots, scope.push(HeldForm { name: steps[count - 1].name, slot })),
                    ),
                    Err(said) => Err(said),
                },
                Err(said) => Err(said),
            }
        }
    }

    /// What a clause says of the function it is one of, the one at `at`.
    pub open spec fn clause_told(self, slots: Slots, at: int, clause: ClauseForm) -> Result<
        Slots,
        Seq<char>,
    > {
        let caller = self.scheme.names[at];
        match self.patterns_bound(
            slots,
            clause.patterns,
            self.scheme.base[at],
            clause.patterns.len(),
        ) {
            Ok((slots, scope)) => match self.steps_bound(
                slots,
                scope,
                caller,
                clause.steps,
                clause.steps.len(),
            ) {
                Ok((slots, scope)) => match self.term_slot(slots, scope, caller, clause.body) {
                    Ok((slots, answer)) => slots.union(answer, self.scheme.result(at)),
                    Err(said) => Err(said),
                },
                Err(said) => Err(said),
            },
            Err(said) => Err(said),
        }
    }

    pub open spec fn clauses_told(
        self,
        slots: Slots,
        at: int,
        clauses: Seq<ClauseForm>,
        count: nat,
    ) -> Result<Slots, Seq<char>>
        decreases count,
    {
        if count == 0 {
            Ok(slots)
        } else {
            match self.clauses_told(slots, at, clauses, (count - 1) as nat) {
                Ok(slots) => self.clause_told(slots, at, clauses[count - 1]),
                Err(said) => Err(said),
            }
        }
    }

    /// What the first `count` functions say.
    pub open spec fn functions_told(
        self,
        slots: Slots,
        functions: Seq<FunctionForm>,
        count: nat,
    ) -> Result<Slots, Seq<char>>
        decreases count,
    {
        if count == 0 {
            Ok(slots)
        } else {
            match self.functions_told(slots, functions, (count - 1) as nat) {
                Ok(slots) => self.clauses_told(
                    slots,
                    count - 1,
                    functions[count - 1].clauses,
                    functions[count - 1].clauses.len(),
                ),
                Err(said) => Err(said),
            }
        }
    }
}

/// Every function that may be called, as they are kept.
#[derive(Debug)]
pub struct Scheme {
    names: Vec<String>,
    arity: Vec<usize>,
    base: Vec<usize>,
}

impl View for Scheme {
    type V = SchemeForm;

    closed spec fn view(&self) -> SchemeForm {
        SchemeForm {
            names: syntax::texts(self.names@),
            arity: Seq::new(self.arity@.len(), |i: int| self.arity@[i] as nat),
            base: Seq::new(self.base@.len(), |i: int| self.base@[i] as int),
        }
    }
}

impl Scheme {
    pub fn new() -> (scheme: Self)
        ensures
            scheme@ == SchemeForm::none(),
    {
        let scheme = Scheme { names: Vec::new(), arity: Vec::new(), base: Vec::new() };
        assert(scheme@ =~= SchemeForm::none());
        scheme
    }

    pub fn add(&mut self, name: &str, arity: usize, base: usize)
        ensures
            final(self)@ == old(self)@.with(name@, arity as nat, base as int),
    {
        self.names.push(name.to_owned());
        self.arity.push(arity);
        self.base.push(base);
        assert(self@ =~= old(self)@.with(name@, arity as nat, base as int));
    }

    /// Which function has a name.
    pub fn named(&self, name: &str) -> (at: usize)
        ensures
            at == self@.named(name@),
            at <= self@.names.len(),
    {
        let mut at: usize = 0;
        while at < self.names.len() && !text::same(self.names[at].as_str(), name)
            invariant
                at <= self.names@.len(),
                self@.named_from(name@, at as int) == self@.named(name@),
            decreases self.names@.len() - at,
        {
            assert(self@.names[at as int] == self.names@[at as int]@);
            at = at + 1;
        }
        if at < self.names.len() {
            assert(self@.names[at as int] == self.names@[at as int]@);
        }
        at
    }

    pub fn len(&self) -> (len: usize)
        ensures
            len == self@.names.len(),
    {
        self.names.len()
    }

    pub fn name(&self, at: usize) -> (name: &str)
        requires
            at < self@.names.len(),
        ensures
            name@ == self@.names[at as int],
    {
        self.names[at].as_str()
    }

    pub fn arity(&self, at: usize) -> (arity: usize)
        requires
            at < self@.arity.len(),
        ensures
            arity == self@.arity[at as int],
    {
        self.arity[at]
    }

    pub fn base(&self, at: usize) -> (base: usize)
        requires
            at < self@.base.len(),
        ensures
            base == self@.base[at as int],
    {
        self.base[at]
    }
}

/// A name a clause has bound, and the slot its type is in.
#[derive(Clone, Copy, Debug)]
pub struct Held<'a> {
    pub name: &'a str,
    pub slot: usize,
}

pub open spec fn held_forms(scope: Seq<Held>) -> Seq<HeldForm> {
    Seq::new(scope.len(), |i: int| HeldForm { name: scope[i].name@, slot: scope[i].slot as int })
}

/// Whether every name's slot is there.
pub open spec fn scope_fits(scope: Seq<HeldForm>, slots: nat) -> bool {
    forall|i: int| 0 <= i < scope.len() ==> 0 <= (#[trigger] scope[i]).slot < slots
}

fn find_slot(scope: &Vec<Held>, name: &str) -> (slot: Option<usize>)
    ensures
        match slot {
            Some(found) => slot_of(held_forms(scope@), name@, scope@.len()) == Some(found as int),
            None => slot_of(held_forms(scope@), name@, scope@.len()) is None,
        },
        slot matches Some(found) ==> exists|i: int|
            0 <= i < scope@.len() && #[trigger] held_forms(scope@)[i].slot == found,
{
    let ghost forms = held_forms(scope@);
    let mut count: usize = scope.len();
    while count > 0
        invariant
            forms == held_forms(scope@),
            count <= scope@.len(),
            slot_of(forms, name@, count as nat) == slot_of(forms, name@, scope@.len()),
        decreases count,
    {
        let held = &scope[count - 1];
        assert(forms[count - 1].name == held.name@);
        if text::same(held.name, name) {
            assert(forms[count - 1].slot == held.slot);
            return Some(held.slot);
        }
        count = count - 1;
    }
    None
}

/// Whether a name may do observable work.
pub fn effectful(name: &str) -> (effectful: bool)
    ensures
        effectful == is_effectful(name@),
{
    let characters = text::characters(name);
    characters.len() > 0 && characters[characters.len() - 1] == '!'
}

pub open spec fn calls_an_effect(caller: Seq<char>, name: Seq<char>) -> Seq<char> {
    "`"@ + caller + "` is pure and calls `"@ + name + "`"@
}

fn told_of_an_effect(caller: &str, name: &str) -> (said: String)
    ensures
        said@ == calls_an_effect(caller@, name@),
{
    let mut said = text::around("`", caller, "` is pure and calls `");
    said.append(name);
    said.append("`");
    assert(said@ =~= calls_an_effect(caller@, name@));
    said
}

pub open spec fn takes_arguments(name: Seq<char>, arity: nat) -> Seq<char> {
    "`"@ + name + "` takes "@ + text::decimal(arity) + " arguments"@
}

fn told_of_arguments(name: &str, arity: usize) -> (said: String)
    ensures
        said@ == takes_arguments(name@, arity as nat),
{
    let mut said = text::around("`", name, "` takes ");
    text::push_decimal(&mut said, arity as u64);
    said.append(" arguments");
    assert(said@ =~= takes_arguments(name@, arity as nat));
    said
}

/// What a clause is read against.
pub struct World<'a> {
    pub program: &'a Program,
    /// How many of the constructors may be named.
    pub ctors: u32,
    pub scheme: &'a Scheme,
}

impl<'a> View for World<'a> {
    type V = WorldForm;

    open spec fn view(&self) -> WorldForm {
        WorldForm { store: self.program@, ctors: self.ctors as nat, scheme: self.scheme@ }
    }
}

/// Whether slots hold no type but those there are, and every function's
/// slots are among them.
pub open spec fn slots_fit(world: WorldForm, slots: Slots) -> bool {
    &&& slots.fits()
    &&& world.scheme.fits(slots.len())
    &&& forall|i: int|
        0 <= i < slots.known.len() ==> ((#[trigger] slots.known[i]) matches Some(id) ==> id.0
            < world.store.types.len())
}

impl<'a> World<'a> {
    /// The constructor that has a name.
    pub fn ctor(&self, name: &str) -> (found: Option<CtorId>)
        requires
            self@.wf(),
        ensures
            found == self@.ctor(name@),
            found matches Some(ctor) ==> ctor.0 < self.ctors,
    {
        let ghost store = self.program@;
        let mut count: u32 = self.ctors;
        while count > 0
            invariant
                store == self.program@,
                store.wf(),
                count <= self.ctors <= store.ctors.len(),
                store.ctor_named(name@, count as nat) == self@.ctor(name@),
            decreases count,
        {
            let at = CtorId(count - 1);
            proof {
                assert(store.ctor_fits(count - 1));
            }
            if self.program.lists(at) && text::same(
                self.program.name(self.program.ctor(at).name),
                name,
            ) {
                return Some(at);
            }
            count = count - 1;
        }
        None
    }

    fn takes_fields(&self, name: &str, ctor: CtorId) -> (said: String)
        requires
            self@.wf(),
            ctor.0 < self.program@.ctors.len(),
        ensures
            said@ == self@.takes_fields(name@, ctor),
    {
        let mut said = text::around("`", name, "` takes ");
        text::push_decimal(&mut said, self.program.fields(ctor).len() as u64);
        said.append(" fields");
        assert(said@ =~= self@.takes_fields(name@, ctor));
        said
    }

    fn build(&self, slots: &mut Unify, ctor: CtorId) -> (slot: usize)
        requires
            self@.wf(),
            ctor.0 < self.program@.ctors.len(),
            old(slots).wf(),
            slots_fit(self@, old(slots)@),
        ensures
            final(slots).wf(),
            slots_fit(self@, final(slots)@),
            final(slots)@.len() == old(slots)@.len() + 1,
            (final(slots)@, slot as int) == self@.built(old(slots)@, ctor),
            slot < final(slots)@.len(),
    {
        proof {
            assert(self.program@.ctor_fits(ctor.0 as int));
        }
        let slot: usize = slots.fresh();
        let owner = self.program.ctor(ctor).owner;
        let pinned = slots.pin(slot, owner);
        assert(pinned is Ok);
        slot
    }

    /// The slot of a bound name that is handed nothing.
    fn bare(&self, slots: &mut Unify, slot: usize, caller: &str, name: &str) -> (bare: Result<
        usize,
        String,
    >)
        requires
            self@.wf(),
            old(slots).wf(),
            slots_fit(self@, old(slots)@),
            slot < old(slots)@.len(),
        ensures
            final(slots).wf(),
            slots_fit(self@, final(slots)@),
            old(slots)@.len() <= final(slots)@.len(),
            match bare {
                Ok(found) => self@.bare_slot(old(slots)@, slot as int, caller@, name@) == Ok::<
                    _,
                    Seq<char>,
                >((final(slots)@, found as int)) && found < final(slots)@.len(),
                Err(said) => self@.bare_slot(old(slots)@, slot as int, caller@, name@) == Err::<
                    (Slots, int),
                    _,
                >(said@),
            },
    {
        if let Some(ctor) = self.ctor(name) {
            proof {
                assert(self.program@.ctor_fits(ctor.0 as int));
            }
            if self.program.fields(ctor).len() != 0 {
                return Err(self.takes_fields(name, ctor));
            }
            let owner = self.program.ctor(ctor).owner;
            return match slots.pin(slot, owner) {
                Ok(_) => Ok(slot),
                Err(said) => Err(said),
            };
        }
        let at: usize = self.scheme.named(name);
        if at >= self.scheme.len() {
            return Ok(slot);
        }
        if !effectful(caller) && effectful(name) {
            return Err(told_of_an_effect(caller, name));
        }
        let arity: usize = self.scheme.arity(at);
        if arity != 0 {
            return Err(told_of_arguments(name, arity));
        }
        let base: usize = self.scheme.base(at);
        match slots.union(slot, base) {
            Ok(_) => Ok(slot),
            Err(said) => Err(said),
        }
    }

    /// The slot a term's type lives in, constraining what it is built from.
    fn term(&self, slots: &mut Unify, scope: &Vec<Held>, caller: &str, term: &Term) -> (slot:
        Result<usize, String>)
        requires
            self@.wf(),
            old(slots).wf(),
            slots_fit(self@, old(slots)@),
            scope_fits(held_forms(scope@), old(slots)@.len()),
        ensures
            final(slots).wf(),
            slots_fit(self@, final(slots)@),
            old(slots)@.len() <= final(slots)@.len(),
            match slot {
                Ok(found) => self@.term_slot(old(slots)@, held_forms(scope@), caller@, term@)
                    == Ok::<_, Seq<char>>((final(slots)@, found as int)) && found
                    < final(slots)@.len(),
                Err(said) => self@.term_slot(old(slots)@, held_forms(scope@), caller@, term@)
                    == Err::<(Slots, int), _>(said@),
            },
        decreases term@,
    {
        let ghost forms = held_forms(scope@);
        let ghost start = slots@;
        let (name, args): (&String, Option<&Vec<Term>>) = match term {
            Term::Name(name) => (name, None),
            Term::Apply(name, args) => (name, Some(args)),
        };
        let count: usize = match args {
            Some(args) => args.len(),
            None => 0,
        };
        proof {
            if let Some(held) = args {
                syntax::forms_are_each(held@);
            }
        }
        if let Some(slot) = find_slot(scope, name.as_str()) {
            if args.is_none() {
                return Ok(slot);
            }
            if count == 0 {
                return self.bare(slots, slot, caller, name.as_str());
            }
            return Err(text::around("`", name.as_str(), "` is a value, not something to apply"));
        }
        if let Some(ctor) = self.ctor(name.as_str()) {
            proof {
                assert(self.program@.ctor_fits(ctor.0 as int));
            }
            let fields = self.program.fields(ctor);
            if fields.len() != count {
                return Err(self.takes_fields(name.as_str(), ctor));
            }
            if let Some(args) = args {
                let ghost all = syntax::term_forms(args@);
                let mut at: usize = 0;
                assert(all.take(0) =~= seq![]);
                while at < args.len()
                    invariant
                        self@.wf(),
                        slots.wf(),
                        slots_fit(self@, slots@),
                        forms == held_forms(scope@),
                        scope_fits(forms, start.len()),
                        start.len() <= slots@.len(),
                        start == old(slots)@,
                        ctor.0 < self.program@.ctors.len(),
                        self.program@.ctor_fits(ctor.0 as int),
                        fields@ == self.program@.fields(ctor),
                        fields@.len() == args@.len() == count,
                        *term == (Term::Apply(*name, *args)),
                        term@ == TermForm::Apply(name@, all),
                        all == syntax::term_forms(args@),
                        all.len() == args@.len(),
                        forall|i: int| 0 <= i < args@.len() ==> #[trigger] all[i] == args@[i]@,
                        slot_of(forms, name@, forms.len()) is None,
                        self@.ctor(name@) == Some(ctor),
                        at <= args@.len(),
                        self@.args_pinned(start, forms, caller@, all.take(at as int), fields@)
                            == Ok::<_, Seq<char>>(slots@),
                    decreases args@.len() - at,
                {
                    let ghost next = all.take(at + 1);
                    proof {
                        assert(next.drop_last() =~= all.take(at as int));
                        assert(next.last() == args@[at as int]@);
                        args_stop_where_one_does(
                            self@,
                            start,
                            forms,
                            caller@,
                            all,
                            fields@,
                            at + 1,
                        );
                        assert(fields@[at as int] == self.program@.types_pool[self.program@.ctor(
                            ctor,
                        ).fields.start + at]);
                    }
                    match self.term(slots, scope, caller, &args[at]) {
                        Ok(slot) => {
                            if let Err(said) = slots.pin(slot, fields[at]) {
                                return Err(said);
                            }
                        },
                        Err(said) => {
                            return Err(said);
                        },
                    }
                    at = at + 1;
                }
                assert(all.take(at as int) =~= all);
            }
            return Ok(self.build(slots, ctor));
        }
        let at: usize = self.scheme.named(name.as_str());
        if at >= self.scheme.len() {
            return Err(text::around("nothing named `", name.as_str(), "` is in scope"));
        }
        let base: usize = self.scheme.base(at);
        let taken: usize = slots.len();
        if let Some(args) = args {
            if !effectful(caller) && effectful(name.as_str()) {
                return Err(told_of_an_effect(caller, name.as_str()));
            }
            let arity: usize = self.scheme.arity(at);
            if args.len() != arity {
                return Err(told_of_arguments(name.as_str(), arity));
            }
            let ghost all = syntax::term_forms(args@);
            let mut next: usize = 0;
            assert(all.take(0) =~= seq![]);
            while next < args.len()
                invariant
                    self@.wf(),
                    slots.wf(),
                    slots_fit(self@, slots@),
                    forms == held_forms(scope@),
                    scope_fits(forms, start.len()),
                    start.len() <= slots@.len(),
                    start == old(slots)@,
                    *term == (Term::Apply(*name, *args)),
                    term@ == TermForm::Apply(name@, all),
                    all == syntax::term_forms(args@),
                    all.len() == args@.len(),
                    forall|i: int| 0 <= i < args@.len() ==> #[trigger] all[i] == args@[i]@,
                    slot_of(forms, name@, forms.len()) is None,
                    self@.ctor(name@) is None,
                    at == self@.scheme.named(name@),
                    at < self@.scheme.names.len(),
                    is_effectful(caller@) || !is_effectful(name@),
                    arity == self@.scheme.arity[at as int] == args@.len(),
                    base == self@.scheme.base[at as int],
                    base + arity < start.len() == taken,
                    next <= args@.len(),
                    self@.args_united(start, forms, caller@, all.take(next as int), base as int)
                        == Ok::<_, Seq<char>>(slots@),
                decreases args@.len() - next,
            {
                let ghost upto = all.take(next + 1);
                proof {
                    assert(upto.drop_last() =~= all.take(next as int));
                    assert(upto.last() == args@[next as int]@);
                    calls_stop_where_one_does(
                        self@,
                        start,
                        forms,
                        caller@,
                        all,
                        base as int,
                        next + 1,
                    );
                }
                match self.term(slots, scope, caller, &args[next]) {
                    Ok(slot) => {
                        if let Err(said) = slots.union(slot, base + next) {
                            return Err(said);
                        }
                    },
                    Err(said) => {
                        return Err(said);
                    },
                }
                next = next + 1;
            }
            assert(all.take(next as int) =~= all);
            return Ok(base + arity);
        }
        Ok(base)
    }
}

/// Where one argument is refused, all of them are, and for the same reason.
proof fn args_stop_where_one_does(
    world: WorldForm,
    slots: Slots,
    scope: Seq<HeldForm>,
    caller: Seq<char>,
    args: Seq<TermForm>,
    fields: Seq<TypeId>,
    count: int,
)
    requires
        0 <= count <= args.len(),
    ensures
        world.args_pinned(slots, scope, caller, args.take(count), fields) matches Err(said)
            ==> world.args_pinned(slots, scope, caller, args, fields) == Err::<Slots, _>(said),
    decreases args.len(),
{
    if count < args.len() {
        args_stop_where_one_does(world, slots, scope, caller, args.drop_last(), fields, count);
        assert(args.drop_last().take(count) =~= args.take(count));
    } else {
        assert(args.take(count) =~= args);
    }
}

proof fn calls_stop_where_one_does(
    world: WorldForm,
    slots: Slots,
    scope: Seq<HeldForm>,
    caller: Seq<char>,
    args: Seq<TermForm>,
    base: int,
    count: int,
)
    requires
        0 <= count <= args.len(),
    ensures
        world.args_united(slots, scope, caller, args.take(count), base) matches Err(said)
            ==> world.args_united(slots, scope, caller, args, base) == Err::<Slots, _>(said),
    decreases args.len(),
{
    if count < args.len() {
        calls_stop_where_one_does(world, slots, scope, caller, args.drop_last(), base, count);
        assert(args.drop_last().take(count) =~= args.take(count));
    } else {
        assert(args.take(count) =~= args);
    }
}

/// Lay every function out in slots.
pub fn lay_out(functions: &Vec<Definition>) -> (laid: Result<(Scheme, Unify), String>)
    requires
        forall|f: int| 0 <= f < functions@.len() ==> (#[trigger] functions@[f]).clauses@.len() > 0,
    ensures
        match laid {
            Ok((scheme, slots)) => {
                &&& layout(syntax::function_forms(functions@), functions@.len()) == Ok::<
                    _,
                    Seq<char>,
                >((scheme@, slots@))
                &&& slots.wf()
                &&& slots@.fits()
                &&& forall|i: int|
                    0 <= i < slots@.known.len() ==> (#[trigger] slots@.known[i]) is None
                &&& scheme@.fits(slots@.len())
                &&& scheme@.names.len() == functions@.len()
                &&& forall|f: int, c: int|
                    0 <= f < functions@.len() && 0 <= c < functions@[f].clauses@.len() ==> (
                    #[trigger] functions@[f].clauses@[c])@.patterns.len() == scheme@.arity[f]
            },
            Err(said) => layout(syntax::function_forms(functions@), functions@.len()) == Err::<
                (SchemeForm, Slots),
                _,
            >(said@),
        },
{
    let ghost forms = syntax::function_forms(functions@);
    let mut scheme = Scheme::new();
    let mut slots = Unify::new();
    let mut at: usize = 0;
    while at < functions.len()
        invariant
            forms == syntax::function_forms(functions@),
            forall|f: int|
                0 <= f < functions@.len() ==> (#[trigger] functions@[f]).clauses@.len() > 0,
            at <= functions@.len(),
            layout(forms, at as nat) == Ok::<_, Seq<char>>((scheme@, slots@)),
            slots.wf(),
            slots@.fits(),
            forall|i: int| 0 <= i < slots@.known.len() ==> (#[trigger] slots@.known[i]) is None,
            scheme@.fits(slots@.len()),
            scheme@.names.len() == at,
            forall|f: int, c: int|
                0 <= f < at && 0 <= c < functions@[f].clauses@.len() ==> (
                #[trigger] functions@[f].clauses@[c])@.patterns.len() == scheme@.arity[f],
        decreases functions@.len() - at,
    {
        let function = &functions[at];
        let ghost held = forms[at as int];
        proof {
            assert(held == function@);
            layout_stops_where_one_does(forms, at as nat + 1, forms.len());
        }
        let width: usize = function.clauses[0].patterns.len();
        assert(held.clauses[0] == function.clauses@[0]@);
        let mut next: usize = 0;
        while next < function.clauses.len()
            invariant
                forms == syntax::function_forms(functions@),
                at < functions@.len(),
                held == forms[at as int],
                held == function@,
                layout(forms, at as nat) == Ok::<_, Seq<char>>((scheme@, slots@)),
                layout(forms, at as nat + 1) matches Err(said) ==> layout(forms, forms.len())
                    == Err::<(SchemeForm, Slots), _>(said),
                next <= function.clauses@.len(),
                width == held.clauses[0].patterns.len(),
                forall|c: int|
                    0 <= c < next ==> (#[trigger] function.clauses@[c])@.patterns.len() == width,
            decreases function.clauses@.len() - next,
        {
            assert(held.clauses[next as int] == function.clauses@[next as int]@);
            if function.clauses[next].patterns.len() != width {
                assert(!is_steady(held));
                return Err(
                    text::around("`", function.name.as_str(), "` takes a different number each clause"),
                );
            }
            next = next + 1;
        }
        assert(is_steady(held)) by {
            assert forall|i: int| 0 <= i < held.clauses.len() implies (
            #[trigger] held.clauses[i]).patterns.len() == held.clauses[0].patterns.len() by {
                assert(held.clauses[i] == function.clauses@[i]@);
            }
        }
        let ghost before = slots@;
        let base: usize = slots.fresh();
        let mut more: usize = 0;
        assert(slots@ =~= spread(before, 1)) by {
            reveal_with_fuel(spread, 2);
        }
        while more < width
            invariant
                more <= width,
                slots.wf(),
                before.fits(),
                slots@ == spread(before, more as nat + 1),
                slots@.fits(),
                forall|i: int| 0 <= i < slots@.known.len() ==> (#[trigger] slots@.known[i]) is None,
            decreases width - more,
        {
            slots.fresh();
            more = more + 1;
            proof {
                spreading_fits(before, more as nat + 1);
            }
        }
        proof {
            spreading_fits(before, width as nat + 1);
        }
        scheme.add(function.name.as_str(), width, base);
        at = at + 1;
    }
    Ok((scheme, slots))
}

proof fn layout_stops_where_one_does(functions: Seq<FunctionForm>, count: nat, all: nat)
    requires
        count <= all,
    ensures
        layout(functions, count) matches Err(said) ==> layout(functions, all) == Err::<
            (SchemeForm, Slots),
            _,
        >(said),
    decreases all,
{
    if count < all {
        layout_stops_where_one_does(functions, count, (all - 1) as nat);
    }
}

impl<'a> World<'a> {
    /// What one pattern binds: the argument's own slot where it names it, and
    /// a fresh slot per field where it takes one apart.
    fn pattern<'b>(
        &self,
        slots: &mut Unify,
        scope: &mut Vec<Held<'b>>,
        pattern: &'b Pattern,
        slot: usize,
    ) -> (done: Result<(), String>)
        requires
            self@.wf(),
            old(slots).wf(),
            slots_fit(self@, old(slots)@),
            scope_fits(held_forms(old(scope)@), old(slots)@.len()),
            slot < old(slots)@.len(),
        ensures
            final(slots).wf(),
            slots_fit(self@, final(slots)@),
            old(slots)@.len() <= final(slots)@.len(),
            match done {
                Ok(_) => self@.pattern_bound(
                    old(slots)@,
                    held_forms(old(scope)@),
                    pattern@,
                    slot as int,
                ) == Ok::<_, Seq<char>>((final(slots)@, held_forms(final(scope)@))) && scope_fits(
                    held_forms(final(scope)@),
                    final(slots)@.len(),
                ),
                Err(said) => self@.pattern_bound(
                    old(slots)@,
                    held_forms(old(scope)@),
                    pattern@,
                    slot as int,
                ) == Err::<(Slots, Seq<HeldForm>), _>(said@),
            },
    {
        let ghost before = held_forms(scope@);
        let (name, names): (&'b String, Option<&'b Vec<String>>) = match pattern {
            Pattern::Bind(name) => (name, None),
            Pattern::Ctor(name, names) => (name, Some(names)),
        };
        let ctor = match self.ctor(name.as_str()) {
            Some(ctor) => ctor,
            None => {
                if names.is_some() {
                    return Err(text::around("no constructor named `", name.as_str(), "`"));
                }
                scope.push(Held { name: name.as_str(), slot });
                assert(held_forms(scope@) =~= before.push(
                    HeldForm { name: name@, slot: slot as int },
                ));
                return Ok(());
            },
        };
        proof {
            assert(self.program@.ctor_fits(ctor.0 as int));
        }
        let owner = self.program.ctor(ctor).owner;
        if let Err(said) = slots.pin(slot, owner) {
            return Err(said);
        }
        let ghost pinned = slots@;
        if let Some(names) = names {
            let fields = self.program.fields(ctor);
            let ghost all = syntax::texts(names@);
            let count: usize = if fields.len() < names.len() {
                fields.len()
            } else {
                names.len()
            };
            let mut at: usize = 0;
            while at < count
                invariant
                    self@.wf(),
                    slots.wf(),
                    slots_fit(self@, slots@),
                    old(slots)@.len() <= slots@.len(),
                    scope_fits(held_forms(scope@), slots@.len()),
                    ctor.0 < self.program@.ctors.len(),
                    self.program@.ctor_fits(ctor.0 as int),
                    fields@ == self.program@.fields(ctor),
                    all == syntax::texts(names@),
                    count <= fields@.len(),
                    count <= names@.len(),
                    at <= count,
                    self@.fields_bound(pinned, before, fields@, all, at as nat) == (
                        slots@,
                        held_forms(scope@),
                    ),
                decreases count - at,
            {
                let ghost here = held_forms(scope@);
                let ghost now = slots@;
                proof {
                    assert(fields@[at as int] == self.program@.types_pool[self.program@.ctor(
                        ctor,
                    ).fields.start + at]);
                }
                let held: usize = slots.fresh();
                let done = slots.pin(held, fields[at]);
                assert(done is Ok);
                let name = names[at].as_str();
                scope.push(Held { name, slot: held });
                assert(held_forms(scope@) =~= here.push(
                    HeldForm { name: all[at as int], slot: held as int },
                ));
                at = at + 1;
            }
        } else {
            proof {
                assert(self@.fields_bound(
                    pinned,
                    before,
                    self.program@.fields(ctor),
                    seq![],
                    0,
                ) == (pinned, before));
            }
        }
        Ok(())
    }

    /// What a clause says of the function it is one of.
    fn clause(&self, slots: &mut Unify, at: usize, clause: &Clause) -> (done: Result<(), String>)
        requires
            self@.wf(),
            old(slots).wf(),
            slots_fit(self@, old(slots)@),
            at < self@.scheme.names.len(),
            clause@.patterns.len() == self@.scheme.arity[at as int],
        ensures
            final(slots).wf(),
            slots_fit(self@, final(slots)@),
            old(slots)@.len() <= final(slots)@.len(),
            match done {
                Ok(_) => self@.clause_told(old(slots)@, at as int, clause@) == Ok::<_, Seq<char>>(
                    final(slots)@,
                ),
                Err(said) => self@.clause_told(old(slots)@, at as int, clause@) == Err::<Slots, _>(
                    said@,
                ),
            },
    {
        let ghost start = slots@;
        let base: usize = self.scheme.base(at);
        let arity: usize = self.scheme.arity(at);
        let caller = self.scheme.name(at);
        let taken: usize = slots.len();
        let mut scope: Vec<Held> = Vec::new();
        let ghost patterns = clause@.patterns;
        let mut next: usize = 0;
        assert(held_forms(scope@) =~= seq![]);
        while next < clause.patterns.len()
            invariant
                self@.wf(),
                slots.wf(),
                slots_fit(self@, slots@),
                start == old(slots)@,
                start.len() == taken,
                start.len() <= slots@.len(),
                scope_fits(held_forms(scope@), slots@.len()),
                patterns == clause@.patterns,
                patterns == syntax::pattern_forms(clause.patterns@),
                at < self@.scheme.names.len(),
                base == self@.scheme.base[at as int],
                arity == patterns.len(),
                base + arity < taken,
                next <= patterns.len(),
                self@.patterns_bound(start, patterns, base as int, next as nat) == Ok::<
                    _,
                    Seq<char>,
                >((slots@, held_forms(scope@))),
            decreases patterns.len() - next,
        {
            assert(patterns[next as int] == clause.patterns@[next as int]@);
            let done = self.pattern(slots, &mut scope, &clause.patterns[next], base + next);
            if let Err(said) = done {
                proof {
                    patterns_stop_where_one_does(
                        self@,
                        start,
                        patterns,
                        base as int,
                        next as nat + 1,
                        patterns.len(),
                    );
                }
                return Err(said);
            }
            next = next + 1;
        }
        let ghost bound = slots@;
        let ghost first = held_forms(scope@);
        let ghost steps = clause@.steps;
        let mut next: usize = 0;
        while next < clause.steps.len()
            invariant
                self@.wf(),
                slots.wf(),
                slots_fit(self@, slots@),
                start == old(slots)@,
                start.len() <= slots@.len(),
                start.len() == taken,
                scope_fits(held_forms(scope@), slots@.len()),
                steps == clause@.steps,
                patterns == clause@.patterns,
                steps == syntax::step_forms(clause.steps@),
                at < self@.scheme.names.len(),
                base == self@.scheme.base[at as int],
                arity == self@.scheme.arity[at as int],
                base + arity < taken,
                caller@ == self@.scheme.names[at as int],
                self@.patterns_bound(start, patterns, base as int, patterns.len()) == Ok::<
                    _,
                    Seq<char>,
                >((bound, first)),
                next <= steps.len(),
                self@.steps_bound(bound, first, caller@, steps, next as nat) == Ok::<_, Seq<char>>(
                    (slots@, held_forms(scope@)),
                ),
            decreases steps.len() - next,
        {
            let ghost here = held_forms(scope@);
            assert(steps[next as int] == clause.steps@[next as int]@);
            match self.term(slots, &scope, caller, &clause.steps[next].term) {
                Ok(slot) => {
                    let name = clause.steps[next].name.as_str();
                    scope.push(Held { name, slot });
                    assert(held_forms(scope@) =~= here.push(
                        HeldForm { name: steps[next as int].name, slot: slot as int },
                    ));
                },
                Err(said) => {
                    proof {
                        steps_stop_where_one_does(
                            self@,
                            bound,
                            first,
                            caller@,
                            steps,
                            next as nat + 1,
                            steps.len(),
                        );
                    }
                    return Err(said);
                },
            }
            next = next + 1;
        }
        match self.term(slots, &scope, caller, &clause.body) {
            Ok(answer) => slots.union(answer, base + arity),
            Err(said) => Err(said),
        }
    }

    /// What every function says.
    pub fn functions(&self, slots: &mut Unify, functions: &Vec<Definition>) -> (done: Result<
        (),
        String,
    >)
        requires
            self@.wf(),
            old(slots).wf(),
            slots_fit(self@, old(slots)@),
            functions@.len() <= self@.scheme.names.len(),
            forall|f: int, c: int|
                0 <= f < functions@.len() && 0 <= c < functions@[f].clauses@.len() ==> (
                #[trigger] functions@[f].clauses@[c])@.patterns.len() == self@.scheme.arity[f],
        ensures
            final(slots).wf(),
            slots_fit(self@, final(slots)@),
            match done {
                Ok(_) => self@.functions_told(
                    old(slots)@,
                    syntax::function_forms(functions@),
                    functions@.len(),
                ) == Ok::<_, Seq<char>>(final(slots)@),
                Err(said) => self@.functions_told(
                    old(slots)@,
                    syntax::function_forms(functions@),
                    functions@.len(),
                ) == Err::<Slots, _>(said@),
            },
    {
        let ghost forms = syntax::function_forms(functions@);
        let ghost start = slots@;
        let mut at: usize = 0;
        while at < functions.len()
            invariant
                self@.wf(),
                slots.wf(),
                slots_fit(self@, slots@),
                start == old(slots)@,
                forms == syntax::function_forms(functions@),
                functions@.len() <= self@.scheme.names.len(),
                forall|f: int, c: int|
                    0 <= f < functions@.len() && 0 <= c < functions@[f].clauses@.len() ==> (
                    #[trigger] functions@[f].clauses@[c])@.patterns.len() == self@.scheme.arity[f],
                at <= functions@.len(),
                self@.functions_told(start, forms, at as nat) == Ok::<_, Seq<char>>(slots@),
            decreases functions@.len() - at,
        {
            let ghost now = slots@;
            let clauses = &functions[at].clauses;
            let ghost held = forms[at as int].clauses;
            proof {
                assert(held =~= syntax::clause_forms(clauses@));
                functions_stop_where_one_does(self@, start, forms, at as nat + 1, forms.len());
            }
            let mut next: usize = 0;
            while next < clauses.len()
                invariant
                    self@.wf(),
                    slots.wf(),
                    slots_fit(self@, slots@),
                    start == old(slots)@,
                    at < functions@.len() <= self@.scheme.names.len(),
                    forms == syntax::function_forms(functions@),
                    *clauses == functions@[at as int].clauses,
                    held == forms[at as int].clauses,
                    held == syntax::clause_forms(clauses@),
                    forall|f: int, c: int|
                        0 <= f < functions@.len() && 0 <= c < functions@[f].clauses@.len() ==> (
                        #[trigger] functions@[f].clauses@[c])@.patterns.len()
                            == self@.scheme.arity[f],
                    self@.functions_told(start, forms, at as nat + 1) matches Err(said)
                        ==> self@.functions_told(start, forms, forms.len()) == Err::<Slots, _>(
                        said,
                    ),
                    self@.functions_told(start, forms, at as nat) == Ok::<_, Seq<char>>(now),
                    next <= clauses@.len(),
                    self@.clauses_told(now, at as int, held, next as nat) == Ok::<_, Seq<char>>(
                        slots@,
                    ),
                decreases clauses@.len() - next,
            {
                assert(held[next as int] == functions@[at as int].clauses@[next as int]@);
                if let Err(said) = self.clause(slots, at, &clauses[next]) {
                    proof {
                        clauses_stop_where_one_does(
                            self@,
                            now,
                            at as int,
                            held,
                            next as nat + 1,
                            held.len(),
                        );
                    }
                    return Err(said);
                }
                next = next + 1;
            }
            at = at + 1;
        }
        Ok(())
    }
}

proof fn patterns_stop_where_one_does(
    world: WorldForm,
    slots: Slots,
    patterns: Seq<PatternForm>,
    base: int,
    count: nat,
    all: nat,
)
    requires
        count <= all,
    ensures
        world.patterns_bound(slots, patterns, base, count) matches Err(said)
            ==> world.patterns_bound(slots, patterns, base, all) == Err::<
            (Slots, Seq<HeldForm>),
            _,
        >(said),
    decreases all,
{
    if count < all {
        patterns_stop_where_one_does(world, slots, patterns, base, count, (all - 1) as nat);
    }
}

proof fn steps_stop_where_one_does(
    world: WorldForm,
    slots: Slots,
    scope: Seq<HeldForm>,
    caller: Seq<char>,
    steps: Seq<StepForm>,
    count: nat,
    all: nat,
)
    requires
        count <= all,
    ensures
        world.steps_bound(slots, scope, caller, steps, count) matches Err(said)
            ==> world.steps_bound(slots, scope, caller, steps, all) == Err::<
            (Slots, Seq<HeldForm>),
            _,
        >(said),
    decreases all,
{
    if count < all {
        steps_stop_where_one_does(world, slots, scope, caller, steps, count, (all - 1) as nat);
    }
}

proof fn clauses_stop_where_one_does(
    world: WorldForm,
    slots: Slots,
    at: int,
    clauses: Seq<ClauseForm>,
    count: nat,
    all: nat,
)
    requires
        count <= all,
    ensures
        world.clauses_told(slots, at, clauses, count) matches Err(said) ==> world.clauses_told(
            slots,
            at,
            clauses,
            all,
        ) == Err::<Slots, _>(said),
    decreases all,
{
    if count < all {
        clauses_stop_where_one_does(world, slots, at, clauses, count, (all - 1) as nat);
    }
}

proof fn functions_stop_where_one_does(
    world: WorldForm,
    slots: Slots,
    functions: Seq<FunctionForm>,
    count: nat,
    all: nat,
)
    requires
        count <= all,
    ensures
        world.functions_told(slots, functions, count) matches Err(said) ==> world.functions_told(
            slots,
            functions,
            all,
        ) == Err::<Slots, _>(said),
    decreases all,
{
    if count < all {
        functions_stop_where_one_does(world, slots, functions, count, (all - 1) as nat);
    }
}

} // verus!
