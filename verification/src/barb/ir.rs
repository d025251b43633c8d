//! The data model: terms, declarations, and the pools they live in.

use super::Program;
pub use crate::pool::Range;
use crate::pool::NameTable;
use vstd::prelude::*;

verus! {

/// A term.
#[derive(Clone, Copy, Debug, PartialEq, Eq, PartialOrd, Ord, Hash, Structural)]
pub struct ExprId(pub u32);

impl ExprId {
    /// The one at `index`, of the four billion a program may have.
    pub fn at(index: usize) -> (id: Self)
        requires
            index <= u32::MAX,
        ensures
            id.0 == index,
    {
        Self(index as u32)
    }

    pub fn index(self) -> (index: usize)
        ensures
            index == self.0,
    {
        self.0 as usize
    }
}

/// A function.
#[derive(Clone, Copy, Debug, PartialEq, Eq, PartialOrd, Ord, Hash, Structural)]
pub struct FnId(pub u32);

impl FnId {
    /// The one at `index`, of the four billion a program may have.
    pub fn at(index: usize) -> (id: Self)
        requires
            index <= u32::MAX,
        ensures
            id.0 == index,
    {
        Self(index as u32)
    }

    pub fn index(self) -> (index: usize)
        ensures
            index == self.0,
    {
        self.0 as usize
    }
}

/// A type.
#[derive(Clone, Copy, Debug, PartialEq, Eq, PartialOrd, Ord, Hash, Structural)]
pub struct TypeId(pub u32);

impl TypeId {
    /// The one at `index`, of the four billion a program may have.
    pub fn at(index: usize) -> (id: Self)
        requires
            index <= u32::MAX,
        ensures
            id.0 == index,
    {
        Self(index as u32)
    }

    pub fn index(self) -> (index: usize)
        ensures
            index == self.0,
    {
        self.0 as usize
    }
}

/// A constructor.
#[derive(Clone, Copy, Debug, PartialEq, Eq, PartialOrd, Ord, Hash, Structural)]
pub struct CtorId(pub u32);

impl CtorId {
    /// The one at `index`, of the four billion a program may have.
    pub fn at(index: usize) -> (id: Self)
        requires
            index <= u32::MAX,
        ensures
            id.0 == index,
    {
        Self(index as u32)
    }

    pub fn index(self) -> (index: usize)
        ensures
            index == self.0,
    {
        self.0 as usize
    }
}

/// A known value.
#[derive(Clone, Copy, Debug, PartialEq, Eq, PartialOrd, Ord, Hash, Structural)]
pub struct ConstId(pub u32);

impl ConstId {
    /// The one at `index`, of the four billion a program may have.
    pub fn at(index: usize) -> (id: Self)
        requires
            index <= u32::MAX,
        ensures
            id.0 == index,
    {
        Self(index as u32)
    }

    pub fn index(self) -> (index: usize)
        ensures
            index == self.0,
    {
        self.0 as usize
    }
}

/// A local, as a de Bruijn level.
#[derive(Clone, Copy, Debug, PartialEq, Eq, PartialOrd, Ord, Hash, Structural)]
pub struct Local(pub u32);

impl Local {
    /// The one at `index`, of the four billion a program may have.
    pub fn at(index: usize) -> (id: Self)
        requires
            index <= u32::MAX,
        ensures
            id.0 == index,
    {
        Self(index as u32)
    }

    pub fn index(self) -> (index: usize)
        ensures
            index == self.0,
    {
        self.0 as usize
    }
}

/// A name. The IR never reads the characters of one: names are compared,
/// hashed and copied as integers, and the string is read back only to render
/// it. The table belongs to the program, like every other pool here, so a
/// program is a self-contained value and two of them cannot disagree about
/// what a symbol means.
#[derive(Clone, Copy, Debug, PartialEq, Eq, PartialOrd, Ord, Hash, Structural)]
pub struct Symbol(pub u32);

impl Symbol {
    /// The one at `index`, of the four billion a program may have.
    pub fn at(index: usize) -> (id: Self)
        requires
            index <= u32::MAX,
        ensures
            id.0 == index,
    {
        Self(index as u32)
    }

    pub fn index(self) -> (index: usize)
        ensures
            index == self.0,
    {
        self.0 as usize
    }
}

/// An argument: a local, and nothing else. That is what A-normal form buys.
#[derive(Clone, Copy, Debug, PartialEq, Eq, Structural)]
pub struct Atom(pub Local);

/// A term.
///
/// Binders are implicit. Locals are de Bruijn levels: a function's parameters
/// are the first of them, a [`Expr::Let`] binds the next, and a [`Arm`] binds
/// its constructor's fields in order. Two sibling arms reuse the same levels
/// because they are alternative paths, so a term carries no names and two
/// structurally equal terms are equal.
#[derive(Clone, Copy, Debug, PartialEq, Eq, Structural)]
pub enum Expr {
    /// A bare atom.
    Atom(Atom),
    /// A saturated constructor application.
    Con(CtorId, Range),
    /// A value known outright, held encoded rather than as a chain of `Con`.
    Static(TypeId, ConstId),
    /// A saturated call to a top-level name. Every recursive edge is one.
    Call(FnId, Range),
    /// Binds the next local to the first, and continues with the second.
    Let(ExprId, ExprId),
    /// Destructuring. An arm per constructor of the scrutinee's type.
    Match(Atom, Range),
}

/// One branch of a match. Binds its constructor's fields as the next locals.
#[derive(Clone, Copy, Debug, PartialEq, Eq, Structural)]
pub struct Arm {
    pub ctor: CtorId,
    pub body: ExprId,
}

#[derive(Clone, Copy, Debug, PartialEq, Eq, Structural)]
pub struct Type {
    pub name: Symbol,
    pub ctors: Range,
}

#[derive(Clone, Copy, Debug, PartialEq, Eq, Structural)]
pub struct Ctor {
    pub name: Symbol,
    pub owner: TypeId,
    /// The types of its fields, in order.
    pub fields: Range,
}

#[derive(Clone, Copy, Debug, PartialEq, Eq, Structural)]
pub struct Function {
    pub name: Symbol,
    /// The types of its parameters, which are the first locals.
    pub params: Range,
    pub result: TypeId,
    pub body: ExprId,
    /// Whether there is a body. One that is only declared is something else's
    /// to answer for.
    pub defined: bool,
}

/// What a [`Program`] holds.
#[verifier::ext_equal]
pub struct Store {
    pub types: Seq<Type>,
    pub ctors: Seq<Ctor>,
    pub functions: Seq<Function>,
    /// The term arena.
    pub exprs: Seq<Expr>,
    /// Argument lists, for `Con` and `Call`.
    pub atoms: Seq<Atom>,
    pub arms: Seq<Arm>,
    /// Field and parameter types.
    pub types_pool: Seq<TypeId>,
    /// Known values, encoded. See [`super::constant`].
    pub consts: Seq<Range>,
    pub bytes: Seq<u8>,
    /// Every name the program uses, each once.
    pub names: NameTable,
    pub entry: Option<FnId>,
}

impl Store {
    pub open spec fn name(self, symbol: Symbol) -> Seq<char> {
        self.names.name(symbol.0 as int)
    }

    pub open spec fn type_(self, id: TypeId) -> Type {
        self.types[id.0 as int]
    }

    pub open spec fn ctor(self, id: CtorId) -> Ctor {
        self.ctors[id.0 as int]
    }

    pub open spec fn function(self, id: FnId) -> Function {
        self.functions[id.0 as int]
    }

    pub open spec fn expr(self, id: ExprId) -> Expr {
        self.exprs[id.0 as int]
    }

    /// The constructors of a type, in tag order.
    pub open spec fn ctors_of(self, id: TypeId) -> Seq<Ctor> {
        self.type_(id).ctors.read(self.ctors)
    }

    pub open spec fn ctor_at(self, owner: TypeId, tag: nat) -> CtorId {
        CtorId((self.type_(owner).ctors.start + tag) as u32)
    }

    /// Where a constructor sits among those of its type.
    pub open spec fn tag(self, ctor: CtorId) -> int {
        ctor.0 - self.type_(self.ctor(ctor).owner).ctors.start
    }

    pub open spec fn fields(self, ctor: CtorId) -> Seq<TypeId> {
        self.ctor(ctor).fields.read(self.types_pool)
    }

    pub open spec fn params(self, id: FnId) -> Seq<TypeId> {
        self.function(id).params.read(self.types_pool)
    }

    pub open spec fn known_bytes(self, id: ConstId) -> Seq<u8> {
        self.consts[id.0 as int].read(self.bytes)
    }

    pub open spec fn type_fits(self, at: int) -> bool {
        let declared = self.types[at];
        &&& declared.name.0 < self.names.len()
        &&& declared.ctors.within(self.ctors.len())
        &&& forall|c: int|
            declared.ctors.start <= c < declared.ctors.start + declared.ctors.len ==> (
            #[trigger] self.ctors[c]).owner.0 == at
    }

    pub open spec fn ctor_fits(self, at: int) -> bool {
        let ctor = self.ctors[at];
        &&& ctor.name.0 < self.names.len()
        &&& ctor.owner.0 < self.types.len()
        &&& ctor.fields.within(self.types_pool.len())
    }

    /// Whether a constructor is one its type has now: a type that is given
    /// constructors again has those, and the ones before are nobody's.
    pub open spec fn is_listed(self, ctor: CtorId) -> bool {
        let held = self.type_(self.ctor(ctor).owner).ctors;
        held.start <= ctor.0 < held.start + held.len
    }

    pub open spec fn function_fits(self, at: int) -> bool {
        let function = self.functions[at];
        &&& function.name.0 < self.names.len()
        &&& function.params.within(self.types_pool.len())
        &&& function.result.0 < self.types.len()
        &&& function.defined ==> function.body.0 < self.exprs.len()
    }

    /// A term names only what exists, and is built out of earlier ones.
    pub open spec fn expr_fits(self, at: int, expr: Expr) -> bool {
        match expr {
            Expr::Atom(_) => true,
            Expr::Con(ctor, args) => ctor.0 < self.ctors.len() && args.within(self.atoms.len()),
            Expr::Static(id, value) => id.0 < self.types.len() && value.0 < self.consts.len(),
            Expr::Call(function, args) => function.0 < self.functions.len() && args.within(
                self.atoms.len(),
            ),
            Expr::Let(value, body) => value.0 < at && body.0 < at,
            Expr::Match(_, arms) => arms.within(self.arms.len()) && forall|a: int|
                arms.start <= a < arms.start + arms.len ==> (#[trigger] self.arms[a]).body.0 < at
                    && self.arms[a].ctor.0 < self.ctors.len(),
        }
    }

    /// A program that refers to nothing it lacks, and whose terms are finite.
    pub open spec fn wf(self) -> bool {
        &&& self.names.fits()
        &&& self.types.len() <= u32::MAX
        &&& self.ctors.len() <= u32::MAX
        &&& self.functions.len() <= u32::MAX
        &&& self.exprs.len() <= u32::MAX
        &&& forall|i: int| 0 <= i < self.types.len() ==> #[trigger] self.type_fits(i)
        &&& forall|i: int| 0 <= i < self.ctors.len() ==> #[trigger] self.ctor_fits(i)
        &&& forall|i: int| 0 <= i < self.functions.len() ==> #[trigger] self.function_fits(i)
        &&& forall|i: int|
            0 <= i < self.types_pool.len() ==> (#[trigger] self.types_pool[i]).0 < self.types.len()
        &&& forall|i: int|
            0 <= i < self.exprs.len() ==> self.expr_fits(i, #[trigger] self.exprs[i])
        &&& forall|i: int|
            0 <= i < self.consts.len() ==> (#[trigger] self.consts[i]).within(self.bytes.len())
        &&& self.entry matches Some(entry) ==> entry.0 < self.functions.len()
    }

    /// Whether `count` more fit in every pool, of the four billion entries
    /// one may hold.
    pub open spec fn room(self, count: nat) -> bool {
        &&& self.types.len() + count <= u32::MAX
        &&& self.ctors.len() + count <= u32::MAX
        &&& self.functions.len() + count <= u32::MAX
        &&& self.exprs.len() + count <= u32::MAX
        &&& self.atoms.len() + count <= u32::MAX
        &&& self.arms.len() + count <= u32::MAX
        &&& self.types_pool.len() + count <= u32::MAX
        &&& self.consts.len() + count <= u32::MAX
        &&& self.bytes.len() + count <= u32::MAX
        &&& self.names.room(count)
    }

    /// The deepest chain of binders in a term that `at` locals surround.
    pub open spec fn deepest(self, expr: ExprId, at: nat) -> nat
        decreases expr.0, 1nat, 0nat,
    {
        match self.expr(expr) {
            Expr::Let(value, body) => if value.0 < expr.0 && body.0 < expr.0 {
                let inside = self.deepest(value, at);
                let after = self.deepest(body, at + 1);
                if inside > after {
                    inside
                } else {
                    after
                }
            } else {
                at
            },
            Expr::Match(_, arms) => self.deepest_arm(expr, arms, at, arms.len as nat),
            _ => at,
        }
    }

    /// The same, of the first `count` arms of a match.
    pub open spec fn deepest_arm(self, expr: ExprId, arms: Range, at: nat, count: nat) -> nat
        decreases expr.0, 0nat, count,
    {
        if count == 0 {
            at
        } else {
            let arm = self.arms[arms.start + count - 1];
            let before = self.deepest_arm(expr, arms, at, (count - 1) as nat);
            if arm.body.0 < expr.0 {
                let here = self.deepest(arm.body, at + self.ctor(arm.ctor).fields.len as nat);
                if here > before {
                    here
                } else {
                    before
                }
            } else {
                before
            }
        }
    }

    /// How many locals a body binds, parameters included.
    pub open spec fn locals(self, id: FnId) -> nat {
        self.deepest(self.function(id).body, self.function(id).params.len as nat)
    }
}

/// A term binds at least the locals that surround it.
pub proof fn a_term_keeps_its_surroundings(store: Store, expr: ExprId, at: nat)
    ensures
        store.deepest(expr, at) >= at,
    decreases expr.0, 1nat, 0nat,
{
    match store.expr(expr) {
        Expr::Let(value, body) => if value.0 < expr.0 && body.0 < expr.0 {
            a_term_keeps_its_surroundings(store, body, at + 1);
        },
        Expr::Match(_, arms) => arms_keep_their_surroundings(
            store,
            expr,
            arms,
            at,
            arms.len as nat,
            0,
        ),
        _ => {},
    }
}

proof fn arms_keep_their_surroundings(
    store: Store,
    expr: ExprId,
    arms: Range,
    at: nat,
    count: nat,
    least: nat,
)
    requires
        least <= count,
    ensures
        store.deepest_arm(expr, arms, at, count) >= at,
        store.deepest_arm(expr, arms, at, count) >= store.deepest_arm(expr, arms, at, least),
    decreases expr.0, 0nat, count,
{
    if count > 0 {
        if least < count {
            arms_keep_their_surroundings(store, expr, arms, at, (count - 1) as nat, least);
        } else {
            arms_keep_their_surroundings(
                store,
                expr,
                arms,
                at,
                (count - 1) as nat,
                (count - 1) as nat,
            );
        }
    }
}

impl Program {
    /// The name a symbol stands for.
    pub fn name(&self, symbol: Symbol) -> (name: &str)
        requires
            self@.names.fits(),
            symbol.0 < self@.names.len(),
        ensures
            name@ == self@.name(symbol),
    {
        self.names.name(symbol.index())
    }

    /// Every name the program uses, end to end. For tests and rendering.
    pub fn names_text(&self) -> (text: &str)
        requires
            self@.names.fits(),
        ensures
            text@ == vstd::utf8::decode_utf8(self@.names.text),
    {
        self.names.text()
    }

    /// How many locals a body binds, parameters included: the deepest chain
    /// of binders in it, since sibling arms take the same levels back and a
    /// `let`'s value is bound outside its own binding.
    pub fn locals(&self, id: FnId) -> (count: u32)
        requires
            self@.wf(),
            id.0 < self@.functions.len(),
            self@.function(id).defined,
            self@.locals(id) <= u32::MAX,
        ensures
            count == self@.locals(id),
    {
        proof {
            assert(self@.function_fits(id.0 as int));
        }
        let function = self.functions[id.index()];
        self.deepest(function.body, function.params.len)
    }

    fn deepest(&self, expr: ExprId, at: u32) -> (count: u32)
        requires
            self@.wf(),
            expr.0 < self@.exprs.len(),
            self@.deepest(expr, at as nat) <= u32::MAX,
        ensures
            count == self@.deepest(expr, at as nat),
        decreases expr.0,
    {
        proof {
            assert(self@.expr_fits(expr.0 as int, self@.exprs[expr.0 as int]));
        }
        match self.exprs[expr.index()] {
            Expr::Let(value, body) => {
                proof {
                    a_term_keeps_its_surroundings(self@, body, at as nat + 1);
                }
                let inside: u32 = self.deepest(value, at);
                let after: u32 = self.deepest(body, at + 1);
                if inside > after {
                    inside
                } else {
                    after
                }
            },
            Expr::Match(_, arms) => {
                let mut deepest: u32 = at;
                let mut next: u32 = 0;
                while next < arms.len
                    invariant
                        self@.wf(),
                        expr.0 < self@.exprs.len(),
                        self@.exprs[expr.0 as int] matches Expr::Match(_, held) && held == arms,
                        self@.expr_fits(expr.0 as int, self@.exprs[expr.0 as int]),
                        self@.deepest_arm(expr, arms, at as nat, arms.len as nat) <= u32::MAX,
                        next <= arms.len,
                        deepest == self@.deepest_arm(expr, arms, at as nat, next as nat),
                    decreases arms.len - next,
                {
                    assert(arms.start + next < self.arms.len());
                    let arm = self.arms[arms.start as usize + next as usize];
                    assert(self@.ctor_fits(arm.ctor.0 as int));
                    let bound: u32 = self.ctors[arm.ctor.index()].fields.len;
                    proof {
                        arms_keep_their_surroundings(
                            self@,
                            expr,
                            arms,
                            at as nat,
                            arms.len as nat,
                            next as nat + 1,
                        );
                        a_term_keeps_its_surroundings(self@, arm.body, at as nat + bound as nat);
                    }
                    let here: u32 = self.deepest(arm.body, at + bound);
                    if here > deepest {
                        deepest = here;
                    }
                    next = next + 1;
                }
                deepest
            },
            _ => at,
        }
    }

    pub fn type_(&self, id: TypeId) -> (found: &Type)
        requires
            id.0 < self@.types.len(),
        ensures
            *found == self@.type_(id),
    {
        &self.types[id.index()]
    }

    pub fn ctor(&self, id: CtorId) -> (found: &Ctor)
        requires
            id.0 < self@.ctors.len(),
        ensures
            *found == self@.ctor(id),
    {
        &self.ctors[id.index()]
    }

    pub fn function(&self, id: FnId) -> (found: &Function)
        requires
            id.0 < self@.functions.len(),
        ensures
            *found == self@.function(id),
    {
        &self.functions[id.index()]
    }

    pub fn expr(&self, id: ExprId) -> (found: Expr)
        requires
            id.0 < self@.exprs.len(),
        ensures
            found == self@.expr(id),
    {
        self.exprs[id.index()]
    }

    pub fn ctors(&self, id: TypeId) -> (ctors: &[Ctor])
        requires
            self@.wf(),
            id.0 < self@.types.len(),
        ensures
            ctors@ == self@.ctors_of(id),
    {
        proof {
            assert(self@.type_fits(id.0 as int));
        }
        self.types[id.index()].ctors.slice(&self.ctors)
    }

    /// Where `ctor` sits among its type's constructors, which is the tag a
    /// known value carries.
    pub fn tag(&self, ctor: CtorId) -> (tag: u32)
        requires
            self@.wf(),
            ctor.0 < self@.ctors.len(),
            self@.is_listed(ctor),
        ensures
            tag == self@.tag(ctor),
            tag < self@.type_(self@.ctor(ctor).owner).ctors.len,
    {
        proof {
            assert(self@.ctor_fits(ctor.0 as int));
        }
        let owner = self.ctors[ctor.index()].owner;
        ctor.0 - self.types[owner.index()].ctors.start
    }

    /// Whether a constructor is one its type has now.
    pub(crate) fn lists(&self, ctor: CtorId) -> (listed: bool)
        requires
            self@.wf(),
            ctor.0 < self@.ctors.len(),
        ensures
            listed == self@.is_listed(ctor),
    {
        proof {
            assert(self@.ctor_fits(ctor.0 as int));
            assert(self@.type_fits(self@.ctor(ctor).owner.0 as int));
        }
        let held = self.types[self.ctors[ctor.index()].owner.index()].ctors;
        held.start <= ctor.0 && ctor.0 - held.start < held.len
    }

    pub fn ctor_at(&self, owner: TypeId, tag: u32) -> (ctor: CtorId)
        requires
            owner.0 < self@.types.len(),
            self@.type_(owner).ctors.start + tag <= u32::MAX,
        ensures
            ctor == self@.ctor_at(owner, tag as nat),
    {
        CtorId(self.types[owner.index()].ctors.start + tag)
    }

    /// The types a range of the pool holds.
    pub fn types_of(&self, range: Range) -> (types: &[TypeId])
        requires
            range.within(self@.types_pool.len()),
        ensures
            types@ == range.read(self@.types_pool),
    {
        range.slice(&self.types_pool)
    }

    pub fn fields(&self, ctor: CtorId) -> (fields: &[TypeId])
        requires
            self@.wf(),
            ctor.0 < self@.ctors.len(),
        ensures
            fields@ == self@.fields(ctor),
    {
        proof {
            assert(self@.ctor_fits(ctor.0 as int));
        }
        self.ctors[ctor.index()].fields.slice(&self.types_pool)
    }

    pub fn params(&self, id: FnId) -> (params: &[TypeId])
        requires
            self@.wf(),
            id.0 < self@.functions.len(),
        ensures
            params@ == self@.params(id),
    {
        proof {
            assert(self@.function_fits(id.0 as int));
        }
        self.functions[id.index()].params.slice(&self.types_pool)
    }

    pub fn atoms(&self, range: Range) -> (atoms: &[Atom])
        requires
            range.within(self@.atoms.len()),
        ensures
            atoms@ == range.read(self@.atoms),
    {
        range.slice(&self.atoms)
    }

    pub fn arms(&self, range: Range) -> (arms: &[Arm])
        requires
            range.within(self@.arms.len()),
        ensures
            arms@ == range.read(self@.arms),
    {
        range.slice(&self.arms)
    }

    pub fn known_bytes(&self, id: ConstId) -> (bytes: &[u8])
        requires
            self@.wf(),
            id.0 < self@.consts.len(),
        ensures
            bytes@ == self@.known_bytes(id),
    {
        let held = self.consts[id.index()];
        assert(held == self@.consts[id.0 as int]);
        held.slice(&self.bytes)
    }

    pub fn entry(&self) -> (entry: Option<FnId>)
        ensures
            entry == self@.entry,
    {
        self.entry
    }

    /// How many constructors there are.
    pub(crate) fn count_ctors(&self) -> (count: usize)
        ensures
            count == self@.ctors.len(),
    {
        self.ctors.len()
    }

    pub fn types(&self) -> (types: &[Type])
        ensures
            types@ == self@.types,
    {
        self.types.as_slice()
    }

    pub fn functions(&self) -> (functions: &[Function])
        ensures
            functions@ == self@.functions,
    {
        self.functions.as_slice()
    }
}

/// A constructor is found again by its type and its tag.
pub proof fn a_tag_finds_its_constructor(store: Store, ctor: CtorId)
    requires
        store.wf(),
        ctor.0 < store.ctors.len(),
        store.is_listed(ctor),
    ensures
        0 <= store.tag(ctor) < store.type_(store.ctor(ctor).owner).ctors.len,
        store.ctor_at(store.ctor(ctor).owner, store.tag(ctor) as nat) == ctor,
{
    assert(store.ctor_fits(ctor.0 as int));
}

} // verus!
