//! barb: the first-order core IR.
//!
//! It decides:
//!
//! - The inductive types a program is built from, and their constructors
//! - Which operations run, over which values, in what order
//! - Totality: that every function is defined for every input and stops
//!
//! It does not decide:
//!
//! - How a value is represented, how wide it is, or where it is laid out
//! - Where a value is retained, released, or reused in place
//! - Anything a target names
//!
//! Every value is an inductive term, and the term language is in A-normal
//! form: an argument is an [`Atom`], an atom is a local, and anything else
//! is let-bound first. Monomorphisation and defunctionalisation happen above
//! this tier, so a type is a name with constructors and nothing more — no
//! parameters, no arrows, no variables.
//!
//! Deliberately absent, each folding into something simpler:
//!
//! - `If` — a [`Expr::Match`] on `Bool`
//! - tuples and records — single-constructor inductives
//! - blocks — chains of [`Expr::Let`]
//! - `absurd` — a match with no arms
//! - `Lam`/`App` — first-order; recursion lives between top-level names
//! - primitives — arithmetic is recursion over a constructor, and the
//!   machine tier is what recognises it

pub mod agreement;
pub mod builder;
pub mod constant;
pub mod declaring;
pub mod facts;
pub mod history;
pub mod infer;
pub mod ir;
pub mod meaning;
pub mod parse;
pub mod pretty;
pub mod shown;
pub mod spelling;
pub mod syntax;
pub mod telling;
pub mod typing;

use crate::pool::Names;
pub use builder::Builder;
pub use constant::{as_bytes, as_number, decode, shape, Shape, Value};
pub use facts::{recognise, Facts, Operation};
pub use parse::parse;
pub use ir::{
    Arm, Atom, ConstId, Ctor, CtorId, Expr, ExprId, FnId, Function, Local, Range, Store, Symbol,
    Type, TypeId,
};
use vstd::prelude::*;

verus! {

/// A program, and the pools every part of it lives in.
#[derive(Clone, Debug, PartialEq, Eq)]
pub struct Program {
    types: Vec<Type>,
    ctors: Vec<Ctor>,
    functions: Vec<Function>,
    /// The term arena.
    exprs: Vec<Expr>,
    /// Argument lists, for `Con` and `Call`.
    atoms: Vec<Atom>,
    arms: Vec<Arm>,
    /// Field and parameter types.
    types_pool: Vec<TypeId>,
    /// Known values, encoded. See [`constant`].
    consts: Vec<Range>,
    bytes: Vec<u8>,
    /// Every name the program uses, each once, so naming something that has
    /// a name already allocates nothing.
    names: Names,
    entry: Option<FnId>,
}

impl View for Program {
    type V = Store;

    closed spec fn view(&self) -> Store {
        Store {
            types: self.types@,
            ctors: self.ctors@,
            functions: self.functions@,
            exprs: self.exprs@,
            atoms: self.atoms@,
            arms: self.arms@,
            types_pool: self.types_pool@,
            consts: self.consts@,
            bytes: self.bytes@,
            names: self.names@,
            entry: self.entry,
        }
    }
}

} // verus!
