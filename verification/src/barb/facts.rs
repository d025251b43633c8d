//! What is known of a program beyond what it says.
//!
//! barb states what a program computes. Deciding how to compute it needs a
//! few things barb does not spell, and this records them once so that every
//! later decision reads them here rather than rediscovering them.
//!
//! So far that is one thing: which definitions compute an operation the
//! tiers below already have. `add` written as recursion over a constructor
//! is addition, and knowing so lets the machine tier emit an instruction
//! where the program wrote a recursive call. A fold or a constant folder
//! would read the same entry.

use super::constant::{shape, Shape, Tree};
use super::ir::{Arm, Atom, CtorId, Expr, ExprId, FnId, Local, Store, TypeId};
use super::meaning::Outcome;
use super::{constant, meaning, Program};
use vstd::prelude::*;

verus! {

/// An operation the tiers below have a name for.
#[derive(Clone, Copy, Debug, PartialEq, Eq, Structural)]
pub enum Operation {
    Add,
}

/// What is known of each function, by function.
#[derive(Clone, Debug, PartialEq, Eq)]
pub struct Facts {
    operations: Vec<Option<Operation>>,
}

impl View for Facts {
    type V = Seq<Option<Operation>>;

    closed spec fn view(&self) -> Seq<Option<Operation>> {
        self.operations@
    }
}

impl Default for Facts {
    /// Nothing is known.
    fn default() -> (facts: Self)
        ensures
            facts@ == Seq::<Option<Operation>>::empty(),
    {
        Facts { operations: Vec::new() }
    }
}

/// What is known of a function, where anything is.
pub open spec fn known_of(facts: Seq<Option<Operation>>, id: FnId) -> Option<Operation> {
    if id.0 < facts.len() {
        facts[id.0 as int]
    } else {
        None
    }
}

impl Facts {
    /// The operation a function computes, when it computes one.
    pub fn operation(&self, id: FnId) -> (operation: Option<Operation>)
        ensures
            operation == known_of(self@, id),
    {
        if id.index() < self.operations.len() {
            self.operations[id.index()]
        } else {
            None
        }
    }
}

/// Where the first arm for a constructor is, from `from` on.
pub open spec fn arm_for(arms: Seq<Arm>, ctor: CtorId, from: int) -> int
    decreases arms.len() - from,
{
    if from >= arms.len() || arms[from].ctor == ctor {
        from
    } else {
        arm_for(arms, ctor, from + 1)
    }
}

impl Store {
    /// Whether a function is addition, as counting one argument down onto
    /// the other:
    ///
    /// ```text
    /// add(a, b) = match b { Zero => a; Succ(k) => Succ(add(a, k)) }
    /// ```
    ///
    /// Either argument may be the one counted down; the other rides through
    /// untouched, which is what makes this addition rather than something else
    /// shaped like it.
    pub open spec fn is_addition(self, id: FnId) -> bool {
        let function = self.function(id);
        let params = self.params(id);
        &&& function.defined
        &&& params.len() == 2
        &&& params[0] == function.result
        &&& params[1] == function.result
        &&& self.is_number(function.result)
        &&& self.expr(function.body) matches Expr::Match(scrutinee, arms) && self.counts(
            id,
            scrutinee,
            arms.read(self.arms),
        )
    }

    /// Whether a match over one of two parameters counts it down onto the
    /// other.
    pub open spec fn counts(self, id: FnId, scrutinee: Atom, arms: Seq<Arm>) -> bool {
        let of = self.shape(self.function(id).result);
        let empty = arm_for(arms, of->nil, 0);
        let step = arm_for(arms, of->cons, 0);
        &&& scrutinee.0.0 <= 1
        &&& empty < arms.len()
        &&& step < arms.len()
        &&& self.expr(arms[empty].body) == Expr::Atom(Atom(Local((1 - scrutinee.0.0) as u32)))
        &&& self.counts_down(id, arms[step], of->cons, scrutinee.0.0)
    }

    /// One less to add: the same call on the predecessor, wrapped back up. The
    /// predecessor takes level two, and the call after it level three.
    pub open spec fn counts_down(self, id: FnId, step: Arm, cons: CtorId, counted: u32) -> bool {
        let carried = if counted == 0 {
            seq![Atom(Local(2)), Atom(Local(1))]
        } else {
            seq![Atom(Local(0)), Atom(Local(2))]
        };
        &&& self.expr(step.body) matches Expr::Let(call, tail) && {
            &&& self.expr(call) matches Expr::Call(callee, args) && callee == id && args.read(
                self.atoms,
            ) == carried
            &&& self.expr(tail) matches Expr::Con(built, fields) && built == cons && fields.read(
                self.atoms,
            ) == seq![Atom(Local(3))]
        }
    }

    /// The operation a function computes, when it computes one.
    pub open spec fn operation(self, id: FnId) -> Option<Operation> {
        if self.is_addition(id) {
            Some(Operation::Add)
        } else {
            None
        }
    }

    /// What can be read off every definition.
    pub open spec fn facts(self) -> Seq<Option<Operation>> {
        Seq::new(self.functions.len(), |i: int| self.operation(FnId(i as u32)))
    }
}

/// Read what can be read off every definition.
pub fn recognise(program: &Program) -> (facts: Facts)
    requires
        program@.wf(),
    ensures
        facts@ == program@.facts(),
{
    let mut operations: Vec<Option<Operation>> = Vec::new();
    let count: usize = program.functions().len();
    let mut at: usize = 0;
    while at < count
        invariant
            program@.wf(),
            at <= count == program@.functions.len(),
            operations@ == program@.facts().take(at as int),
        decreases count - at,
    {
        operations.push(operation(program, FnId(at as u32)));
        at = at + 1;
        assert(operations@ =~= program@.facts().take(at as int));
    }
    assert(operations@ =~= program@.facts());
    Facts { operations }
}

fn operation(program: &Program, id: FnId) -> (operation: Option<Operation>)
    requires
        program@.wf(),
        id.0 < program@.functions.len(),
    ensures
        operation == program@.operation(id),
{
    let ghost store = program@;
    proof {
        assert(store.function_fits(id.0 as int));
        constant::a_spine_has_two_ends(store, store.function(id).result);
    }
    let function = *program.function(id);
    let params = program.params(id);
    if !function.defined || params.len() != 2 {
        return None;
    }
    if params[0].0 != params[1].0 || function.result.0 != params[0].0 {
        return None;
    }
    assert(params@[0] == function.result && params@[1] == function.result);
    let (nil, cons): (CtorId, CtorId) = match shape(program, function.result) {
        Shape::Spine { nil, cons, .. } => (nil, cons),
        Shape::Tagged => {
            return None;
        },
    };
    if program.fields(cons).len() != 1 {
        return None;
    }
    proof {
        assert(store.expr_fits(function.body.0 as int, store.exprs[function.body.0 as int]));
    }
    // The body is the match itself, over one of the two parameters.
    match program.expr(function.body) {
        Expr::Match(scrutinee, arms) => {
            let counted: u32 = scrutinee.0.0;
            if counted > 1 {
                return None;
            }
            let held = program.arms(arms);
            let empty: usize = find_arm(held, nil);
            let step: usize = find_arm(held, cons);
            if empty == held.len() || step == held.len() {
                return None;
            }
            proof {
                assert(held@[empty as int] == store.arms[arms.start + empty]);
                assert(held@[step as int] == store.arms[arms.start + step]);
            }
            // Nothing left to add: the other parameter, untouched.
            match program.expr(held[empty].body) {
                Expr::Atom(atom) if atom.0.0 == 1 - counted => {},
                _ => {
                    return None;
                },
            }
            assert(store.expr(held@[empty as int].body) == Expr::Atom(
                Atom(Local((1 - counted) as u32)),
            ));
            if counts_down(program, id, held[step], cons, counted) {
                Some(Operation::Add)
            } else {
                None
            }
        },
        _ => None,
    }
}

/// Where the first arm for a constructor is.
pub(crate) fn find_arm(arms: &[Arm], ctor: CtorId) -> (at: usize)
    ensures
        at == arm_for(arms@, ctor, 0),
        at <= arms@.len(),
{
    let mut at: usize = 0;
    while at < arms.len() && arms[at].ctor.0 != ctor.0
        invariant
            at <= arms@.len(),
            arm_for(arms@, ctor, at as int) == arm_for(arms@, ctor, 0),
        decreases arms@.len() - at,
    {
        at = at + 1;
    }
    at
}

fn counts_down(program: &Program, id: FnId, step: Arm, cons: CtorId, counted: u32) -> (down: bool)
    requires
        program@.wf(),
        step.body.0 < program@.exprs.len(),
    ensures
        down == program@.counts_down(id, step, cons, counted),
{
    let ghost store = program@;
    let (call, tail): (ExprId, ExprId) = match program.expr(step.body) {
        Expr::Let(call, tail) => (call, tail),
        _ => {
            return false;
        },
    };
    proof {
        assert(store.expr_fits(step.body.0 as int, store.exprs[step.body.0 as int]));
        assert(store.expr_fits(call.0 as int, store.exprs[call.0 as int]));
        assert(store.expr_fits(tail.0 as int, store.exprs[tail.0 as int]));
    }
    let (first, second): (u32, u32) = if counted == 0 {
        (2, 1)
    } else {
        (0, 2)
    };
    let again = match program.expr(call) {
        Expr::Call(callee, args) => {
            let carried = program.atoms(args);
            let same = callee.0 == id.0 && carried.len() == 2 && carried[0].0.0 == first
                && carried[1].0.0 == second;
            proof {
                let want = seq![Atom(Local(first)), Atom(Local(second))];
                if same {
                    assert(carried@ =~= want);
                } else if carried@ == want {
                    assert(carried@[0] == want[0] && carried@[1] == want[1]);
                }
            }
            same
        },
        _ => false,
    };
    let wraps = match program.expr(tail) {
        Expr::Con(built, fields) => {
            let held = program.atoms(fields);
            let same = built.0 == cons.0 && held.len() == 1 && held[0].0.0 == 3;
            proof {
                let want = seq![Atom(Local(3))];
                if same {
                    assert(held@ =~= want);
                } else if held@ == want {
                    assert(held@[0] == want[0]);
                }
            }
            same
        },
        _ => false,
    };
    again && wraps
}

/// Two numbers, as what a function of two parameters is handed.
pub open spec fn two_numbers(store: Store, id: TypeId, left: nat, right: nat) -> Seq<Tree> {
    seq![constant::number_tree(store, id, left), constant::number_tree(store, id, right)]
}

/// What is recognised as addition adds: on any two numbers it stands for
/// their sum.
pub proof fn addition_adds(store: Store, id: FnId, left: nat, right: nat)
    requires
        store.wf(),
        id.0 < store.functions.len(),
        store.operation(id) == Some(Operation::Add),
    ensures
        exists|fuel: nat| #[trigger]
            store.meaning(
                store.function(id).body,
                two_numbers(store, store.function(id).result, left, right),
                fuel,
            ) == Some(
                Outcome::Answers(
                    constant::number_tree(store, store.function(id).result, left + right),
                ),
            ),
{
    let counted = if store.expr(store.function(id).body)->Match_0.0.0 == 0 {
        left
    } else {
        right
    };
    counting_down_adds(store, id, left, right, counted);
}

proof fn counting_down_adds(store: Store, id: FnId, left: nat, right: nat, counted: nat)
    requires
        store.wf(),
        id.0 < store.functions.len(),
        store.is_addition(id),
        counted == if store.expr(store.function(id).body)->Match_0.0.0 == 0 {
            left
        } else {
            right
        },
    ensures
        store.meaning(
            store.function(id).body,
            two_numbers(store, store.function(id).result, left, right),
            2 + 3 * counted,
        ) == Some(
            Outcome::Answers(
                constant::number_tree(store, store.function(id).result, left + right),
            ),
        ),
    decreases counted,
{
    let of = store.function(id).result;
    let body = store.function(id).body;
    let scrutinee = store.expr(body)->Match_0;
    let arms = store.expr(body)->Match_1.read(store.arms);
    let locals = two_numbers(store, of, left, right);
    let held = locals[scrutinee.0.0 as int];
    let fuel = 2 + 3 * counted;
    let at = arm_for(arms, held.ctor, 0);
    assert(store.function_fits(id.0 as int));
    constant::a_spine_has_two_ends(store, of);
    assert(store.meaning(body, locals, fuel) == store.meaning(
        arms[at].body,
        locals + held.fields,
        (fuel - 1) as nat,
    ));
    if counted == 0 {
        assert(locals + held.fields =~= locals);
    } else {
        let less = constant::number_tree(store, of, (counted - 1) as nat);
        let inner = locals + held.fields;
        assert(inner =~= locals.push(less));
        let call = store.expr(arms[at].body)->Let_0;
        let tail = store.expr(arms[at].body)->Let_1;
        let carried = store.expr(call)->Call_1.read(store.atoms);
        let (one, other) = if scrutinee.0.0 == 0 {
            ((left - 1) as nat, right)
        } else {
            (left, (right - 1) as nat)
        };
        let passed = two_numbers(store, of, one, other);
        counting_down_adds(store, id, one, other, (counted - 1) as nat);
        assert(meaning::bound(carried, inner) is Some);
        assert(meaning::bound(carried, inner)->Some_0 =~= passed);
        let sum = constant::number_tree(store, of, one + other);
        assert(store.meaning(call, inner, (fuel - 2) as nat) == Some(
            Outcome::Answers(sum),
        ));
        let fields = store.expr(tail)->Con_1.read(store.atoms);
        let after = inner.push(sum);
        assert(meaning::bound(fields, after) is Some);
        assert(meaning::bound(fields, after)->Some_0 =~= seq![sum]);
        assert(store.meaning(tail, after, (fuel - 2) as nat) == Some(
            Outcome::Answers(constant::number_tree(store, of, left + right)),
        ));
        assert(store.meaning(arms[at].body, inner, (fuel - 1) as nat) == store.meaning(
            tail,
            after,
            (fuel - 2) as nat,
        ));
    }
}

} // verus!
