//! What a source says, told of itself.
//!
//! Clauses are rewrites. A term comes to a value, built of constructors by
//! their names, or to something that is asked of what lies outside. Nothing
//! here speaks of locals, terms in a pool or the order they were built in.

use super::builder::{self, Draft};
use super::constant::Tree;
use super::facts;
use super::infer::{self, SchemeForm, Slots, WorldForm};
use super::ir::{Atom, CtorId, Expr, ExprId, FnId, Store, TypeId};
use super::meaning::{self, are_of, bound, Outcome};
use super::parse::{self, BoundForm, TableForm};
use super::syntax::{
    ClauseForm, CtorForm, FunctionForm, PatternForm, SourceForm, StepForm, TermForm, TypeForm,
};
use crate::pool;
use vstd::prelude::*;

verus! {

/// A constructor's name, applied to values.
#[verifier::ext_equal]
pub struct Value {
    pub name: Seq<char>,
    pub fields: Seq<Value>,
}

/// What a term comes to.
#[verifier::ext_equal]
pub enum Came {
    Answers(Value),
    /// What is named and not defined is asked for with these.
    Asks(Seq<char>, Seq<Value>),
}

/// What names stand for.
pub type Named = Map<Seq<char>, Value>;

/// The functions there are, and the names that constructors have.
pub struct Text {
    pub functions: Seq<FunctionForm>,
    pub ctors: Set<Seq<char>>,
}

/// The first function from `from` on that has a name.
pub open spec fn defining(functions: Seq<FunctionForm>, name: Seq<char>, from: int) -> int
    decreases functions.len() - from,
{
    if from >= functions.len() || functions[from].name == name {
        from
    } else {
        defining(functions, name, from + 1)
    }
}

/// With names for values, one for one, where a later name is heard first.
pub open spec fn with_names(named: Named, names: Seq<Seq<char>>, values: Seq<Value>) -> Named
    decreases names.len(),
{
    if names.len() == 0 {
        named
    } else {
        with_names(named, names.drop_last(), values).insert(
            names.last(),
            values[names.len() - 1],
        )
    }
}

impl Text {
    /// Whether a pattern is for one constructor. A bare name is where a
    /// constructor has it.
    pub open spec fn takes_apart(self, pattern: PatternForm) -> bool {
        match pattern {
            PatternForm::Bind(name) => self.ctors.contains(name),
            PatternForm::Ctor(_, _) => true,
        }
    }

    /// Whether a pattern is for a value.
    pub open spec fn suits(self, pattern: PatternForm, value: Value) -> bool {
        match pattern {
            PatternForm::Bind(name) => self.ctors.contains(name) ==> value.name == name,
            PatternForm::Ctor(name, _) => value.name == name,
        }
    }

    /// Whether a clause names a constructor, and values are what it names.
    pub open spec fn names_them(self, clause: ClauseForm, values: Seq<Value>) -> bool {
        &&& exists|i: int|
            0 <= i < clause.patterns.len() && self.takes_apart(#[trigger] clause.patterns[i])
        &&& forall|i: int|
            0 <= i < clause.patterns.len() ==> self.suits(#[trigger] clause.patterns[i], values[i])
    }

    /// Whether a clause takes anything at all.
    pub open spec fn takes_all(self, clause: ClauseForm) -> bool {
        forall|i: int|
            0 <= i < clause.patterns.len() ==> !self.takes_apart(#[trigger] clause.patterns[i])
    }

    /// Whether a clause is the one for values: the first that names them; or,
    /// where none does, the first that takes anything.
    pub open spec fn is_for(self, clauses: Seq<ClauseForm>, values: Seq<Value>, at: int) -> bool {
        &&& 0 <= at < clauses.len()
        &&& if self.names_them(clauses[at], values) {
            forall|i: int| 0 <= i < at ==> !self.names_them(#[trigger] clauses[i], values)
        } else {
            &&& self.takes_all(clauses[at])
            &&& forall|i: int|
                0 <= i < clauses.len() ==> !self.names_them(#[trigger] clauses[i], values)
            &&& forall|i: int| 0 <= i < at ==> !self.takes_all(#[trigger] clauses[i])
        }
    }

    /// What patterns name: an argument, or each of its fields.
    pub open spec fn naming(self, patterns: Seq<PatternForm>, values: Seq<Value>) -> Named
        decreases patterns.len(),
    {
        if patterns.len() == 0 {
            Map::empty()
        } else {
            let before = self.naming(patterns.drop_last(), values);
            let value = values[patterns.len() - 1];
            match patterns.last() {
                PatternForm::Bind(name) => if self.ctors.contains(name) {
                    before
                } else {
                    before.insert(name, value)
                },
                PatternForm::Ctor(_, names) => with_names(before, names, value.fields),
            }
        }
    }

    /// What a term comes to, if calls this deep are enough to tell.
    pub open spec fn term_comes(self, term: TermForm, named: Named, depth: nat) -> Option<Came>
        decreases depth, 0nat, term,
    {
        match term {
            TermForm::Name(name) => if named.dom().contains(name) {
                Some(Came::Answers(named[name]))
            } else if self.ctors.contains(name) {
                Some(Came::Answers(Value { name, fields: seq![] }))
            } else {
                None
            },
            TermForm::Apply(name, args) => match self.terms_come(args, named, depth) {
                Some(Ok(values)) => if self.ctors.contains(name) {
                    Some(Came::Answers(Value { name, fields: values }))
                } else {
                    let at = defining(self.functions, name, 0);
                    if at >= self.functions.len() {
                        Some(Came::Asks(name, values))
                    } else if depth == 0 {
                        None
                    } else {
                        self.function_comes(
                            self.functions[at].clauses,
                            values,
                            (depth - 1) as nat,
                        )
                    }
                },
                Some(Err(asked)) => Some(asked),
                None => None,
            },
        }
    }

    /// What terms come to, from the first to the last, up to one that asks.
    pub open spec fn terms_come(self, terms: Seq<TermForm>, named: Named, depth: nat) -> Option<
        Result<Seq<Value>, Came>,
    >
        decreases depth, 0nat, terms,
    {
        if terms.len() == 0 {
            Some(Ok(seq![]))
        } else {
            match self.terms_come(terms.drop_last(), named, depth) {
                Some(Ok(values)) => match self.term_comes(terms.last(), named, depth) {
                    Some(Came::Answers(value)) => Some(Ok(values.push(value))),
                    Some(asked) => Some(Err(asked)),
                    None => None,
                },
                other => other,
            }
        }
    }

    /// What names stand for after steps, from the first to the last, up to one
    /// that asks.
    pub open spec fn steps_come(self, steps: Seq<StepForm>, named: Named, depth: nat) -> Option<
        Result<Named, Came>,
    >
        decreases depth, 1nat, steps,
    {
        if steps.len() == 0 {
            Some(Ok(named))
        } else {
            match self.steps_come(steps.drop_last(), named, depth) {
                Some(Ok(after)) => match self.term_comes(steps.last().term, after, depth) {
                    Some(Came::Answers(value)) => Some(Ok(after.insert(steps.last().name, value))),
                    Some(asked) => Some(Err(asked)),
                    None => None,
                },
                other => other,
            }
        }
    }

    pub open spec fn clause_comes(self, clause: ClauseForm, named: Named, depth: nat) -> Option<Came>
        decreases depth, 2nat, clause,
    {
        match self.steps_come(clause.steps, named, depth) {
            Some(Ok(after)) => self.term_comes(clause.body, after, depth),
            Some(Err(asked)) => Some(asked),
            None => None,
        }
    }

    /// What a function comes to: its clause for the values, with what its
    /// patterns name.
    pub open spec fn function_comes(
        self,
        clauses: Seq<ClauseForm>,
        values: Seq<Value>,
        depth: nat,
    ) -> Option<Came>
        decreases depth, 3nat, clauses,
    {
        if exists|at: int| self.is_for(clauses, values, at) {
            let at = choose|at: int| self.is_for(clauses, values, at);
            if 0 <= at < clauses.len() {
                let clause = clauses[at];
                self.clause_comes(clause, self.naming(clause.patterns, values), depth)
            } else {
                None
            }
        } else {
            None
        }
    }
}

/// A value as a source has it.
pub open spec fn said(store: Store, tree: Tree) -> Value
    decreases tree,
{
    Value { name: store.name(store.ctor(tree.ctor).name), fields: all_said(store, tree.fields) }
}

pub open spec fn all_said(store: Store, trees: Seq<Tree>) -> Seq<Value>
    decreases trees,
{
    if trees.len() == 0 {
        seq![]
    } else {
        all_said(store, trees.drop_last()).push(said(store, trees.last()))
    }
}

/// What a term comes to, as a source has it.
pub open spec fn outcome_said(store: Store, outcome: Outcome) -> Came {
    match outcome {
        Outcome::Answers(tree) => Came::Answers(said(store, tree)),
        Outcome::Asks(function, args) => Came::Asks(
            store.name(store.function(function).name),
            all_said(store, args),
        ),
    }
}

proof fn each_is_said(store: Store, trees: Seq<Tree>)
    ensures
        all_said(store, trees).len() == trees.len(),
        forall|i: int|
            0 <= i < trees.len() ==> #[trigger] all_said(store, trees)[i] == said(store, trees[i]),
    decreases trees.len(),
{
    if trees.len() > 0 {
        each_is_said(store, trees.drop_last());
    }
}

/// Whether a constructor that has a name may be named.
pub open spec fn is_known(store: Store, ctors: nat, name: Seq<char>) -> bool {
    exists|i: int|
        0 <= i < ctors && #[trigger] store.is_listed(CtorId(i as u32)) && store.name(
            store.ctors[i].name,
        ) == name
}

proof fn what_is_known_is_named(store: Store, name: Seq<char>, count: nat)
    requires
        count <= store.ctors.len() <= u32::MAX,
    ensures
        store.ctor_named(name, count) is Some <==> is_known(store, count, name),
        store.ctor_named(name, count) matches Some(ctor) ==> ctor.0 < count && store.name(
            store.ctor(ctor).name,
        ) == name,
    decreases count,
{
    if count > 0 {
        let fewer = (count - 1) as nat;
        what_is_known_is_named(store, name, fewer);
        if store.ctor_named(name, count) is Some {
            let ctor = store.ctor_named(name, count)->Some_0;
            infer::a_named_ctor_is_one(store, name, count);
            assert(CtorId(ctor.0 as int as u32) == ctor);
            assert(store.is_listed(CtorId(ctor.0 as int as u32)));
        }
        if is_known(store, count, name) {
            let i = choose|i: int|
                0 <= i < count && #[trigger] store.is_listed(CtorId(i as u32)) && store.name(
                    store.ctors[i].name,
                ) == name;
            if i < fewer {
                assert(is_known(store, fewer, name));
            }
        }
    }
}

/// Whether a program has all that an earlier one had, and the same names.
pub open spec fn holds(store: Store, program: Store) -> bool {
    &&& store.types == program.types
    &&& store.ctors == program.ctors
    &&& store.names == program.names
    &&& store.types_pool == program.types_pool
    &&& program.exprs.is_prefix_of(store.exprs)
    &&& program.atoms.is_prefix_of(store.atoms)
    &&& program.arms.is_prefix_of(store.arms)
}

proof fn holding_goes_back(store: Store, later: Store, earlier: Store)
    requires
        holds(store, later),
        later.grows(earlier),
    ensures
        holds(store, earlier),
{
    assert forall|i: int| 0 <= i < earlier.exprs.len() implies earlier.exprs[i]
        == store.exprs[i] by {
        assert(earlier.exprs[i] == later.exprs[i]);
    }
    assert forall|i: int| 0 <= i < earlier.atoms.len() implies earlier.atoms[i]
        == store.atoms[i] by {
        assert(earlier.atoms[i] == later.atoms[i]);
    }
    assert forall|i: int| 0 <= i < earlier.arms.len() implies earlier.arms[i] == store.arms[i] by {
        assert(earlier.arms[i] == later.arms[i]);
    }
}

proof fn wrapping_grows(program: Store, bound: Seq<ExprId>, body: ExprId)
    ensures
        builder::wrapped(program, bound, body).0.grows(program),
    decreases bound.len(),
{
    if bound.len() > 0 {
        let next = program.with_expr(Expr::Let(bound.last(), body));
        assert(next.grows(program));
        wrapping_grows(next, bound.drop_last(), program.next());
        builder::growth_chains(
            program,
            next,
            builder::wrapped(next, bound.drop_last(), program.next()).0,
        );
    }
}

proof fn closing_grows(draft: Draft, result: Atom)
    ensures
        draft.closed(result).0.grows(draft.program),
{
    if draft.answers_last(result) {
        wrapping_grows(draft.program, draft.pending.drop_last(), draft.pending.last());
    } else {
        let next = draft.program.with_expr(Expr::Atom(result));
        assert(next.grows(draft.program));
        wrapping_grows(next, draft.pending, draft.program.next());
        builder::growth_chains(draft.program, next, draft.closed(result).0);
    }
}

/// Whether a scope went on from an earlier point of it.
spec fn goes_on(before: Draft, after: Draft) -> bool {
    &&& after.program.grows(before.program)
    &&& before.pending.is_prefix_of(after.pending)
    &&& after.level - before.level == after.pending.len() - before.pending.len()
}

proof fn going_on_chains(first: Draft, second: Draft, third: Draft)
    requires
        goes_on(first, second),
        goes_on(second, third),
    ensures
        goes_on(first, third),
{
    builder::growth_chains(first.program, second.program, third.program);
    assert forall|i: int| 0 <= i < first.pending.len() implies first.pending[i]
        == third.pending[i] by {
        assert(first.pending[i] == second.pending[i]);
    }
}

/// What was bound on the way from one point of a scope to another.
spec fn fresh(before: Draft, after: Draft) -> Seq<ExprId> {
    after.pending.skip(before.pending.len() as int)
}

proof fn what_is_fresh_joins(first: Draft, second: Draft, third: Draft)
    requires
        goes_on(first, second),
        goes_on(second, third),
    ensures
        fresh(first, third) == fresh(first, second) + fresh(second, third),
{
    let whole = fresh(first, third);
    let parts = fresh(first, second) + fresh(second, third);
    assert(whole.len() == parts.len());
    assert forall|i: int| 0 <= i < whole.len() implies whole[i] == parts[i] by {
        let at = first.pending.len() + i;
        if at < second.pending.len() {
            assert(second.pending[at] == third.pending[at]);
        }
    }
    assert(whole =~= parts);
}

proof fn a_term_goes_on(table: TableForm, draft: Draft, scope: Seq<BoundForm>, term: TermForm)
    ensures
        table.term_built(draft, scope, term) matches Ok((after, _)) ==> goes_on(draft, after),
    decreases term,
{
    match term {
        TermForm::Name(name) => {},
        TermForm::Apply(name, args) => {
            args_go_on(table, draft, scope, args);
            if let Ok((mid, atoms)) = table.args_built(draft, scope, args) {
                if let Ok((after, _)) = table.term_built(draft, scope, term) {
                    assert(goes_on(mid, after));
                    going_on_chains(draft, mid, after);
                }
            }
        },
    }
}

proof fn args_go_on(table: TableForm, draft: Draft, scope: Seq<BoundForm>, args: Seq<TermForm>)
    ensures
        table.args_built(draft, scope, args) matches Ok((after, atoms)) ==> goes_on(draft, after)
            && atoms.len() == args.len(),
    decreases args,
{
    if args.len() > 0 {
        args_go_on(table, draft, scope, args.drop_last());
        if let Ok((mid, _)) = table.args_built(draft, scope, args.drop_last()) {
            a_term_goes_on(table, mid, scope, args.last());
            if let Ok((after, _)) = table.term_built(mid, scope, args.last()) {
                going_on_chains(draft, mid, after);
            }
        }
    }
}

proof fn steps_go_on(
    table: TableForm,
    draft: Draft,
    scope: Seq<BoundForm>,
    steps: Seq<StepForm>,
    count: nat,
)
    ensures
        table.steps_built(draft, scope, steps, count) matches Ok((after, _)) ==> goes_on(
            draft,
            after,
        ),
    decreases count,
{
    if count > 0 {
        let fewer = (count - 1) as nat;
        steps_go_on(table, draft, scope, steps, fewer);
        if let Ok((mid, names)) = table.steps_built(draft, scope, steps, fewer) {
            a_term_goes_on(table, mid, names, steps[count - 1].term);
            if let Ok((after, _)) = table.term_built(mid, names, steps[count - 1].term) {
                going_on_chains(draft, mid, after);
            }
        }
    }
}

proof fn a_clause_goes_on(table: TableForm, draft: Draft, scope: Seq<BoundForm>, clause: ClauseForm)
    ensures
        table.clause_built(draft, scope, clause) matches Ok((after, _)) ==> goes_on(draft, after),
{
    steps_go_on(table, draft, scope, clause.steps, clause.steps.len());
    if let Ok((mid, names)) = table.steps_built(draft, scope, clause.steps, clause.steps.len()) {
        a_term_goes_on(table, mid, names, clause.body);
        if let Ok((after, _)) = table.term_built(mid, names, clause.body) {
            going_on_chains(draft, mid, after);
        }
    }
}

/// Whether what a term calls is handed what it takes.
spec fn is_fed(store: Store, expr: ExprId, locals: Seq<Tree>) -> bool {
    match store.expr(expr) {
        Expr::Call(function, args) => {
            &&& function.0 < store.functions.len()
            &&& bound(args.read(store.atoms), locals) matches Some(trees) && are_of(
                store,
                trees,
                store.params(function),
            )
        },
        _ => true,
    }
}

spec fn comes_to(
    store: Store,
    expr: ExprId,
    locals: Seq<Tree>,
    outcome: Outcome,
    fuel: nat,
) -> bool {
    &&& store.meaning(expr, locals, fuel) == Some(outcome)
    &&& is_fed(store, expr, locals)
}

/// Whether terms come to values in turn, each bound for the next, up to one
/// that asks for something.
spec fn leads(
    store: Store,
    exprs: Seq<ExprId>,
    locals: Seq<Tree>,
    more: Seq<Tree>,
    last: Option<Outcome>,
    fuel: nat,
) -> bool {
    &&& more.len() <= exprs.len()
    &&& last is None <==> more.len() == exprs.len()
    &&& forall|i: int|
        0 <= i < more.len() ==> comes_to(
            store,
            #[trigger] exprs[i],
            locals + more.take(i),
            Outcome::Answers(more[i]),
            fuel,
        )
    &&& last matches Some(asked) ==> asked is Asks && comes_to(
        store,
        exprs[more.len() as int],
        locals + more,
        asked,
        fuel,
    )
}

proof fn leading_splits(
    store: Store,
    one: Seq<ExprId>,
    other: Seq<ExprId>,
    locals: Seq<Tree>,
    more: Seq<Tree>,
    last: Option<Outcome>,
    fuel: nat,
)
    requires
        leads(store, one + other, locals, more, last, fuel),
    ensures
        more.len() < one.len() ==> last is Some && leads(store, one, locals, more, last, fuel),
        more.len() >= one.len() ==> {
            let n = one.len() as int;
            &&& leads(store, one, locals, more.take(n), None, fuel)
            &&& leads(store, other, locals + more.take(n), more.skip(n), last, fuel)
            &&& more.take(n) + more.skip(n) == more
        },
{
    let both = one + other;
    let n = one.len() as int;
    if more.len() < n {
        assert forall|i: int| 0 <= i < more.len() implies comes_to(
            store,
            #[trigger] one[i],
            locals + more.take(i),
            Outcome::Answers(more[i]),
            fuel,
        ) by {
            assert(both[i] == one[i]);
        }
        assert(both[more.len() as int] == one[more.len() as int]);
    } else {
        let (first, rest) = (more.take(n), more.skip(n));
        assert(first + rest =~= more);
        assert forall|i: int| 0 <= i < n implies comes_to(
            store,
            #[trigger] one[i],
            locals + first.take(i),
            Outcome::Answers(first[i]),
            fuel,
        ) by {
            assert(both[i] == one[i]);
            assert(first.take(i) =~= more.take(i));
        }
        assert forall|i: int| 0 <= i < rest.len() implies comes_to(
            store,
            #[trigger] other[i],
            (locals + first) + rest.take(i),
            Outcome::Answers(rest[i]),
            fuel,
        ) by {
            assert(both[n + i] == other[i]);
            assert((locals + first) + rest.take(i) =~= locals + more.take(n + i));
            assert(rest[i] == more[n + i]);
        }
        assert((locals + first) + rest =~= locals + more);
        if last is Some {
            assert(both[more.len() as int] == other[rest.len() as int]);
        }
    }
}

proof fn leading_goes_on(
    store: Store,
    exprs: Seq<ExprId>,
    locals: Seq<Tree>,
    more: Seq<Tree>,
    last: Option<Outcome>,
    fuel: nat,
    held: Tree,
)
    requires
        exprs.len() > 0,
        leads(store, exprs.drop_last(), locals, more, last, fuel),
        last is None ==> comes_to(
            store,
            exprs.last(),
            locals + more,
            Outcome::Answers(held),
            fuel,
        ),
    ensures
        last is Some ==> leads(store, exprs, locals, more, last, fuel),
        last is None ==> leads(store, exprs, locals, more.push(held), None, fuel),
{
    let fewer = exprs.drop_last();
    if last is Some {
        assert forall|i: int| 0 <= i < more.len() implies comes_to(
            store,
            #[trigger] exprs[i],
            locals + more.take(i),
            Outcome::Answers(more[i]),
            fuel,
        ) by {
            assert(fewer[i] == exprs[i]);
        }
        assert(fewer[more.len() as int] == exprs[more.len() as int]);
    } else {
        let all = more.push(held);
        assert forall|i: int| 0 <= i < all.len() implies comes_to(
            store,
            #[trigger] exprs[i],
            locals + all.take(i),
            Outcome::Answers(all[i]),
            fuel,
        ) by {
            if i < more.len() {
                assert(fewer[i] == exprs[i]);
                assert(all.take(i) =~= more.take(i));
            } else {
                assert(all.take(i) =~= more);
            }
        }
    }
}

/// Asking is the end of it.
proof fn leading_ends(
    store: Store,
    exprs: Seq<ExprId>,
    locals: Seq<Tree>,
    more: Seq<Tree>,
    fuel: nat,
    asked: Outcome,
)
    requires
        exprs.len() > 0,
        leads(store, exprs.drop_last(), locals, more, None, fuel),
        asked is Asks,
        comes_to(store, exprs.last(), locals + more, asked, fuel),
    ensures
        leads(store, exprs, locals, more, Some(asked), fuel),
{
    let fewer = exprs.drop_last();
    assert forall|i: int| 0 <= i < more.len() implies comes_to(
        store,
        #[trigger] exprs[i],
        locals + more.take(i),
        Outcome::Answers(more[i]),
        fuel,
    ) by {
        assert(fewer[i] == exprs[i]);
    }
}

/// Whether types are ones there are.
spec fn are_there(store: Store, types: Seq<TypeId>) -> bool {
    forall|i: int| 0 <= i < types.len() ==> (#[trigger] types[i]).0 < store.types.len()
}

proof fn a_typed_term_is_fed(
    store: Store,
    expr: ExprId,
    types: Seq<TypeId>,
    id: TypeId,
    pure: bool,
    locals: Seq<Tree>,
)
    requires
        store.wf(),
        expr.0 < store.exprs.len(),
        store.has_type(expr, types, id, pure),
        are_of(store, locals, types),
    ensures
        is_fed(store, expr, locals),
{
    assert(store.expr_fits(expr.0 as int, store.exprs[expr.0 as int]));
    match store.expr(expr) {
        Expr::Call(function, args) => {
            meaning::bound_values_are_of(
                store,
                args.read(store.atoms),
                locals,
                types,
                store.params(function),
            );
        },
        _ => {},
    }
}

/// Terms bound one inside the other come to values in turn.
proof fn a_wrapping_is_told(
    program: Store,
    bound: Seq<ExprId>,
    body: ExprId,
    store: Store,
    types: Seq<TypeId>,
    id: TypeId,
    pure: bool,
    locals: Seq<Tree>,
    fuel: nat,
    outcome: Outcome,
) -> (told: (Seq<Tree>, Seq<TypeId>, Option<Outcome>))
    requires
        store.wf(),
        store.typed(),
        holds(store, builder::wrapped(program, bound, body).0),
        program.exprs.len() + bound.len() <= u32::MAX,
        builder::wrapped(program, bound, body).1.0 < store.exprs.len(),
        store.has_type(builder::wrapped(program, bound, body).1, types, id, pure),
        are_of(store, locals, types),
        are_there(store, types),
        store.meaning(builder::wrapped(program, bound, body).1, locals, fuel) == Some(outcome),
    ensures
        ({
            let (more, kinds, last) = told;
            &&& leads(store, bound, locals, more, last, fuel)
            &&& last matches Some(asked) ==> asked == outcome
            &&& last is None ==> {
                &&& store.meaning(body, locals + more, fuel) == Some(outcome)
                &&& store.has_type(body, types + kinds, id, pure)
                &&& are_of(store, locals + more, types + kinds)
                &&& are_there(store, types + kinds)
                &&& body.0 < store.exprs.len()
            }
        }),
    decreases bound.len(),
{
    if bound.len() == 0 {
        let (more, kinds) = (Seq::<Tree>::empty(), Seq::<TypeId>::empty());
        assert(locals + more =~= locals);
        assert(types + kinds =~= types);
        (more, kinds, None)
    } else {
        let next = program.with_expr(Expr::Let(bound.last(), body));
        let fewer = bound.drop_last();
        let (more, kinds, last) = a_wrapping_is_told(
            next,
            fewer,
            program.next(),
            store,
            types,
            id,
            pure,
            locals,
            fuel,
            outcome,
        );
        if last is Some {
            leading_goes_on(store, bound, locals, more, last, fuel, arbitrary());
            (more, kinds, last)
        } else {
            let (here, theirs) = (locals + more, types + kinds);
            let expr = program.next();
            let value = bound.last();
            wrapping_grows(next, fewer, expr);
            assert(next.exprs[program.exprs.len() as int] == Expr::Let(value, body));
            assert(store.expr(expr) == Expr::Let(value, body)) by {
                let whole = builder::wrapped(program, bound, body).0;
                assert(whole.exprs[program.exprs.len() as int]
                    == next.exprs[program.exprs.len() as int]);
            }
            let less = (fuel - 1) as nat;
            let held = choose|held: TypeId|
                store.has_type(value, theirs, held, pure) && store.has_type(
                    body,
                    #[trigger] theirs.push(held),
                    id,
                    pure,
                );
            meaning::running_keeps_types(store, value, theirs, held, pure, here, less);
            meaning::a_type_there_is(store, value, theirs, held, pure);
            a_typed_term_is_fed(store, value, theirs, held, pure, here);
            meaning::more_steps_tell_the_same(store, value, here, less, fuel);
            match store.meaning(value, here, less)->Some_0 {
                Outcome::Answers(tree) => {
                    leading_goes_on(store, bound, locals, more, None, fuel, tree);
                    let (all, each) = (more.push(tree), kinds.push(held));
                    assert(locals + all =~= here.push(tree));
                    assert(types + each =~= theirs.push(held));
                    meaning::more_steps_tell_the_same(store, body, here.push(tree), less, fuel);
                    assert forall|i: int| 0 <= i < here.push(tree).len() implies super::constant::typed(
                        store,
                        theirs.push(held)[i],
                        #[trigger] here.push(tree)[i],
                    ) by {
                        if i < here.len() {
                            assert(super::constant::typed(store, theirs[i], here[i]));
                        }
                    }
                    (all, each, None)
                },
                asked => {
                    leading_ends(store, bound, locals, more, fuel, asked);
                    (more, kinds, Some(asked))
                },
            }
        }
    }
}

/// A scope that was closed comes to its bindings in turn, and to its result.
proof fn a_scope_is_told(
    draft: Draft,
    result: Atom,
    store: Store,
    types: Seq<TypeId>,
    id: TypeId,
    pure: bool,
    locals: Seq<Tree>,
    fuel: nat,
    outcome: Outcome,
) -> (told: (Seq<Tree>, Option<Outcome>))
    requires
        store.wf(),
        store.typed(),
        holds(store, draft.closed(result).0),
        draft.program.exprs.len() + draft.pending.len() + 1 <= u32::MAX,
        draft.closed(result).1.0 < store.exprs.len(),
        store.has_type(draft.closed(result).1, types, id, pure),
        are_of(store, locals, types),
        are_there(store, types),
        draft.level == locals.len() + draft.pending.len(),
        store.meaning(draft.closed(result).1, locals, fuel) == Some(outcome),
    ensures
        ({
            let (more, last) = told;
            &&& leads(store, draft.pending, locals, more, last, fuel)
            &&& last matches Some(asked) ==> asked == outcome
            &&& last is None ==> {
                &&& result.0.0 < (locals + more).len()
                &&& outcome == Outcome::Answers((locals + more)[result.0.0 as int])
            }
        }),
{
    let pending = draft.pending;
    if draft.answers_last(result) {
        let body = pending.last();
        let (more, kinds, last) = a_wrapping_is_told(
            draft.program,
            pending.drop_last(),
            body,
            store,
            types,
            id,
            pure,
            locals,
            fuel,
            outcome,
        );
        if last is Some {
            leading_goes_on(store, pending, locals, more, last, fuel, arbitrary());
            (more, last)
        } else {
            a_typed_term_is_fed(store, body, types + kinds, id, pure, locals + more);
            match outcome {
                Outcome::Answers(tree) => {
                    leading_goes_on(store, pending, locals, more, None, fuel, tree);
                    (more.push(tree), None)
                },
                _ => {
                    leading_ends(store, pending, locals, more, fuel, outcome);
                    (more, Some(outcome))
                },
            }
        }
    } else {
        let next = draft.program.with_expr(Expr::Atom(result));
        let body = draft.program.next();
        let (more, kinds, last) = a_wrapping_is_told(
            next,
            pending,
            body,
            store,
            types,
            id,
            pure,
            locals,
            fuel,
            outcome,
        );
        wrapping_grows(next, pending, body);
        assert(store.expr(body) == Expr::Atom(result)) by {
            let whole = draft.closed(result).0;
            let at = draft.program.exprs.len() as int;
            assert(next.exprs[at] == Expr::Atom(result));
            assert(whole.exprs[at] == next.exprs[at]);
        }
        (more, last)
    }
}

/// Whether a name stands for the same in a source and in a scope.
spec fn is_named(
    store: Store,
    named: Named,
    scope: Seq<BoundForm>,
    locals: Seq<Tree>,
    name: Seq<char>,
) -> bool {
    match parse::atom_of(scope, name, scope.len()) {
        Some(atom) => named.dom().contains(name) && atom.0.0 < locals.len() && named[name] == said(
            store,
            locals[atom.0.0 as int],
        ),
        None => !named.dom().contains(name),
    }
}

spec fn agrees(store: Store, named: Named, scope: Seq<BoundForm>, locals: Seq<Tree>) -> bool {
    forall|name: Seq<char>| #[trigger] is_named(store, named, scope, locals, name)
}

proof fn agreement_goes_on(
    store: Store,
    named: Named,
    scope: Seq<BoundForm>,
    locals: Seq<Tree>,
    more: Seq<Tree>,
)
    requires
        agrees(store, named, scope, locals),
    ensures
        agrees(store, named, scope, locals + more),
{
    assert forall|name: Seq<char>| #[trigger] is_named(store, named, scope, locals + more, name) by {
        assert(is_named(store, named, scope, locals, name));
        if let Some(atom) = parse::atom_of(scope, name, scope.len()) {
            assert((locals + more)[atom.0.0 as int] == locals[atom.0.0 as int]);
        }
    }
}

proof fn an_earlier_name_is_heard(
    scope: Seq<BoundForm>,
    last: BoundForm,
    name: Seq<char>,
    count: nat,
)
    requires
        count <= scope.len(),
    ensures
        parse::atom_of(scope.push(last), name, count) == parse::atom_of(scope, name, count),
    decreases count,
{
    if count > 0 {
        an_earlier_name_is_heard(scope, last, name, (count - 1) as nat);
    }
}

proof fn one_more_is_named(
    store: Store,
    named: Named,
    scope: Seq<BoundForm>,
    locals: Seq<Tree>,
    last: BoundForm,
)
    requires
        agrees(store, named, scope, locals),
        last.atom.0.0 < locals.len(),
    ensures
        agrees(
            store,
            named.insert(last.name, said(store, locals[last.atom.0.0 as int])),
            scope.push(last),
            locals,
        ),
{
    let after = named.insert(last.name, said(store, locals[last.atom.0.0 as int]));
    assert forall|name: Seq<char>| #[trigger] is_named(store, after, scope.push(last), locals, name) by {
        assert(is_named(store, named, scope, locals, name));
        an_earlier_name_is_heard(scope, last, name, scope.len());
        assert(scope.push(last)[scope.len() as int] == last);
    }
}

/// Whether a function is what was built of its clauses.
spec fn is_built_from(
    table: TableForm,
    store: Store,
    before: Store,
    at: int,
    clauses: Seq<ClauseForm>,
) -> bool {
    &&& at < before.functions.len()
    &&& before.functions[at].params == store.functions[at].params
    &&& before.params(FnId(at as u32)) == store.params(FnId(at as u32))
    &&& table.function_built(before, FnId(at as u32), clauses) matches Ok(after)
    &&& holds(store, after)
    &&& store.functions[at].body == after.functions[at].body
}

spec fn is_built(text: Text, table: TableForm, store: Store, at: int) -> bool {
    let clauses = text.functions[at].clauses;
    &&& store.functions[at].defined
    &&& clauses.len() > 0
    &&& infer::is_steady(text.functions[at])
    &&& clauses[0].patterns.len() == store.functions[at].params.len
    &&& exists|before: Store| #[trigger] is_built_from(table, store, before, at, clauses)
}

/// Whether a program is what was built of a text, with what it was built by.
spec fn is_table(text: Text, table: TableForm, store: Store) -> bool {
    &&& store.wf()
    &&& store.typed()
    &&& table.ctors <= store.ctors.len()
    &&& forall|name: Seq<char>| #[trigger]
        text.ctors.contains(name) <==> is_known(store, table.ctors, name)
    &&& text.functions.len() <= table.scheme.names.len()
    &&& table.scheme.names.len() == store.functions.len()
    &&& store.functions.len() <= u32::MAX
    &&& forall|i: int|
        0 <= i < text.functions.len() ==> #[trigger] table.scheme.names[i]
            == text.functions[i].name
    &&& forall|i: int|
        0 <= i < store.functions.len() ==> store.name((#[trigger] store.functions[i]).name)
            == table.scheme.names[i]
    &&& forall|i: int|
        text.functions.len() <= i < store.functions.len() ==> !(
        #[trigger] store.functions[i]).defined
    &&& forall|i: int|
        0 <= i < text.functions.len() ==> #[trigger] is_built(text, table, store, i)
}

proof fn knowing_is_by_declaration(one: Store, other: Store, ctors: nat, name: Seq<char>)
    requires
        one.types == other.types,
        one.ctors == other.ctors,
        one.names == other.names,
        is_known(one, ctors, name),
    ensures
        is_known(other, ctors, name),
{
    let i = choose|i: int|
        0 <= i < ctors && #[trigger] one.is_listed(CtorId(i as u32)) && one.name(
            one.ctors[i].name,
        ) == name;
    assert(other.is_listed(CtorId(i as u32)));
}

proof fn a_constructor_is_known(
    text: Text,
    table: TableForm,
    store: Store,
    program: Store,
    name: Seq<char>,
)
    requires
        is_table(text, table, store),
        holds(store, program),
    ensures
        table.world(program).ctor(name) is Some <==> text.ctors.contains(name),
        table.world(program).ctor(name) matches Some(ctor) ==> store.name(store.ctor(ctor).name)
            == name && ctor.0 < store.ctors.len(),
{
    what_is_known_is_named(program, name, table.ctors);
    if is_known(program, table.ctors, name) {
        knowing_is_by_declaration(program, store, table.ctors, name);
    }
    if is_known(store, table.ctors, name) {
        knowing_is_by_declaration(store, program, table.ctors, name);
    }
}

proof fn a_function_is_found(text: Text, table: TableForm, name: Seq<char>, from: int)
    requires
        0 <= from <= table.scheme.names.len(),
        text.functions.len() <= table.scheme.names.len(),
        forall|i: int|
            0 <= i < text.functions.len() ==> #[trigger] table.scheme.names[i]
                == text.functions[i].name,
    ensures
        ({
            let at = table.scheme.named_from(name, from);
            &&& from <= at <= table.scheme.names.len()
            &&& at < table.scheme.names.len() ==> table.scheme.names[at] == name
            &&& at < text.functions.len() ==> defining(text.functions, name, from) == at
            &&& at >= text.functions.len() ==> defining(text.functions, name, from)
                >= text.functions.len()
        }),
    decreases table.scheme.names.len() - from,
{
    if from < table.scheme.names.len() && table.scheme.names[from] != name {
        a_function_is_found(text, table, name, from + 1);
    }
}

/// A constructor that was applied comes to what it builds.
proof fn a_construction_is_told(
    store: Store,
    draft: Draft,
    ctor: CtorId,
    args: Seq<Atom>,
    locals: Seq<Tree>,
    more: Seq<Tree>,
    last: Option<Outcome>,
    fuel: nat,
)
    requires
        parse::con_built(draft, ctor, args) is Ok,
        holds(store, draft.con(ctor, args).program),
        locals.len() == draft.level,
        leads(store, fresh(draft, draft.con(ctor, args)), locals, more, last, fuel),
    ensures
        last is None,
        more.len() == 1,
        bound(args, locals) matches Some(fields) && more[0] == (Tree { ctor, fields }),
        draft.next().0.0 == locals.len(),
{
    let after = draft.con(ctor, args);
    let id = draft.program.next();
    let range = pool::Range::from(draft.program.atoms.len(), args.len());
    let exprs = fresh(draft, after);
    assert(exprs =~= seq![id]);
    assert(after.program.exprs[draft.program.exprs.len() as int] == Expr::Con(ctor, range));
    assert(store.expr(id) == Expr::Con(ctor, range));
    assert(range.read(store.atoms) =~= args) by {
        assert forall|i: int| 0 <= i < args.len() implies range.read(store.atoms)[i] == args[i] by {
            let at = draft.program.atoms.len() + i;
            assert(after.program.atoms[at] == args[i]);
            assert(store.atoms[at] == after.program.atoms[at]);
        }
    }
    assert(locals + more.take(0) =~= locals);
    if last is Some {
        assert(more.len() == 0);
        assert(locals + more =~= locals);
        assert(comes_to(store, exprs[0], locals, last->Some_0, fuel));
    } else {
        assert(comes_to(
            store,
            exprs[0],
            locals + more.take(0),
            Outcome::Answers(more[0]),
            fuel,
        ));
    }
}

/// A function that was called comes to what it answers, or asks.
proof fn a_call_is_told(
    store: Store,
    draft: Draft,
    function: FnId,
    args: Seq<Atom>,
    locals: Seq<Tree>,
    more: Seq<Tree>,
    last: Option<Outcome>,
    fuel: nat,
) -> (outcome: Outcome)
    requires
        parse::call_built(draft, function, args) is Ok,
        holds(store, draft.call(function, args).program),
        locals.len() == draft.level,
        leads(store, fresh(draft, draft.call(function, args)), locals, more, last, fuel),
    ensures
        fuel > 0,
        function.0 < store.functions.len(),
        bound(args, locals) matches Some(trees) && are_of(store, trees, store.params(function))
            && if store.function(function).defined {
            store.meaning(store.function(function).body, trees, (fuel - 1) as nat) == Some(outcome)
        } else {
            outcome == Outcome::Asks(function, trees)
        },
        last matches Some(asked) ==> outcome == asked,
        last is None ==> more.len() == 1 && outcome == Outcome::Answers(more[0]),
        draft.next().0.0 == locals.len(),
{
    let after = draft.call(function, args);
    let id = draft.program.next();
    let range = pool::Range::from(draft.program.atoms.len(), args.len());
    let exprs = fresh(draft, after);
    assert(exprs =~= seq![id]);
    assert(after.program.exprs[draft.program.exprs.len() as int] == Expr::Call(function, range));
    assert(store.expr(id) == Expr::Call(function, range));
    assert(range.read(store.atoms) =~= args) by {
        assert forall|i: int| 0 <= i < args.len() implies range.read(store.atoms)[i] == args[i] by {
            let at = draft.program.atoms.len() + i;
            assert(after.program.atoms[at] == args[i]);
            assert(store.atoms[at] == after.program.atoms[at]);
        }
    }
    assert(locals + more.take(0) =~= locals);
    if last is Some {
        assert(more.len() == 0);
        assert(locals + more =~= locals);
        assert(comes_to(store, exprs[0], locals, last->Some_0, fuel));
        last->Some_0
    } else {
        let outcome = Outcome::Answers(more[0]);
        assert(comes_to(store, exprs[0], locals + more.take(0), outcome, fuel));
        outcome
    }
}

/// What was built of a term comes to what the term does.
proof fn a_term_is_told(
    text: Text,
    table: TableForm,
    store: Store,
    draft: Draft,
    scope: Seq<BoundForm>,
    term: TermForm,
    named: Named,
    locals: Seq<Tree>,
    more: Seq<Tree>,
    last: Option<Outcome>,
    fuel: nat,
)
    requires
        is_table(text, table, store),
        table.term_built(draft, scope, term) is Ok,
        holds(store, table.term_built(draft, scope, term)->Ok_0.0.program),
        agrees(store, named, scope, locals),
        locals.len() == draft.level,
        leads(
            store,
            fresh(draft, table.term_built(draft, scope, term)->Ok_0.0),
            locals,
            more,
            last,
            fuel,
        ),
    ensures
        ({
            let (_, atom) = table.term_built(draft, scope, term)->Ok_0;
            match last {
                None => atom.0.0 < (locals + more).len() && text.term_comes(term, named, fuel)
                    == Some(Came::Answers(said(store, (locals + more)[atom.0.0 as int]))),
                Some(asked) => text.term_comes(term, named, fuel) == Some(
                    outcome_said(store, asked),
                ),
            }
        }),
    decreases fuel, 0nat, 0nat, term,
{
    let (after, atom) = table.term_built(draft, scope, term)->Ok_0;
    a_term_goes_on(table, draft, scope, term);
    match term {
        TermForm::Name(name) => {
            assert(is_named(store, named, scope, locals, name));
            if parse::atom_of(scope, name, scope.len()) is Some {
                assert(fresh(draft, after) =~= seq![]);
                assert(locals + more =~= locals);
            } else {
                holding_goes_back(store, after.program, draft.program);
                a_constructor_is_known(text, table, store, draft.program, name);
                let ctor = table.world(draft.program).ctor(name)->Some_0;
                a_construction_is_told(store, draft, ctor, seq![], locals, more, last, fuel);
                assert(more[0].fields =~= seq![]);
                assert((locals + more)[locals.len() as int] == more[0]);
                assert(all_said(store, more[0].fields) =~= seq![]);
            }
        },
        TermForm::Apply(name, args) => {
            let (mid, atoms) = table.args_built(draft, scope, args)->Ok_0;
            args_go_on(table, draft, scope, args);
            assert(goes_on(mid, after));
            holding_goes_back(store, after.program, mid.program);
            what_is_fresh_joins(draft, mid, after);
            let (one, other) = (fresh(draft, mid), fresh(mid, after));
            leading_splits(store, one, other, locals, more, last, fuel);
            if more.len() < one.len() {
                args_are_told(text, table, store, draft, scope, args, named, locals, more, last, fuel);
            } else {
                let (first, rest) = (more.take(one.len() as int), more.skip(one.len() as int));
                args_are_told(
                    text,
                    table,
                    store,
                    draft,
                    scope,
                    args,
                    named,
                    locals,
                    first,
                    None,
                    fuel,
                );
                let here = locals + first;
                let trees = bound(atoms, here)->Some_0;
                assert(here.len() == mid.level);
                assert(here + rest =~= locals + more);
                a_constructor_is_known(text, table, store, mid.program, name);
                let ctor = table.world(mid.program).ctor(name);
                let at = table.scheme.named(name);
                a_function_is_found(text, table, name, 0);
                if ctor is Some {
                    a_construction_is_told(
                        store,
                        mid,
                        ctor->Some_0,
                        atoms,
                        here,
                        rest,
                        last,
                        fuel,
                    );
                    assert((here + rest)[here.len() as int] == rest[0]);
                } else {
                    let function = FnId(at as u32);
                    let outcome = a_call_is_told(
                        store,
                        mid,
                        function,
                        atoms,
                        here,
                        rest,
                        last,
                        fuel,
                    );
                    assert(function.0 == at);
                    if at < text.functions.len() {
                        assert(is_built(text, table, store, at));
                        a_function_is_told(
                            text,
                            table,
                            store,
                            at,
                            trees,
                            (fuel - 1) as nat,
                            outcome,
                        );
                    } else {
                        assert(!store.functions[at].defined);
                        assert(store.name(store.functions[at].name) == table.scheme.names[at]);
                    }
                    if last is None {
                        assert((here + rest)[here.len() as int] == rest[0]);
                    }
                }
            }
        },
    }
}

proof fn args_are_told(
    text: Text,
    table: TableForm,
    store: Store,
    draft: Draft,
    scope: Seq<BoundForm>,
    args: Seq<TermForm>,
    named: Named,
    locals: Seq<Tree>,
    more: Seq<Tree>,
    last: Option<Outcome>,
    fuel: nat,
)
    requires
        is_table(text, table, store),
        table.args_built(draft, scope, args) is Ok,
        holds(store, table.args_built(draft, scope, args)->Ok_0.0.program),
        agrees(store, named, scope, locals),
        locals.len() == draft.level,
        leads(
            store,
            fresh(draft, table.args_built(draft, scope, args)->Ok_0.0),
            locals,
            more,
            last,
            fuel,
        ),
    ensures
        ({
            let (_, atoms) = table.args_built(draft, scope, args)->Ok_0;
            match last {
                None => bound(atoms, locals + more) matches Some(trees) && text.terms_come(
                    args,
                    named,
                    fuel,
                ) == Some(Ok::<_, Came>(all_said(store, trees))),
                Some(asked) => text.terms_come(args, named, fuel) == Some(
                    Err::<Seq<Value>, _>(outcome_said(store, asked)),
                ),
            }
        }),
    decreases fuel, 0nat, 0nat, args,
{
    let (after, atoms) = table.args_built(draft, scope, args)->Ok_0;
    if args.len() == 0 {
        assert(fresh(draft, after) =~= seq![]);
        assert(bound(atoms, locals + more)->Some_0 =~= seq![]);
    } else {
        let (mid, some) = table.args_built(draft, scope, args.drop_last())->Ok_0;
        args_go_on(table, draft, scope, args.drop_last());
        a_term_goes_on(table, mid, scope, args.last());
        let atom = table.term_built(mid, scope, args.last())->Ok_0.1;
        holding_goes_back(store, after.program, mid.program);
        what_is_fresh_joins(draft, mid, after);
        let (one, other) = (fresh(draft, mid), fresh(mid, after));
        leading_splits(store, one, other, locals, more, last, fuel);
        if more.len() < one.len() {
            args_are_told(
                text,
                table,
                store,
                draft,
                scope,
                args.drop_last(),
                named,
                locals,
                more,
                last,
                fuel,
            );
        } else {
            let (first, rest) = (more.take(one.len() as int), more.skip(one.len() as int));
            args_are_told(
                text,
                table,
                store,
                draft,
                scope,
                args.drop_last(),
                named,
                locals,
                first,
                None,
                fuel,
            );
            let here = locals + first;
            agreement_goes_on(store, named, scope, locals, first);
            a_term_is_told(
                text,
                table,
                store,
                mid,
                scope,
                args.last(),
                named,
                here,
                rest,
                last,
                fuel,
            );
            assert(here + rest =~= locals + more);
            if last is None {
                let whole = locals + more;
                let earlier = bound(some, here)->Some_0;
                assert forall|i: int| 0 <= i < atoms.len() implies (#[trigger] atoms[i]).0.0
                    < whole.len() by {
                    if i < some.len() {
                        assert(atoms[i] == some[i]);
                        assert(some[i].0.0 < here.len());
                    }
                }
                let trees = bound(atoms, whole)->Some_0;
                assert(trees.drop_last() =~= earlier) by {
                    assert forall|i: int| 0 <= i < some.len() implies trees[i] == earlier[i] by {
                        assert(atoms[i] == some[i]);
                        assert(some[i].0.0 < here.len());
                        assert(whole[some[i].0.0 as int] == here[some[i].0.0 as int]);
                    }
                }
                assert(trees.last() == whole[atom.0.0 as int]);
            }
        }
    }
}

/// What was built of a clause's steps comes to what they do.
proof fn steps_are_told(
    text: Text,
    table: TableForm,
    store: Store,
    draft: Draft,
    scope: Seq<BoundForm>,
    steps: Seq<StepForm>,
    count: nat,
    named: Named,
    locals: Seq<Tree>,
    more: Seq<Tree>,
    last: Option<Outcome>,
    fuel: nat,
) -> (after: Named)
    requires
        count <= steps.len(),
        is_table(text, table, store),
        table.steps_built(draft, scope, steps, count) is Ok,
        holds(store, table.steps_built(draft, scope, steps, count)->Ok_0.0.program),
        agrees(store, named, scope, locals),
        locals.len() == draft.level,
        leads(
            store,
            fresh(draft, table.steps_built(draft, scope, steps, count)->Ok_0.0),
            locals,
            more,
            last,
            fuel,
        ),
    ensures
        ({
            let (_, names) = table.steps_built(draft, scope, steps, count)->Ok_0;
            let come = text.steps_come(steps.take(count as int), named, fuel);
            match last {
                None => come == Some(Ok::<_, Came>(after)) && agrees(
                    store,
                    after,
                    names,
                    locals + more,
                ),
                Some(asked) => come == Some(Err::<Named, _>(outcome_said(store, asked))),
            }
        }),
    decreases fuel, 1nat, count,
{
    let (end, names) = table.steps_built(draft, scope, steps, count)->Ok_0;
    if count == 0 {
        assert(fresh(draft, end) =~= seq![]);
        assert(locals + more =~= locals);
        named
    } else {
        let fewer = (count - 1) as nat;
        let (mid, some) = table.steps_built(draft, scope, steps, fewer)->Ok_0;
        let step = steps[fewer as int];
        steps_go_on(table, draft, scope, steps, fewer);
        a_term_goes_on(table, mid, some, step.term);
        let atom = table.term_built(mid, some, step.term)->Ok_0.1;
        holding_goes_back(store, end.program, mid.program);
        what_is_fresh_joins(draft, mid, end);
        let (one, other) = (fresh(draft, mid), fresh(mid, end));
        leading_splits(store, one, other, locals, more, last, fuel);
        let list = steps.take(count as int);
        assert(list.drop_last() =~= steps.take(fewer as int));
        assert(list.last() == step);
        if more.len() < one.len() {
            steps_are_told(
                text,
                table,
                store,
                draft,
                scope,
                steps,
                fewer,
                named,
                locals,
                more,
                last,
                fuel,
            )
        } else {
            let (first, rest) = (more.take(one.len() as int), more.skip(one.len() as int));
            let before = steps_are_told(
                text,
                table,
                store,
                draft,
                scope,
                steps,
                fewer,
                named,
                locals,
                first,
                None,
                fuel,
            );
            let here = locals + first;
            a_term_is_told(
                text,
                table,
                store,
                mid,
                some,
                step.term,
                before,
                here,
                rest,
                last,
                fuel,
            );
            assert(here + rest =~= locals + more);
            if last is None {
                let whole = locals + more;
                agreement_goes_on(store, before, some, here, rest);
                one_more_is_named(
                    store,
                    before,
                    some,
                    whole,
                    BoundForm { name: step.name, atom },
                );
                before.insert(step.name, said(store, whole[atom.0.0 as int]))
            } else {
                before
            }
        }
    }
}

proof fn a_clause_is_told(
    text: Text,
    table: TableForm,
    store: Store,
    draft: Draft,
    scope: Seq<BoundForm>,
    clause: ClauseForm,
    named: Named,
    locals: Seq<Tree>,
    more: Seq<Tree>,
    last: Option<Outcome>,
    fuel: nat,
)
    requires
        is_table(text, table, store),
        table.clause_built(draft, scope, clause) is Ok,
        holds(store, table.clause_built(draft, scope, clause)->Ok_0.0.program),
        agrees(store, named, scope, locals),
        locals.len() == draft.level,
        leads(
            store,
            fresh(draft, table.clause_built(draft, scope, clause)->Ok_0.0),
            locals,
            more,
            last,
            fuel,
        ),
    ensures
        ({
            let (_, atom) = table.clause_built(draft, scope, clause)->Ok_0;
            match last {
                None => atom.0.0 < (locals + more).len() && text.clause_comes(clause, named, fuel)
                    == Some(Came::Answers(said(store, (locals + more)[atom.0.0 as int]))),
                Some(asked) => text.clause_comes(clause, named, fuel) == Some(
                    outcome_said(store, asked),
                ),
            }
        }),
    decreases fuel, 2nat, 0nat,
{
    let (end, atom) = table.clause_built(draft, scope, clause)->Ok_0;
    let steps = clause.steps;
    let (mid, names) = table.steps_built(draft, scope, steps, steps.len())->Ok_0;
    steps_go_on(table, draft, scope, steps, steps.len());
    a_term_goes_on(table, mid, names, clause.body);
    holding_goes_back(store, end.program, mid.program);
    what_is_fresh_joins(draft, mid, end);
    let (one, other) = (fresh(draft, mid), fresh(mid, end));
    leading_splits(store, one, other, locals, more, last, fuel);
    assert(steps.take(steps.len() as int) =~= steps);
    if more.len() < one.len() {
        let _ = steps_are_told(
            text,
            table,
            store,
            draft,
            scope,
            steps,
            steps.len(),
            named,
            locals,
            more,
            last,
            fuel,
        );
    } else {
        let (first, rest) = (more.take(one.len() as int), more.skip(one.len() as int));
        let before = steps_are_told(
            text,
            table,
            store,
            draft,
            scope,
            steps,
            steps.len(),
            named,
            locals,
            first,
            None,
            fuel,
        );
        a_term_is_told(
            text,
            table,
            store,
            mid,
            names,
            clause.body,
            before,
            locals + first,
            rest,
            last,
            fuel,
        );
        assert((locals + first) + rest =~= locals + more);
    }
}

proof fn one_clause_is_for_values(
    text: Text,
    clauses: Seq<ClauseForm>,
    values: Seq<Value>,
    one: int,
    other: int,
)
    requires
        text.is_for(clauses, values, one),
        text.is_for(clauses, values, other),
    ensures
        one == other,
{
    if one < other {
        assert(!text.names_them(clauses[one], values) || !text.names_them(clauses[other], values));
    }
    if other < one {
        assert(!text.names_them(clauses[one], values) || !text.names_them(clauses[other], values));
    }
}

proof fn the_first_names_it(
    world: WorldForm,
    clauses: Seq<ClauseForm>,
    matched: int,
    wanted: Seq<char>,
    from: int,
)
    requires
        0 <= from <= clauses.len(),
    ensures
        ({
            let at = parse::naming(world, clauses, matched, wanted, from);
            &&& from <= at <= clauses.len()
            &&& at < clauses.len() ==> parse::names_it(world, clauses[at].patterns[matched], wanted)
            &&& forall|i: int|
                from <= i < at ==> !parse::names_it(
                    world,
                    (#[trigger] clauses[i]).patterns[matched],
                    wanted,
                )
        }),
    decreases clauses.len() - from,
{
    if from < clauses.len() && !parse::names_it(world, clauses[from].patterns[matched], wanted) {
        the_first_names_it(world, clauses, matched, wanted, from + 1);
    }
}

proof fn the_first_binds(world: WorldForm, clauses: Seq<ClauseForm>, matched: int, from: int)
    requires
        0 <= from <= clauses.len(),
    ensures
        ({
            let at = parse::binding(world, clauses, matched, from);
            &&& from <= at <= clauses.len()
            &&& at < clauses.len() ==> world.resolved(clauses[at].patterns[matched]) is Bind
            &&& forall|i: int|
                from <= i < at ==> !(world.resolved((#[trigger] clauses[i]).patterns[matched])
                    is Bind)
        }),
    decreases clauses.len() - from,
{
    if from < clauses.len() && !(world.resolved(clauses[from].patterns[matched]) is Bind) {
        the_first_binds(world, clauses, matched, from + 1);
    }
}

proof fn a_pattern_is_resolved(
    text: Text,
    table: TableForm,
    store: Store,
    program: Store,
    pattern: PatternForm,
)
    requires
        is_table(text, table, store),
        holds(store, program),
    ensures
        text.takes_apart(pattern) <==> table.world(program).resolved(pattern) is Ctor,
{
    match pattern {
        PatternForm::Bind(name) => a_constructor_is_known(text, table, store, program, name),
        _ => {},
    }
}

/// Where a clause takes one argument apart at most, what it is for goes by that
/// one.
proof fn a_clause_names_one(
    text: Text,
    table: TableForm,
    store: Store,
    program: Store,
    clause: ClauseForm,
    values: Seq<Value>,
    matched: int,
)
    requires
        is_table(text, table, store),
        holds(store, program),
        0 <= matched < clause.patterns.len(),
        super::agreement::takes_one_apart(
            table.world(program),
            clause.patterns,
            Some(matched),
            clause.patterns.len(),
        ),
    ensures
        text.names_them(clause, values) <==> parse::names_it(
            table.world(program),
            clause.patterns[matched],
            values[matched].name,
        ),
        text.takes_all(clause) <==> table.world(program).resolved(clause.patterns[matched])
            is Bind,
{
    let world = table.world(program);
    assert forall|i: int| 0 <= i < clause.patterns.len() && i != matched implies !text.takes_apart(
        #[trigger] clause.patterns[i],
    ) by {
        a_pattern_is_resolved(text, table, store, program, clause.patterns[i]);
    }
    a_pattern_is_resolved(text, table, store, program, clause.patterns[matched]);
    if parse::names_it(world, clause.patterns[matched], values[matched].name) {
        assert(text.takes_apart(clause.patterns[matched]));
        assert forall|i: int| 0 <= i < clause.patterns.len() implies text.suits(
            #[trigger] clause.patterns[i],
            values[i],
        ) by {
            if i != matched {
                assert(!text.takes_apart(clause.patterns[i]));
            }
        }
    }
    if text.names_them(clause, values) {
        assert(text.suits(clause.patterns[matched], values[matched]));
    }
}

proof fn what_is_revealed_is_named(
    store: Store,
    named: Named,
    scope: Seq<BoundForm>,
    locals: Seq<Tree>,
    names: Seq<Seq<char>>,
    fields: Seq<Atom>,
    values: Seq<Value>,
)
    requires
        agrees(store, named, scope, locals),
        names.len() <= fields.len(),
        forall|i: int|
            0 <= i < fields.len() ==> (#[trigger] fields[i]).0.0 < locals.len() && values[i]
                == said(store, locals[fields[i].0.0 as int]),
    ensures
        agrees(
            store,
            with_names(named, names, values),
            scope + parse::revealed(names, fields),
            locals,
        ),
    decreases names.len(),
{
    let all = scope + parse::revealed(names, fields);
    if names.len() == 0 {
        assert(all =~= scope);
    } else {
        let fewer = names.drop_last();
        what_is_revealed_is_named(store, named, scope, locals, fewer, fields, values);
        let atom = fields[names.len() - 1];
        let last = BoundForm { name: names.last(), atom };
        one_more_is_named(
            store,
            with_names(named, fewer, values),
            scope + parse::revealed(fewer, fields),
            locals,
            last,
        );
        assert(all =~= (scope + parse::revealed(fewer, fields)).push(last));
    }
}

/// What patterns bind is what they name.
proof fn patterns_are_told(
    text: Text,
    table: TableForm,
    store: Store,
    program: Store,
    patterns: Seq<PatternForm>,
    args: Seq<Atom>,
    fields: Seq<Atom>,
    matched: Option<int>,
    values: Seq<Value>,
    locals: Seq<Tree>,
    count: nat,
)
    requires
        is_table(text, table, store),
        holds(store, program),
        count <= patterns.len(),
        patterns.len() <= args.len(),
        super::agreement::takes_one_apart(
            table.world(program),
            patterns,
            matched,
            patterns.len(),
        ),
        forall|i: int|
            0 <= i < args.len() ==> (#[trigger] args[i]).0.0 < locals.len() && values[i] == said(
                store,
                locals[args[i].0.0 as int],
            ),
        matched matches Some(m) ==> 0 <= m < patterns.len() && (table.world(program).resolved(
            patterns[m],
        ) matches PatternForm::Ctor(_, names) ==> names.len() <= fields.len() && forall|i: int|
            0 <= i < fields.len() ==> (#[trigger] fields[i]).0.0 < locals.len()
                && values[m].fields[i] == said(store, locals[fields[i].0.0 as int])),
    ensures
        agrees(
            store,
            text.naming(patterns.take(count as int), values),
            parse::arm_scope(table.world(program), patterns, args, fields, matched, count),
            locals,
        ),
    decreases count,
{
    let world = table.world(program);
    let list = patterns.take(count as int);
    let scope = parse::arm_scope(world, patterns, args, fields, matched, count);
    if count == 0 {
        assert forall|name: Seq<char>| #[trigger] is_named(
            store,
            text.naming(list, values),
            scope,
            locals,
            name,
        ) by {}
    } else {
        let fewer = (count - 1) as nat;
        patterns_are_told(
            text,
            table,
            store,
            program,
            patterns,
            args,
            fields,
            matched,
            values,
            locals,
            fewer,
        );
        assert(list.drop_last() =~= patterns.take(fewer as int));
        let pattern = patterns[fewer as int];
        assert(list.last() == pattern);
        let before = text.naming(list.drop_last(), values);
        let some = parse::arm_scope(world, patterns, args, fields, matched, fewer);
        match pattern {
            PatternForm::Bind(name) => {
                a_constructor_is_known(text, table, store, program, name);
                if text.ctors.contains(name) {
                    assert(world.resolved(pattern) == PatternForm::Ctor(name, seq![]));
                    if matched == Some(fewer as int) {
                        assert(some + parse::revealed(seq![], fields) =~= some);
                    }
                } else {
                    one_more_is_named(
                        store,
                        before,
                        some,
                        locals,
                        BoundForm { name, atom: args[fewer as int] },
                    );
                }
            },
            PatternForm::Ctor(_, names) => {
                assert(world.resolved(patterns[fewer as int]) is Ctor);
                assert(matched == Some(fewer as int));
                what_is_revealed_is_named(
                    store,
                    before,
                    some,
                    locals,
                    names,
                    fields,
                    values[fewer as int].fields,
                );
            },
        }
    }
}

/// An arm goes on from where it was begun.
proof fn an_arm_goes_on(
    table: TableForm,
    outer: Draft,
    clauses: Seq<ClauseForm>,
    args: Seq<Atom>,
    matched: int,
    ctor: CtorId,
)
    ensures
        table.arm_built(outer, clauses, args, matched, ctor) matches Ok((after, _)) ==> {
            &&& after.program.grows(outer.program)
            &&& after.pending == outer.pending
            &&& after.level == outer.level
        },
{
    if let Ok((after, _)) = table.arm_built(outer, clauses, args, matched, ctor) {
        let world = table.world(outer.program);
        let wanted = outer.program.name(outer.program.ctor(ctor).name);
        let count = outer.program.ctor(ctor).fields.len as nat;
        let at = parse::covering(world, clauses, matched, wanted);
        let scope = parse::arm_scope(
            world,
            clauses[at].patterns,
            args,
            outer.binders(count),
            Some(matched),
            clauses[at].patterns.len(),
        );
        a_clause_goes_on(table, outer.inside(count), scope, clauses[at]);
        let (inner, result) = table.clause_built(outer.inside(count), scope, clauses[at])->Ok_0;
        closing_grows(inner, result);
        builder::growth_chains(outer.program, inner.program, after.program);
    }
}

/// Each arm is what was built for its constructor.
proof fn arms_go_on(
    table: TableForm,
    outer: Draft,
    clauses: Seq<ClauseForm>,
    args: Seq<Atom>,
    matched: int,
    owner: TypeId,
    count: nat,
    k: int,
) -> (begun: Draft)
    requires
        table.arms_built(outer, clauses, args, matched, owner, count) is Ok,
        0 <= k < count,
    ensures
        ({
            let (after, arms) = table.arms_built(
                outer,
                clauses,
                args,
                matched,
                owner,
                count,
            )->Ok_0;
            let ctor = begun.program.ctor_at(owner, k as nat);
            &&& arms.len() == count
            &&& after.program.grows(outer.program)
            &&& after.pending == outer.pending
            &&& after.level == outer.level
            &&& begun.program.grows(outer.program)
            &&& begun.pending == outer.pending
            &&& begun.level == outer.level
            &&& table.arm_built(begun, clauses, args, matched, ctor) matches Ok((then, arm))
                && arm == arms[k] && after.program.grows(then.program)
        }),
    decreases count,
{
    let fewer = (count - 1) as nat;
    let (mid, some) = table.arms_built(outer, clauses, args, matched, owner, fewer)->Ok_0;
    let ctor = mid.program.ctor_at(owner, fewer);
    let (after, arm) = table.arm_built(mid, clauses, args, matched, ctor)->Ok_0;
    an_arm_goes_on(table, mid, clauses, args, matched, ctor);
    arms_are_as_many(table, outer, clauses, args, matched, owner, fewer);
    builder::growth_chains(outer.program, mid.program, after.program);
    if k < fewer {
        let begun = arms_go_on(table, outer, clauses, args, matched, owner, fewer, k);
        let then = table.arm_built(
            begun,
            clauses,
            args,
            matched,
            begun.program.ctor_at(owner, k as nat),
        )->Ok_0.0;
        builder::growth_chains(then.program, mid.program, after.program);
        begun
    } else {
        mid
    }
}

proof fn arms_are_as_many(
    table: TableForm,
    outer: Draft,
    clauses: Seq<ClauseForm>,
    args: Seq<Atom>,
    matched: int,
    owner: TypeId,
    count: nat,
)
    ensures
        table.arms_built(outer, clauses, args, matched, owner, count) matches Ok((after, arms))
            ==> {
            &&& arms.len() == count
            &&& after.program.grows(outer.program)
            &&& after.pending == outer.pending
            &&& after.level == outer.level
        },
    decreases count,
{
    if count > 0 {
        let fewer = (count - 1) as nat;
        arms_are_as_many(table, outer, clauses, args, matched, owner, fewer);
        if let Ok((mid, _)) = table.arms_built(outer, clauses, args, matched, owner, fewer) {
            let ctor = mid.program.ctor_at(owner, fewer);
            an_arm_goes_on(table, mid, clauses, args, matched, ctor);
            if let Ok((after, _)) = table.arm_built(mid, clauses, args, matched, ctor) {
                builder::growth_chains(outer.program, mid.program, after.program);
            }
        }
    }
}

proof fn clauses_go_on(
    table: TableForm,
    draft: Draft,
    clauses: Seq<ClauseForm>,
    args: Seq<Atom>,
    types: Seq<TypeId>,
    matched: Option<int>,
)
    ensures
        table.clauses_built(draft, clauses, args, types, matched) matches Ok((after, _))
            ==> goes_on(draft, after),
{
    match matched {
        None => {
            let scope = parse::arm_scope(
                table.world(draft.program),
                clauses[0].patterns,
                args,
                seq![],
                None,
                clauses[0].patterns.len(),
            );
            a_clause_goes_on(table, draft, scope, clauses[0]);
        },
        Some(at) => {
            let owner = types[at];
            let count = draft.program.type_(owner).ctors.len as nat;
            arms_are_as_many(table, draft, clauses, args, at, owner, count);
            if let Ok((mid, arms)) = table.arms_built(draft, clauses, args, at, owner, count) {
                let after = mid.matching(args[at], arms);
                assert(after.program.grows(mid.program));
                builder::growth_chains(draft.program, mid.program, after.program);
            }
        },
    }
}

proof fn a_function_is_told(
    text: Text,
    table: TableForm,
    store: Store,
    at: int,
    args: Seq<Tree>,
    fuel: nat,
    outcome: Outcome,
)
    requires
        is_table(text, table, store),
        0 <= at < text.functions.len(),
        are_of(store, args, store.params(FnId(at as u32))),
        store.meaning(store.functions[at].body, args, fuel) == Some(outcome),
    ensures
        text.function_comes(text.functions[at].clauses, all_said(store, args), fuel) == Some(
            outcome_said(store, outcome),
        ),
    decreases fuel, 5nat, 0nat,
{
    let id = FnId(at as u32);
    let clauses = text.functions[at].clauses;
    assert(is_built(text, table, store, at));
    let before = choose|before: Store| #[trigger] is_built_from(table, store, before, at, clauses);
    let world = table.world(before);
    let matched = parse::clauses_matched(world, clauses, clauses.len())->Ok_0;
    let arity = store.functions[at].params.len as nat;
    let start = Draft::opened(before, arity);
    let (draft, result) = table.clauses_built(
        start,
        clauses,
        before.parameters(id),
        before.params(id),
        matched,
    )->Ok_0;
    assert(store.function_fits(at));
    assert(args.len() == arity);
    let after = table.function_built(before, id, clauses)->Ok_0;
    let closed = draft.closed(result).0;
    closing_grows(draft, result);
    clauses_go_on(table, start, clauses, before.parameters(id), before.params(id), matched);
    assert(after.functions[at].body == draft.closed(result).1);
    assert(holds(store, closed));
    builder::growth_chains(before, draft.program, closed);
    holding_goes_back(store, closed, before);
    super::agreement::clauses_take_one_apart(world, clauses, clauses.len());
    super::agreement::a_matched_argument_is_one(world, clauses, clauses.len(), arity);
    let values = all_said(store, args);
    match matched {
        None => {
            a_plain_function_is_told(text, table, store, at, args, fuel, outcome, before);
            the_first_clause_is_for_values(text, table, store, before, clauses, values);
            assert(text.is_for(clauses, values, 0));
            let found = choose|found: int| text.is_for(clauses, values, found);
            one_clause_is_for_values(text, clauses, values, 0, found);
        },
        Some(m) => {
            let covering = a_match_is_told(text, table, store, at, args, fuel, outcome, before, m);
            let found = choose|found: int| text.is_for(clauses, values, found);
            one_clause_is_for_values(text, clauses, values, covering, found);
        },
    }
}

proof fn the_first_clause_is_for_values(
    text: Text,
    table: TableForm,
    store: Store,
    program: Store,
    clauses: Seq<ClauseForm>,
    values: Seq<Value>,
)
    requires
        is_table(text, table, store),
        holds(store, program),
        clauses.len() > 0,
        forall|c: int|
            0 <= c < clauses.len() ==> super::agreement::takes_one_apart(
                table.world(program),
                (#[trigger] clauses[c]).patterns,
                None,
                clauses[c].patterns.len(),
            ),
    ensures
        text.is_for(clauses, values, 0),
{
    assert forall|c: int| 0 <= c < clauses.len() implies text.takes_all(#[trigger] clauses[c])
        && !text.names_them(clauses[c], values) by {
        assert forall|i: int| 0 <= i < clauses[c].patterns.len() implies !text.takes_apart(
            #[trigger] clauses[c].patterns[i],
        ) by {
            a_pattern_is_resolved(text, table, store, program, clauses[c].patterns[i]);
        }
    }
}

/// A function that takes nothing apart comes to its first clause.
proof fn a_plain_function_is_told(
    text: Text,
    table: TableForm,
    store: Store,
    at: int,
    args: Seq<Tree>,
    fuel: nat,
    outcome: Outcome,
    before: Store,
)
    requires
        is_table(text, table, store),
        0 <= at < text.functions.len(),
        are_of(store, args, store.params(FnId(at as u32))),
        store.meaning(store.functions[at].body, args, fuel) == Some(outcome),
        is_built_from(table, store, before, at, text.functions[at].clauses),
        holds(store, before),
        parse::clauses_matched(
            table.world(before),
            text.functions[at].clauses,
            text.functions[at].clauses.len(),
        ) == Ok::<Option<int>, Seq<char>>(None),
    ensures
        text.clause_comes(
            text.functions[at].clauses[0],
            text.naming(text.functions[at].clauses[0].patterns, all_said(store, args)),
            fuel,
        ) == Some(outcome_said(store, outcome)),
    decreases fuel, 4nat, 0nat,
{
    let id = FnId(at as u32);
    let clauses = text.functions[at].clauses;
    let clause = clauses[0];
    assert(is_built(text, table, store, at));
    let world = table.world(before);
    let arity = store.functions[at].params.len as nat;
    let start = Draft::opened(before, arity);
    let params = before.parameters(id);
    let scope = parse::arm_scope(
        world,
        clause.patterns,
        params,
        seq![],
        None,
        clause.patterns.len(),
    );
    let (draft, result) = table.clause_built(start, scope, clause)->Ok_0;
    let after = table.function_built(before, id, clauses)->Ok_0;
    let closed = draft.closed(result).0;
    assert(store.function_fits(at));
    closing_grows(draft, result);
    a_clause_goes_on(table, start, scope, clause);
    assert(after.functions[at].body == draft.closed(result).1);
    assert(holds(store, closed));
    holding_goes_back(store, closed, draft.program);
    let types = store.params(id);
    assert(store.is_kept(id));
    assert(are_there(store, types));
    let (more, last) = a_scope_is_told(
        draft,
        result,
        store,
        types,
        store.functions[at].result,
        !store.works(id),
        args,
        fuel,
        outcome,
    );
    assert(fresh(start, draft) =~= draft.pending);
    let values = all_said(store, args);
    each_is_said(store, args);
    super::agreement::clauses_take_one_apart(world, clauses, clauses.len());
    assert(super::agreement::takes_one_apart(
        world,
        clauses[0].patterns,
        None,
        clauses[0].patterns.len(),
    ));
    patterns_are_told(
        text,
        table,
        store,
        before,
        clause.patterns,
        params,
        seq![],
        None,
        values,
        args,
        clause.patterns.len(),
    );
    assert(clause.patterns.take(clause.patterns.len() as int) =~= clause.patterns);
    let named = text.naming(clause.patterns, values);
    a_clause_is_told(
        text,
        table,
        store,
        start,
        scope,
        clause,
        named,
        args,
        more,
        last,
        fuel,
    );
}

/// A function that takes an argument apart comes to the clause for it.
#[verifier::rlimit(60)]
#[verifier::spinoff_prover]
proof fn a_match_is_told(
    text: Text,
    table: TableForm,
    store: Store,
    at: int,
    args: Seq<Tree>,
    fuel: nat,
    outcome: Outcome,
    before: Store,
    m: int,
) -> (covering: int)
    requires
        is_table(text, table, store),
        0 <= at < text.functions.len(),
        are_of(store, args, store.params(FnId(at as u32))),
        store.meaning(store.functions[at].body, args, fuel) == Some(outcome),
        is_built_from(table, store, before, at, text.functions[at].clauses),
        holds(store, before),
        parse::clauses_matched(
            table.world(before),
            text.functions[at].clauses,
            text.functions[at].clauses.len(),
        ) == Ok::<Option<int>, Seq<char>>(Some(m)),
        0 <= m < store.functions[at].params.len,
    ensures
        text.is_for(text.functions[at].clauses, all_said(store, args), covering),
        text.clause_comes(
            text.functions[at].clauses[covering],
            text.naming(text.functions[at].clauses[covering].patterns, all_said(store, args)),
            fuel,
        ) == Some(outcome_said(store, outcome)),
    decreases fuel, 4nat, 0nat,
{
    let id = FnId(at as u32);
    let clauses = text.functions[at].clauses;
    assert(is_built(text, table, store, at));
    let world = table.world(before);
    let arity = store.functions[at].params.len as nat;
    let start = Draft::opened(before, arity);
    let params = before.parameters(id);
    let types = store.params(id);
    let owner = types[m];
    let count = before.type_(owner).ctors.len as nat;
    let (mid, arms) = table.arms_built(start, clauses, params, m, owner, count)->Ok_0;
    let draft = mid.matching(params[m], arms);
    let result = mid.next();
    let after = table.function_built(before, id, clauses)->Ok_0;
    arms_are_as_many(table, start, clauses, params, m, owner, count);
    assert(store.function_fits(at));
    assert(draft.pending =~= seq![mid.program.next()]);
    assert(draft.answers_last(result));
    assert(draft.pending.drop_last() =~= seq![]);
    let body = mid.program.next();
    assert(draft.closed(result) == (draft.program, body));
    assert(store.functions[at].body == body);
    assert(holds(store, draft.program));
    let range = pool::Range::from(mid.program.arms.len(), arms.len());
    assert(draft.program.exprs[mid.program.exprs.len() as int] == Expr::Match(params[m], range));
    assert(store.expr(body) == Expr::Match(params[m], range));
    assert(range.read(store.arms) =~= arms) by {
        assert forall|i: int| 0 <= i < arms.len() implies range.read(store.arms)[i] == arms[i] by {
            let place = mid.program.arms.len() + i;
            assert(draft.program.arms[place] == arms[i]);
            assert(store.arms[place] == draft.program.arms[place]);
        }
    }
    assert(params[m].0.0 == m);
    let held = args[m];
    assert(store.is_kept(id));
    assert(are_there(store, types));
    assert(super::constant::typed(store, types[m], args[m]));
    meaning::a_match_finds_its_arm(store, arms, owner, held);
    let k = facts::arm_for(arms, held.ctor, 0);
    let arm = arms[k];
    let inside = args + held.fields;
    meaning::more_steps_tell_the_same(store, arm.body, inside, (fuel - 1) as nat, fuel);
    let kinds = types + store.fields(held.ctor);
    assert(store.has_type(arm.body, kinds, store.functions[at].result, !store.works(id)));
    let begun = arms_go_on(table, start, clauses, params, m, owner, count, k);
    let ctor = begun.program.ctor_at(owner, k as nat);
    assert(mid.program.types == store.types);
    assert(draft.program.grows(mid.program));
    holding_goes_back(store, draft.program, mid.program);
    let then = table.arm_built(begun, clauses, params, m, ctor)->Ok_0.0;
    holding_goes_back(store, mid.program, then.program);
    an_arm_goes_on(table, begun, clauses, params, m, ctor);
    holding_goes_back(store, then.program, begun.program);
    assert(ctor == held.ctor);
    an_arm_is_told(
        text,
        table,
        store,
        at,
        args,
        fuel,
        outcome,
        before,
        m,
        begun,
        ctor,
        kinds,
    )
}

/// An arm comes to the clause that was built for it.
#[verifier::rlimit(60)]
#[verifier::spinoff_prover]
proof fn an_arm_is_told(
    text: Text,
    table: TableForm,
    store: Store,
    at: int,
    args: Seq<Tree>,
    fuel: nat,
    outcome: Outcome,
    before: Store,
    m: int,
    outer: Draft,
    ctor: CtorId,
    kinds: Seq<TypeId>,
) -> (covering: int)
    requires
        is_table(text, table, store),
        0 <= at < text.functions.len(),
        0 <= m < store.functions[at].params.len,
        are_of(store, args, store.params(FnId(at as u32))),
        args.len() == store.functions[at].params.len,
        is_built_from(table, store, before, at, text.functions[at].clauses),
        holds(store, before),
        parse::clauses_matched(
            table.world(before),
            text.functions[at].clauses,
            text.functions[at].clauses.len(),
        ) == Ok::<Option<int>, Seq<char>>(Some(m)),
        outer.program.grows(before),
        holds(store, outer.program),
        outer.level == store.functions[at].params.len,
        ctor == args[m].ctor,
        ctor.0 < store.ctors.len(),
        kinds == store.params(FnId(at as u32)) + store.fields(ctor),
        are_of(store, args[m].fields, store.fields(ctor)),
        table.arm_built(
            outer,
            text.functions[at].clauses,
            before.parameters(FnId(at as u32)),
            m,
            ctor,
        ) is Ok,
        ({
            let (then, arm) = table.arm_built(
                outer,
                text.functions[at].clauses,
                before.parameters(FnId(at as u32)),
                m,
                ctor,
            )->Ok_0;
            &&& holds(store, then.program)
            &&& arm.body.0 < store.exprs.len()
            &&& store.has_type(
                arm.body,
                kinds,
                store.functions[at].result,
                !store.works(FnId(at as u32)),
            )
            &&& store.meaning(arm.body, args + args[m].fields, fuel) == Some(outcome)
        }),
    ensures
        text.is_for(text.functions[at].clauses, all_said(store, args), covering),
        text.clause_comes(
            text.functions[at].clauses[covering],
            text.naming(text.functions[at].clauses[covering].patterns, all_said(store, args)),
            fuel,
        ) == Some(outcome_said(store, outcome)),
    decreases fuel, 3nat, 0nat,
{
    let id = FnId(at as u32);
    let clauses = text.functions[at].clauses;
    let params = before.parameters(id);
    assert(is_built(text, table, store, at));
    let world = table.world(outer.program);
    let wanted = outer.program.name(outer.program.ctor(ctor).name);
    let count = outer.program.ctor(ctor).fields.len as nat;
    let covering = parse::covering(world, clauses, m, wanted);
    let clause = clauses[covering];
    let values = all_said(store, args);
    each_is_said(store, args);
    let inside = args + args[m].fields;
    each_is_said(store, args[m].fields);
    assert(values[m].name == wanted);
    assert(store.ctor_fits(ctor.0 as int));
    assert(args[m].fields.len() == count);
    the_first_names_it(world, clauses, m, wanted, 0);
    the_first_binds(world, clauses, m, 0);
    world_is_by_declaration(table, before, outer.program, clauses);
    super::agreement::clauses_take_one_apart(world, clauses, clauses.len());
    assert forall|c: int| 0 <= c < clauses.len() implies {
        &&& text.names_them(#[trigger] clauses[c], values) <==> parse::names_it(
            world,
            clauses[c].patterns[m],
            wanted,
        )
        &&& text.takes_all(clauses[c]) <==> world.resolved(clauses[c].patterns[m]) is Bind
    } by {
        a_clause_names_one(text, table, store, outer.program, clauses[c], values, m);
    }
    assert(text.is_for(clauses, values, covering));
    let fields = outer.binders(count);
    let scope = parse::arm_scope(
        world,
        clause.patterns,
        params,
        fields,
        Some(m),
        clause.patterns.len(),
    );
    let start = outer.inside(count);
    let (inner, result) = table.clause_built(start, scope, clause)->Ok_0;
    a_clause_goes_on(table, start, scope, clause);
    closing_grows(inner, result);
    let closed = inner.closed(result).0;
    holding_goes_back(store, closed, inner.program);
    assert(are_there(store, kinds)) by {
        assert(store.function_fits(at));
    }
    assert(are_of(store, inside, kinds)) by {
        assert forall|i: int| 0 <= i < inside.len() implies super::constant::typed(
            store,
            kinds[i],
            #[trigger] inside[i],
        ) by {
            if i < args.len() {
                assert(super::constant::typed(store, store.params(id)[i], args[i]));
            } else {
                let j = i - args.len();
                assert(super::constant::typed(store, store.fields(ctor)[j], args[m].fields[j]));
            }
        }
    }
    let (more, last) = a_scope_is_told(
        inner,
        result,
        store,
        kinds,
        store.functions[at].result,
        !store.works(id),
        inside,
        fuel,
        outcome,
    );
    assert(fresh(start, inner) =~= inner.pending);
    assert forall|i: int| 0 <= i < params.len() implies (#[trigger] params[i]).0.0 < inside.len()
        && values[i] == said(store, inside[params[i].0.0 as int]) by {
        assert(inside[i] == args[i]);
    }
    assert forall|i: int| 0 <= i < fields.len() implies (#[trigger] fields[i]).0.0 < inside.len()
        && values[m].fields[i] == said(store, inside[fields[i].0.0 as int]) by {
        assert(inside[args.len() + i] == args[m].fields[i]);
    }
    patterns_are_told(
        text,
        table,
        store,
        outer.program,
        clause.patterns,
        params,
        fields,
        Some(m),
        values,
        inside,
        clause.patterns.len(),
    );
    assert(clause.patterns.take(clause.patterns.len() as int) =~= clause.patterns);
    a_clause_is_told(
        text,
        table,
        store,
        start,
        scope,
        clause,
        text.naming(clause.patterns, values),
        inside,
        more,
        last,
        fuel,
    );
    covering
}

/// What a clause is matched on goes by what is declared.
proof fn world_is_by_declaration(
    table: TableForm,
    one: Store,
    other: Store,
    clauses: Seq<ClauseForm>,
)
    requires
        other.grows(one),
    ensures
        parse::clauses_matched(table.world(other), clauses, clauses.len())
            == parse::clauses_matched(table.world(one), clauses, clauses.len()),
{
    assert forall|name: Seq<char>| #[trigger] table.world(other).ctor(name) == table.world(
        one,
    ).ctor(name) by {
        naming_is_by_declaration(one, other, name, table.ctors);
    }
    matching_is_by_declaration(table, one, other, clauses, clauses.len());
}

proof fn naming_is_by_declaration(one: Store, other: Store, name: Seq<char>, count: nat)
    requires
        other.grows(one),
    ensures
        other.ctor_named(name, count) == one.ctor_named(name, count),
    decreases count,
{
    if count > 0 {
        naming_is_by_declaration(one, other, name, (count - 1) as nat);
    }
}

proof fn matching_is_by_declaration(
    table: TableForm,
    one: Store,
    other: Store,
    clauses: Seq<ClauseForm>,
    count: nat,
)
    requires
        forall|name: Seq<char>| #[trigger]
            table.world(other).ctor(name) == table.world(one).ctor(name),
    ensures
        parse::clauses_matched(table.world(other), clauses, count) == parse::clauses_matched(
            table.world(one),
            clauses,
            count,
        ),
    decreases count,
{
    if count > 0 {
        let fewer = (count - 1) as nat;
        matching_is_by_declaration(table, one, other, clauses, fewer);
        if let Ok(held) = parse::clauses_matched(table.world(one), clauses, fewer) {
            let patterns = clauses[count - 1].patterns;
            patterns_are_by_declaration(table, one, other, patterns, held, patterns.len());
        }
    }
}

proof fn patterns_are_by_declaration(
    table: TableForm,
    one: Store,
    other: Store,
    patterns: Seq<PatternForm>,
    already: Option<int>,
    count: nat,
)
    requires
        forall|name: Seq<char>| #[trigger]
            table.world(other).ctor(name) == table.world(one).ctor(name),
    ensures
        parse::patterns_matched(table.world(other), patterns, already, count)
            == parse::patterns_matched(table.world(one), patterns, already, count),
    decreases count,
{
    if count > 0 {
        patterns_are_by_declaration(table, one, other, patterns, already, (count - 1) as nat);
        let pattern = patterns[count - 1];
        assert(table.world(other).resolved(pattern) == table.world(one).resolved(pattern)) by {
            if let PatternForm::Bind(name) = pattern {
                assert(table.world(other).ctor(name) == table.world(one).ctor(name));
            }
        }
    }
}

/// Whether names stand for what they do, and no function is declared yet.
spec fn is_plain(store: Store) -> bool {
    store.names.fits() && store.functions.len() == 0
}

proof fn types_are_plain(store: Store, types: Seq<TypeForm>, count: nat)
    requires
        is_plain(store),
    ensures
        parse::types_declared(store, types, count) matches Ok(after) ==> is_plain(after),
    decreases count,
{
    if count > 0 {
        let fewer = (count - 1) as nat;
        types_are_plain(store, types, fewer);
        if let Ok(mid) = parse::types_declared(store, types, fewer) {
            let name = types[count - 1].name;
            if mid.room(parse::length(name) + 1) {
                pool::naming_keeps_names(mid.names, name);
            }
        }
    }
}

proof fn constructors_are_plain(
    store: Store,
    types: Seq<TypeForm>,
    id: TypeId,
    ctors: Seq<CtorForm>,
    count: nat,
)
    requires
        is_plain(store),
    ensures
        parse::ctors_declared(store, types, id, ctors, count) matches Ok(after) ==> is_plain(after),
    decreases count,
{
    if count > 0 {
        let fewer = (count - 1) as nat;
        constructors_are_plain(store, types, id, ctors, fewer);
        if let Ok(mid) = parse::ctors_declared(store, types, id, ctors, fewer) {
            let ctor = ctors[count - 1];
            if let Ok(fields) = parse::fields_found(types, ctor.fields, ctor.fields.len()) {
                if mid.room(parse::length(ctor.name) + fields.len() + 1) {
                    pool::naming_keeps_names(mid.names, ctor.name);
                }
            }
        }
    }
}

proof fn definitions_are_plain(store: Store, types: Seq<TypeForm>, count: nat)
    requires
        is_plain(store),
    ensures
        parse::types_defined(store, types, count) matches Ok(after) ==> is_plain(after),
    decreases count,
{
    if count > 0 {
        let fewer = (count - 1) as nat;
        definitions_are_plain(store, types, fewer);
        if let Ok(mid) = parse::types_defined(store, types, fewer) {
            let held = types[count - 1];
            let id = parse::type_named(types, held.name, types.len())->Some_0;
            constructors_are_plain(mid, types, id, held.ctors, held.ctors.len());
        }
    }
}

proof fn a_declared_program_is_plain(types: Seq<TypeForm>)
    ensures
        parse::declared(types) matches Ok(after) ==> is_plain(after),
{
    let nothing = Store::nothing();
    assert(nothing.names.fits()) by {
        vstd::utf8::encode_utf8_valid_utf8(seq![]);
        reveal_with_fuel(vstd::utf8::encode_utf8, 1);
        assert(vstd::utf8::encode_utf8(seq![]) =~= seq![]);
    }
    types_are_plain(nothing, types, types.len());
    if let Ok(store) = parse::types_declared(nothing, types, types.len()) {
        definitions_are_plain(store, types, types.len());
    }
}

proof fn a_token_is_plain(store: Store, name: Seq<char>)
    requires
        is_plain(store),
    ensures
        parse::with_token(store, name) matches Ok(after) ==> is_plain(after),
{
    if parse::with_token(store, name) is Ok {
        let id = TypeId(store.types.len() as u32);
        let reserved = store.with_type(name).with_ctors_next(id);
        pool::naming_keeps_names(store.names, name);
        pool::naming_keeps_names(reserved.names, name);
    }
}

/// The first `count` functions are declared by their names, with as many
/// parameters as they take, and not defined.
spec fn are_declared(store: Store, scheme: SchemeForm, count: nat) -> bool {
    &&& store.names.fits()
    &&& store.functions.len() == count
    &&& forall|i: int|
        0 <= i < count ==> {
            let function = #[trigger] store.functions[i];
            &&& function.name.0 < store.names.len()
            &&& store.name(function.name) == scheme.names[i]
            &&& function.params.len == scheme.arity[i]
            &&& !function.defined
        }
}

proof fn functions_are_declared(store: Store, scheme: SchemeForm, slots: Slots, count: nat)
    requires
        is_plain(store),
        count <= scheme.names.len(),
    ensures
        parse::functions_declared(store, scheme, slots, count) matches Ok(after) ==> are_declared(
            after,
            scheme,
            count,
        ),
    decreases count,
{
    if count > 0 {
        let fewer = (count - 1) as nat;
        let at = fewer as int;
        functions_are_declared(store, scheme, slots, fewer);
        if let Ok(mid) = parse::functions_declared(store, scheme, slots, fewer) {
            if parse::functions_declared(store, scheme, slots, count) is Ok {
                let name = scheme.names[at];
                let after = parse::functions_declared(store, scheme, slots, count)->Ok_0;
                pool::naming_keeps_names(mid.names, name);
                assert forall|i: int| 0 <= i < count implies {
                    let function = #[trigger] after.functions[i];
                    &&& function.name.0 < after.names.len()
                    &&& after.name(function.name) == scheme.names[i]
                    &&& function.params.len == scheme.arity[i]
                    &&& !function.defined
                } by {
                    if i < fewer {
                        assert(after.functions[i] == mid.functions[i]);
                        let symbol = mid.functions[i].name.0 as int;
                        assert(after.names.bytes(symbol) == mid.names.bytes(symbol));
                    }
                }
            }
        }
    }
}

proof fn holding_chains(first: Store, second: Store, third: Store)
    requires
        holds(second, first),
        holds(third, second),
    ensures
        holds(third, first),
{
    assert forall|i: int| 0 <= i < first.exprs.len() implies first.exprs[i] == third.exprs[i] by {
        assert(first.exprs[i] == second.exprs[i]);
    }
    assert forall|i: int| 0 <= i < first.atoms.len() implies first.atoms[i] == third.atoms[i] by {
        assert(first.atoms[i] == second.atoms[i]);
    }
    assert forall|i: int| 0 <= i < first.arms.len() implies first.arms[i] == third.arms[i] by {
        assert(first.arms[i] == second.arms[i]);
    }
}

/// Compiling a function changes that one, and adds terms.
proof fn a_function_goes_on(
    table: TableForm,
    store: Store,
    id: FnId,
    clauses: Seq<ClauseForm>,
)
    requires
        id.0 < store.functions.len(),
    ensures
        table.function_built(store, id, clauses) matches Ok(after) ==> {
            &&& holds(after, store)
            &&& after.functions.len() == store.functions.len()
            &&& after.functions[id.0 as int].name == store.functions[id.0 as int].name
            &&& after.functions[id.0 as int].params == store.functions[id.0 as int].params
            &&& after.functions[id.0 as int].defined
            &&& forall|i: int|
                0 <= i < store.functions.len() && i != id.0 ==> #[trigger] after.functions[i]
                    == store.functions[i]
        },
{
    if table.function_built(store, id, clauses) is Ok {
        let matched = parse::clauses_matched(
            table.world(store),
            clauses,
            clauses.len(),
        )->Ok_0;
        let start = Draft::opened(store, store.function(id).params.len as nat);
        clauses_go_on(table, start, clauses, store.parameters(id), store.params(id), matched);
        let (draft, result) = table.clauses_built(
            start,
            clauses,
            store.parameters(id),
            store.params(id),
            matched,
        )->Ok_0;
        closing_grows(draft, result);
        builder::growth_chains(store, draft.program, draft.closed(result).0);
    }
}

/// The first `count` functions are what was built of them, and the rest are as
/// they were.
spec fn are_built(
    table: TableForm,
    start: Store,
    functions: Seq<FunctionForm>,
    count: nat,
    done: Store,
) -> bool {
    &&& holds(done, start)
    &&& done.functions.len() == start.functions.len()
    &&& forall|i: int|
        0 <= i < done.functions.len() ==> {
            &&& (#[trigger] done.functions[i]).name == start.functions[i].name
            &&& done.functions[i].params == start.functions[i].params
        }
    &&& forall|i: int|
        count <= i < done.functions.len() ==> #[trigger] done.functions[i] == start.functions[i]
    &&& forall|i: int|
        0 <= i < count ==> (#[trigger] done.functions[i]).defined && is_built_somehow(
            table,
            done,
            i,
            functions[i].clauses,
        )
}

spec fn is_built_somehow(
    table: TableForm,
    store: Store,
    at: int,
    clauses: Seq<ClauseForm>,
) -> bool {
    exists|before: Store| #[trigger] is_built_from(table, store, before, at, clauses)
}

proof fn functions_are_built(
    table: TableForm,
    start: Store,
    functions: Seq<FunctionForm>,
    count: nat,
)
    requires
        count <= functions.len() <= start.functions.len() <= u32::MAX,
    ensures
        table.functions_built(start, functions, count) matches Ok(done) ==> are_built(
            table,
            start,
            functions,
            count,
            done,
        ),
    decreases count,
{
    if count > 0 {
        let fewer = (count - 1) as nat;
        functions_are_built(table, start, functions, fewer);
        if let Ok(mid) = table.functions_built(start, functions, fewer) {
            let id = FnId(fewer as u32);
            let clauses = functions[fewer as int].clauses;
            a_function_goes_on(table, mid, id, clauses);
            if let Ok(done) = table.function_built(mid, id, clauses) {
                holding_chains(start, mid, done);
                assert forall|i: int| 0 <= i < count implies (
                #[trigger] done.functions[i]).defined && is_built_somehow(
                    table,
                    done,
                    i,
                    functions[i].clauses,
                ) by {
                    if i < fewer {
                        assert(done.functions[i] == mid.functions[i]);
                        assert(is_built_somehow(table, mid, i, functions[i].clauses));
                        let before = choose|before: Store| #[trigger]
                            is_built_from(table, mid, before, i, functions[i].clauses);
                        let after = table.function_built(
                            before,
                            FnId(i as u32),
                            functions[i].clauses,
                        )->Ok_0;
                        holding_chains(after, mid, done);
                        assert(is_built_from(table, done, before, i, functions[i].clauses));
                    } else {
                        assert(holds(done, done));
                        assert(is_built_from(table, done, mid, i, clauses));
                    }
                }
                assert forall|i: int| 0 <= i < done.functions.len() implies {
                    &&& (#[trigger] done.functions[i]).name == start.functions[i].name
                    &&& done.functions[i].params == start.functions[i].params
                } by {
                    assert(mid.functions[i].name == start.functions[i].name);
                }
                assert forall|i: int| count <= i < done.functions.len() implies
                    #[trigger] done.functions[i] == start.functions[i] by {
                    assert(mid.functions[i] == start.functions[i]);
                }
            }
        }
    }
}

proof fn functions_are_laid_out(functions: Seq<FunctionForm>, count: nat)
    requires
        count <= functions.len(),
    ensures
        infer::layout(functions, count) matches Ok((scheme, _)) ==> {
            &&& scheme.names.len() == count
            &&& scheme.arity.len() == count
            &&& forall|i: int|
                0 <= i < count ==> {
                    &&& #[trigger] scheme.names[i] == functions[i].name
                    &&& scheme.arity[i] == functions[i].clauses[0].patterns.len()
                    &&& infer::is_steady(functions[i])
                }
        },
    decreases count,
{
    if count > 0 {
        functions_are_laid_out(functions, (count - 1) as nat);
    }
}

/// The text of a source: its functions, and the names of the constructors that
/// its program knows.
pub open spec fn text_of(source: SourceForm, store: Store) -> Text {
    let ctors = parse::declared(source.types)->Ok_0.ctors.len();
    Text {
        functions: source.functions,
        ctors: Set::new(|name: Seq<char>| is_known(store, ctors, name)),
    }
}

proof fn a_worked_out_program_is_a_table(
    source: SourceForm,
    base: Store,
    ctors: nat,
    scheme: SchemeForm,
    slots: Slots,
    store: Store,
)
    requires
        source.is_written(),
        is_plain(base),
        store.wf(),
        store.typed(),
        parse::worked_out(source, base, ctors, scheme, slots) == Ok::<_, Seq<char>>(store),
        source.functions.len() <= scheme.names.len() <= u32::MAX,
        ctors <= store.ctors.len(),
        ctors == parse::declared(source.types)->Ok_0.ctors.len(),
        forall|i: int|
            0 <= i < source.functions.len() ==> {
                &&& #[trigger] scheme.names[i] == source.functions[i].name
                &&& scheme.arity[i] == source.functions[i].clauses[0].patterns.len()
                &&& infer::is_steady(source.functions[i])
            },
    ensures
        is_table(text_of(source, store), (TableForm { ctors, scheme }), store),
{
    let text = text_of(source, store);
    let table = TableForm { ctors, scheme };
    let world = WorldForm { store: base, ctors, scheme };
    let functions = source.functions;
    let full = world.functions_told(slots, functions, functions.len())->Ok_0;
    functions_are_declared(base, scheme, full, scheme.names.len());
    let declared = parse::functions_declared(base, scheme, full, scheme.names.len())->Ok_0;
    let start = parse::with_main(declared, scheme);
    functions_are_built(table, start, functions, functions.len());
    assert(are_built(table, start, functions, functions.len(), store));
    assert forall|i: int| 0 <= i < functions.len() implies #[trigger] is_built(
        text,
        table,
        store,
        i,
    ) by {
        assert(store.functions[i].params == start.functions[i].params);
        assert(start.functions[i] == declared.functions[i]);
        assert(scheme.names[i] == functions[i].name);
        assert(is_built_somehow(table, store, i, functions[i].clauses));
    }
    assert forall|i: int| 0 <= i < store.functions.len() implies store.name(
        (#[trigger] store.functions[i]).name,
    ) == scheme.names[i] by {
        assert(start.functions[i] == declared.functions[i]);
    }
    assert forall|i: int| functions.len() <= i < store.functions.len() implies !(
    #[trigger] store.functions[i]).defined by {
        assert(start.functions[i] == declared.functions[i]);
    }
}

/// A program means what its source says. Whatever a function comes to, handed
/// values of the types it takes, its clauses come to: the same value, or the
/// same thing asked for with the same values, where each name stands for what
/// its clause gave it to.
pub proof fn a_program_means_what_its_source_says(
    source: SourceForm,
    store: Store,
    at: int,
    args: Seq<Tree>,
    fuel: nat,
    outcome: Outcome,
)
    requires
        source.is_written(),
        parse::built(source) == Ok::<_, Seq<char>>(store),
        store.wf(),
        store.typed(),
        0 <= at < source.functions.len(),
        are_of(store, args, store.params(FnId(at as u32))),
        store.meaning(store.functions[at].body, args, fuel) == Some(outcome),
    ensures
        text_of(source, store).function_comes(
            source.functions[at].clauses,
            all_said(store, args),
            fuel,
        ) == Some(outcome_said(store, outcome)),
{
    let table = a_built_program_is_a_table(source, store);
    a_function_is_told(text_of(source, store), table, store, at, args, fuel, outcome);
}

/// Whether whatever a function of a program comes to, its clauses come to.
pub open spec fn is_told_by(source: SourceForm, store: Store) -> bool {
    forall|at: int, args: Seq<Tree>, fuel: nat|
        0 <= at < source.functions.len() && are_of(store, args, store.params(FnId(at as u32)))
            && (#[trigger] store.meaning(store.functions[at].body, args, fuel)) is Some
            ==> text_of(source, store).function_comes(
            source.functions[at].clauses,
            all_said(store, args),
            fuel,
        ) == Some(
            outcome_said(store, store.meaning(store.functions[at].body, args, fuel)->Some_0),
        )
}

/// What is built of a source is told by it.
pub proof fn what_is_built_is_told(source: SourceForm, store: Store)
    requires
        source.is_written(),
        parse::built(source) == Ok::<_, Seq<char>>(store),
        store.wf(),
        store.typed(),
    ensures
        is_told_by(source, store),
{
    assert forall|at: int, args: Seq<Tree>, fuel: nat|
        0 <= at < source.functions.len() && are_of(store, args, store.params(FnId(at as u32)))
            && (#[trigger] store.meaning(store.functions[at].body, args, fuel)) is Some implies
        text_of(source, store).function_comes(
        source.functions[at].clauses,
        all_said(store, args),
        fuel,
    ) == Some(
        outcome_said(store, store.meaning(store.functions[at].body, args, fuel)->Some_0),
    ) by {
        let outcome = store.meaning(store.functions[at].body, args, fuel)->Some_0;
        a_program_means_what_its_source_says(source, store, at, args, fuel, outcome);
    }
}

proof fn a_built_program_is_a_table(source: SourceForm, store: Store) -> (table: TableForm)
    requires
        source.is_written(),
        parse::built(source) == Ok::<_, Seq<char>>(store),
        store.wf(),
        store.typed(),
    ensures
        is_table(text_of(source, store), table, store),
{
    let functions = source.functions;
    let (scheme, slots) = infer::layout(functions, functions.len())->Ok_0;
    if parse::exits(source, scheme) {
        a_leaving_program_is_a_table(source, store)
    } else {
        a_closed_program_is_a_table(source, store)
    }
}

#[verifier::spinoff_prover]
proof fn a_closed_program_is_a_table(source: SourceForm, store: Store) -> (table: TableForm)
    requires
        source.is_written(),
        parse::declared(source.types) is Ok,
        infer::layout(source.functions, source.functions.len()) is Ok,
        ({
            let declared = parse::declared(source.types)->Ok_0;
            let (scheme, slots) = infer::layout(source.functions, source.functions.len())->Ok_0;
            parse::worked_out(source, declared, declared.ctors.len(), scheme, slots) == Ok::<
                _,
                Seq<char>,
            >(store)
        }),
        store.wf(),
        store.typed(),
    ensures
        is_table(text_of(source, store), table, store),
{
    let functions = source.functions;
    let declared = parse::declared(source.types)->Ok_0;
    let ctors = declared.ctors.len();
    a_declared_program_is_plain(source.types);
    functions_are_laid_out(functions, functions.len());
    let (scheme, slots) = infer::layout(functions, functions.len())->Ok_0;
    functions_are_few(source, declared, ctors, scheme, slots, store);
    a_worked_out_program_is_a_table(source, declared, ctors, scheme, slots, store);
    TableForm { ctors, scheme }
}

#[verifier::spinoff_prover]
proof fn a_leaving_program_is_a_table(source: SourceForm, store: Store) -> (table: TableForm)
    requires
        source.is_written(),
        parse::built(source) == Ok::<_, Seq<char>>(store),
        parse::exits(
            source,
            infer::layout(source.functions, source.functions.len())->Ok_0.0,
        ),
        store.wf(),
        store.typed(),
    ensures
        is_table(text_of(source, store), table, store),
{
    let functions = source.functions;
    let declared = parse::declared(source.types)->Ok_0;
    let ctors = declared.ctors.len();
    a_declared_program_is_plain(source.types);
    functions_are_laid_out(functions, functions.len());
    let (scheme, slots) = infer::layout(functions, functions.len())->Ok_0;
    let handed = parse::with_token(declared, "Host"@)->Ok_0;
    let both = parse::with_token(handed, "Nothing"@)->Ok_0;
    a_token_is_plain(declared, "Host"@);
    a_token_is_plain(handed, "Nothing"@);
    let wider = scheme.with("exit!"@, 2, slots.len() as int);
    let told = parse::exit_told(
        slots,
        TypeId(declared.types.len() as u32),
        TypeId(handed.types.len() as u32),
    );
    assert(parse::worked_out(source, both, ctors, wider, told) == Ok::<_, Seq<char>>(store));
    assert(both.ctors.len() == ctors + 2);
    functions_are_few(source, both, ctors, wider, told, store);
    assert forall|i: int| 0 <= i < functions.len() implies {
        &&& #[trigger] wider.names[i] == functions[i].name
        &&& wider.arity[i] == functions[i].clauses[0].patterns.len()
        &&& infer::is_steady(functions[i])
    } by {
        assert(wider.names[i] == scheme.names[i]);
        assert(wider.arity[i] == scheme.arity[i]);
    }
    a_worked_out_program_is_a_table(source, both, ctors, wider, told, store);
    TableForm { ctors, scheme: wider }
}

/// What is declared fits a pool, and constructors stay.
proof fn functions_are_few(
    source: SourceForm,
    base: Store,
    ctors: nat,
    scheme: SchemeForm,
    slots: Slots,
    store: Store,
)
    requires
        is_plain(base),
        parse::worked_out(source, base, ctors, scheme, slots) == Ok::<_, Seq<char>>(store),
        source.functions.len() <= scheme.names.len(),
    ensures
        scheme.names.len() <= u32::MAX,
        store.ctors == base.ctors,
{
    let world = WorldForm { store: base, ctors, scheme };
    let functions = source.functions;
    let full = world.functions_told(slots, functions, functions.len())->Ok_0;
    functions_are_declared(base, scheme, full, scheme.names.len());
    declaring_keeps_constructors(base, scheme, full, scheme.names.len());
    let declared = parse::functions_declared(base, scheme, full, scheme.names.len())->Ok_0;
    let start = parse::with_main(declared, scheme);
    functions_are_built(TableForm { ctors, scheme }, start, functions, functions.len());
}

proof fn declaring_keeps_constructors(base: Store, scheme: SchemeForm, slots: Slots, count: nat)
    requires
        is_plain(base),
        count <= scheme.names.len(),
    ensures
        parse::functions_declared(base, scheme, slots, count) matches Ok(after) ==> after.ctors
            == base.ctors && count <= u32::MAX,
    decreases count,
{
    if count > 0 {
        declaring_keeps_constructors(base, scheme, slots, (count - 1) as nat);
        functions_are_declared(base, scheme, slots, (count - 1) as nat);
    }
}

/// Whether a program has all that was declared in another.
spec fn keeps_declared(store: Store, declared: Store) -> bool {
    &&& store.names.fits()
    &&& store.names.holds(declared.names)
    &&& declared.ctors.is_prefix_of(store.ctors)
    &&& declared.types.is_prefix_of(store.types)
}

proof fn keeping_chains(first: Store, second: Store, third: Store)
    requires
        keeps_declared(second, first),
        keeps_declared(third, second),
    ensures
        keeps_declared(third, first),
{
    pool::holding_names_chains(first.names, second.names, third.names);
    assert forall|i: int| 0 <= i < first.ctors.len() implies first.ctors[i] == third.ctors[i] by {
        assert(first.ctors[i] == second.ctors[i]);
    }
    assert forall|i: int| 0 <= i < first.types.len() implies first.types[i] == third.types[i] by {
        assert(first.types[i] == second.types[i]);
    }
}

proof fn a_token_keeps_the_rest(store: Store, name: Seq<char>)
    requires
        is_plain(store),
    ensures
        parse::with_token(store, name) matches Ok(after) ==> keeps_declared(after, store),
{
    if parse::with_token(store, name) is Ok {
        let id = TypeId(store.types.len() as u32);
        let reserved = store.with_type(name).with_ctors_next(id);
        pool::naming_keeps_names(store.names, name);
        pool::naming_keeps_names(reserved.names, name);
        let after = parse::with_token(store, name)->Ok_0;
        assert forall|s: int| 0 <= s < store.names.symbols.len() implies
            #[trigger] after.names.bytes(s) == store.names.bytes(s) by {
            assert(reserved.names.bytes(s) == store.names.bytes(s));
        }
    }
}

proof fn declaring_keeps_the_rest(base: Store, scheme: SchemeForm, slots: Slots, count: nat)
    requires
        is_plain(base),
        count <= scheme.names.len(),
    ensures
        parse::functions_declared(base, scheme, slots, count) matches Ok(after) ==> keeps_declared(
            after,
            base,
        ),
    decreases count,
{
    if count > 0 {
        let fewer = (count - 1) as nat;
        declaring_keeps_the_rest(base, scheme, slots, fewer);
        functions_are_declared(base, scheme, slots, fewer);
        if parse::functions_declared(base, scheme, slots, count) is Ok {
            let mid = parse::functions_declared(base, scheme, slots, fewer)->Ok_0;
            let after = parse::functions_declared(base, scheme, slots, count)->Ok_0;
            pool::naming_keeps_names(mid.names, scheme.names[fewer as int]);
            assert(keeps_declared(after, mid));
            keeping_chains(base, mid, after);
        }
    }
}

proof fn working_out_keeps_the_rest(
    source: SourceForm,
    base: Store,
    ctors: nat,
    scheme: SchemeForm,
    slots: Slots,
    store: Store,
)
    requires
        is_plain(base),
        parse::worked_out(source, base, ctors, scheme, slots) == Ok::<_, Seq<char>>(store),
        source.functions.len() <= scheme.names.len(),
    ensures
        keeps_declared(store, base),
{
    let world = WorldForm { store: base, ctors, scheme };
    let functions = source.functions;
    let full = world.functions_told(slots, functions, functions.len())->Ok_0;
    functions_are_few(source, base, ctors, scheme, slots, store);
    functions_are_declared(base, scheme, full, scheme.names.len());
    declaring_keeps_the_rest(base, scheme, full, scheme.names.len());
    let declared = parse::functions_declared(base, scheme, full, scheme.names.len())->Ok_0;
    let start = parse::with_main(declared, scheme);
    functions_are_built(TableForm { ctors, scheme }, start, functions, functions.len());
    assert(holds(store, start));
}

proof fn building_keeps_the_rest(source: SourceForm, store: Store)
    requires
        parse::built(source) == Ok::<_, Seq<char>>(store),
    ensures
        keeps_declared(store, parse::declared(source.types)->Ok_0),
{
    let functions = source.functions;
    let declared = parse::declared(source.types)->Ok_0;
    let ctors = declared.ctors.len();
    a_declared_program_is_plain(source.types);
    functions_are_laid_out(functions, functions.len());
    let (scheme, slots) = infer::layout(functions, functions.len())->Ok_0;
    if parse::exits(source, scheme) {
        let handed = parse::with_token(declared, "Host"@)->Ok_0;
        let both = parse::with_token(handed, "Nothing"@)->Ok_0;
        a_token_is_plain(declared, "Host"@);
        a_token_is_plain(handed, "Nothing"@);
        a_token_keeps_the_rest(declared, "Host"@);
        a_token_keeps_the_rest(handed, "Nothing"@);
        keeping_chains(declared, handed, both);
        let wider = scheme.with("exit!"@, 2, slots.len() as int);
        let told = parse::exit_told(
            slots,
            TypeId(declared.types.len() as u32),
            TypeId(handed.types.len() as u32),
        );
        working_out_keeps_the_rest(source, both, ctors, wider, told, store);
        keeping_chains(declared, both, store);
    } else {
        working_out_keeps_the_rest(source, declared, ctors, scheme, slots, store);
    }
}

/// The names that a text takes for constructors are those that its types are
/// written with, where no type's name is written twice.
pub proof fn a_constructor_is_named_where_it_is_written(
    source: SourceForm,
    store: Store,
    name: Seq<char>,
)
    requires
        parse::built(source) == Ok::<_, Seq<char>>(store),
        super::declaring::are_told_apart(source.types),
    ensures
        text_of(source, store).ctors.contains(name) <==> super::declaring::is_written(
            source.types,
            name,
        ),
{
    let declared = parse::declared(source.types)->Ok_0;
    let count = declared.ctors.len();
    building_keeps_the_rest(source, store);
    super::declaring::what_is_declared_is_sound(source.types);
    super::declaring::what_is_known_is_what_was_written(source.types, declared, name);
    assert forall|i: int| 0 <= i < count implies (#[trigger] store.is_listed(CtorId(i as u32)) && store.name(
        store.ctors[i].name,
    ) == name <==> declared.is_listed(CtorId(i as u32)) && declared.name(declared.ctors[i].name)
        == name) by {
        let held = declared.ctors[i];
        assert(store.ctors[i] == held);
        assert(store.types[held.owner.0 as int] == declared.types[held.owner.0 as int]);
        assert(store.names.bytes(held.name.0 as int) == declared.names.bytes(held.name.0 as int));
    }
    if is_known(store, count, name) {
        let i = choose|i: int|
            0 <= i < count && #[trigger] store.is_listed(CtorId(i as u32)) && store.name(
                store.ctors[i].name,
            ) == name;
        assert(declared.is_listed(CtorId(i as u32)));
    }
    if is_known(declared, count, name) {
        let i = choose|i: int|
            0 <= i < count && #[trigger] declared.is_listed(CtorId(i as u32)) && declared.name(
                declared.ctors[i].name,
            ) == name;
        assert(store.is_listed(CtorId(i as u32)));
    }
}

} // verus!
