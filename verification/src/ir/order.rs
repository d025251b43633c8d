//! What a program has to be for every machine to take it one way.
//!
//! A value is defined once. A constant is one of its class. An operation
//! answers in the class of what it works on. What stands in a loop goes round
//! or leaves, rather than hand a value to whatever stands around the loop. The
//! entry takes nothing, and answers one word.

use super::machine;
use super::model::{Class, Exit, FunctionId, Op, Parts, Range, RegionId, ValueId};
use vstd::prelude::*;

verus! {

/// The values in a list.
pub open spec fn among(values: Seq<ValueId>) -> Set<ValueId> {
    Set::new(|v: ValueId| values.contains(v))
}

impl Parts {
    /// The values an instruction defines, and those the regions it holds do.
    pub open spec fn op_given(self, region: RegionId, at: int) -> Set<ValueId>
        decreases self.rank(region), 0nat, 0int,
    {
        let results = among(self.values(self.region_results(region)[at]));
        match self.region_ops(region)[at] {
            Op::If { then_region, else_region, .. } => if self.nests(region, then_region)
                && self.nests(region, else_region) {
                results.union(self.entered(then_region)).union(self.entered(else_region))
            } else {
                results
            },
            Op::Loop { body, .. } => if self.nests(region, body) {
                results.union(self.entered(body))
            } else {
                results
            },
            _ => results,
        }
    }

    /// The values a region's instructions define from `from` on.
    pub open spec fn given(self, region: RegionId, from: int) -> Set<ValueId>
        decreases self.rank(region), 1nat, self.region_ops(region).len() - from,
    {
        if from < 0 || from >= self.region_ops(region).len() {
            Set::empty()
        } else {
            self.op_given(region, from).union(self.given(region, from + 1))
        }
    }

    /// The values a region that is entered defines: what it takes, and what
    /// its instructions do.
    pub open spec fn entered(self, region: RegionId) -> Set<ValueId>
        decreases self.rank(region), 2nat, 0int,
    {
        among(self.values(self.region(region).params)).union(self.given(region, 0))
    }

    /// The values a function defines.
    pub open spec fn function_given(self, function: FunctionId) -> Set<ValueId> {
        among(self.values(self.function(function).params)).union(
            self.given(self.function(function).body, 0),
        )
    }

    /// Whether an instruction defines every value once, and so do the regions
    /// it holds.
    pub open spec fn op_is_single(self, region: RegionId, at: int) -> bool
        decreases self.rank(region), 0nat, 0int,
    {
        let results = self.values(self.region_results(region)[at]);
        &&& results.no_duplicates()
        &&& match self.region_ops(region)[at] {
            Op::If { then_region, else_region, .. } => {
                &&& self.nests(region, then_region)
                &&& self.nests(region, else_region)
                &&& among(results).disjoint(self.entered(then_region))
                &&& among(results).disjoint(self.entered(else_region))
                &&& self.entered(then_region).disjoint(self.entered(else_region))
                &&& self.inside_is_single(then_region)
                &&& self.inside_is_single(else_region)
            },
            Op::Loop { body, .. } => {
                &&& self.nests(region, body)
                &&& among(results).disjoint(self.entered(body))
                &&& self.inside_is_single(body)
            },
            _ => true,
        }
    }

    /// Whether a region's instructions do, from `from` on.
    pub open spec fn is_single(self, region: RegionId, from: int) -> bool
        decreases self.rank(region), 1nat, self.region_ops(region).len() - from,
    {
        if from < 0 || from >= self.region_ops(region).len() {
            true
        } else {
            &&& self.op_is_single(region, from)
            &&& self.op_given(region, from).disjoint(self.given(region, from + 1))
            &&& self.is_single(region, from + 1)
        }
    }

    /// Whether a region that is entered does.
    pub open spec fn inside_is_single(self, region: RegionId) -> bool
        decreases self.rank(region), 2nat, 0int,
    {
        let params = self.values(self.region(region).params);
        &&& params.no_duplicates()
        &&& among(params).disjoint(self.given(region, 0))
        &&& self.is_single(region, 0)
    }

    pub open spec fn function_is_single(self, function: FunctionId) -> bool {
        let params = self.values(self.function(function).params);
        let body = self.function(function).body;
        &&& params.no_duplicates()
        &&& among(params).disjoint(self.given(body, 0))
        &&& self.is_single(body, 0)
    }

    /// Whether an instruction is as it should be.
    pub open spec fn is_in_order(self, op: Op, results: Range) -> bool {
        match op {
            Op::Constant { class, value } => class matches Class::Fixed { bits } ==> (value as nat)
                < vstd::arithmetic::power2::pow2(bits as nat),
            Op::Binary { left, .. } => self.class(self.values(results)[0]) == self.class(left),
            Op::Loop { body, .. } => self.region(body).terminator.exit != Exit::Yield,
            _ => true,
        }
    }

    /// Whether no value is defined twice, each function and what it defines
    /// apart from the others'.
    pub open spec fn is_whole(self) -> bool {
        &&& forall|f: FunctionId|
            f.0 < self.functions.len() ==> #[trigger] self.function_is_single(f)
        &&& forall|f: FunctionId, g: FunctionId|
            f.0 < g.0 && g.0 < self.functions.len() ==> (#[trigger] self.function_given(
                f,
            )).disjoint(#[trigger] self.function_given(g))
    }

    /// Whether nothing calls a function.
    pub open spec fn is_uncalled(self, f: FunctionId) -> bool {
        forall|i: int|
            0 <= i < self.ops.len() ==> ((#[trigger] self.ops[i]) matches Op::Call { function, .. }
                ==> function != f)
    }

    /// Whether every function answers a word at most, and hands its body what
    /// it takes.
    pub open spec fn answers_plainly(self) -> bool {
        forall|f: FunctionId|
            f.0 < self.functions.len() ==> (#[trigger] self.function(f)).answers.len <= 1
                && self.region(self.function(f).body).params == self.function(f).params
    }

    /// Whether nothing is converted.
    pub open spec fn converts_nothing(self) -> bool {
        forall|i: int| 0 <= i < self.ops.len() ==> !((#[trigger] self.ops[i]) is Convert)
    }

    /// Whether a program is in order.
    pub open spec fn orderly(self) -> bool {
        &&& self.functions[0].params.len == 0
        &&& self.functions[0].answers.len == 1
        &&& self.is_whole()
        &&& forall|i: int|
            0 <= i < self.ops.len() ==> self.is_in_order(#[trigger] self.ops[i], self.results[i])
    }

    /// A region's instructions from `from` on, and how it ends.
    pub open spec fn rest_runs(
        self,
        host: machine::Host,
        region: RegionId,
        from: int,
        held: machine::Held,
        fuel: nat,
    ) -> Option<machine::Left>
        decreases self.region_ops(region).len() - from,
    {
        if from < 0 || from >= self.region_ops(region).len() {
            self.leaves(self.region(region).terminator, held)
        } else {
            match self.op_runs(
                host,
                self.region_ops(region)[from],
                self.values(self.region_results(region)[from]),
                held,
                fuel,
            ) {
                Some(machine::Step::Goes(next)) => self.rest_runs(
                    host,
                    region,
                    from + 1,
                    next,
                    fuel,
                ),
                Some(machine::Step::Leaves(left)) => Some(left),
                None => None,
            }
        }
    }
}

/// An instruction of a region is as it should be.
pub proof fn an_op_is_in_order(parts: Parts, region: RegionId, at: int)
    requires
        parts.wf(),
        parts.orderly(),
        region.0 < parts.regions.len(),
        0 <= at < parts.region_ops(region).len(),
    ensures
        parts.is_in_order(parts.region_ops(region)[at], parts.region_results(region)[at]),
        forall|f: FunctionId|
            #[trigger] parts.is_uncalled(f) ==> (parts.region_ops(region)[at] matches Op::Call {
                function,
                ..
            } ==> function != f),
{
    let whole = parts.region(region).ops.start + at;
    assert(parts.region_fits(parts.regions[region.0 as int]));
    assert(parts.is_in_order(parts.ops[whole], parts.results[whole]));
    assert(parts.region_ops(region)[at] == parts.ops[whole]);
}

/// A region runs from its first instruction on.
pub proof fn a_region_runs_from_its_start(
    parts: Parts,
    host: machine::Host,
    region: RegionId,
    held: machine::Held,
    fuel: nat,
)
    requires
        parts.region_ops(region).len() == parts.region_results(region).len(),
    ensures
        parts.region_runs(host, region, held, fuel) == parts.rest_runs(host, region, 0, held, fuel),
{
    let ops = parts.region_ops(region);
    some_have_run(parts, host, region, held, fuel, ops.len());
    assert(ops.take(ops.len() as int) =~= ops);
    assert(parts.region_results(region).take(ops.len() as int) =~= parts.region_results(region));
}

proof fn some_have_run(
    parts: Parts,
    host: machine::Host,
    region: RegionId,
    held: machine::Held,
    fuel: nat,
    count: nat,
)
    requires
        parts.region_ops(region).len() == parts.region_results(region).len(),
        count <= parts.region_ops(region).len(),
    ensures
        parts.rest_runs(host, region, 0, held, fuel) == match parts.ops_run(
            host,
            parts.region_ops(region).take(count as int),
            parts.region_results(region).take(count as int),
            held,
            fuel,
        ) {
            Some(machine::Step::Goes(next)) => parts.rest_runs(
                host,
                region,
                count as int,
                next,
                fuel,
            ),
            Some(machine::Step::Leaves(left)) => Some(left),
            None => None,
        },
    decreases count,
{
    let ops = parts.region_ops(region);
    let results = parts.region_results(region);
    if count > 0 {
        let fewer = (count - 1) as nat;
        some_have_run(parts, host, region, held, fuel, fewer);
        assert(ops.take(count as int).drop_last() =~= ops.take(fewer as int));
        assert(results.take(count as int).drop_last() =~= results.take(fewer as int));
        assert(ops.take(count as int).last() == ops[fewer as int]);
        assert(results.take(count as int).last() == results[fewer as int]);
    }
}

/// What defining values comes to, where each is named once.
pub proof fn what_is_defined(held: machine::Held, values: Seq<ValueId>, numbers: Seq<nat>)
    requires
        values.no_duplicates(),
        values.len() <= numbers.len(),
    ensures
        forall|v: ValueId|
            #[trigger] machine::defined(held, values, numbers).dom().contains(v) <==> held.dom().contains(
                v,
            ) || values.contains(v),
        forall|i: int|
            0 <= i < values.len() ==> machine::defined(held, values, numbers)[#[trigger] values[i]]
                == numbers[i],
        forall|v: ValueId|
            !values.contains(v) ==> #[trigger] machine::defined(held, values, numbers)[v]
                == held[v],
    decreases values.len(),
{
    if values.len() > 0 {
        let fewer = values.drop_last();
        what_is_defined(held, fewer, numbers);
        let before = machine::defined(held, fewer, numbers);
        let after = machine::defined(held, values, numbers);
        assert(after == before.insert(values.last(), numbers[values.len() - 1]));
        assert forall|v: ValueId| #[trigger] after.dom().contains(v) <==> held.dom().contains(v)
            || values.contains(v) by {
            if values.contains(v) && v != values.last() {
                let i = values.index_of(v);
                assert(fewer[i] == v);
            }
            if fewer.contains(v) {
                let i = fewer.index_of(v);
                assert(values[i] == v);
            }
            assert(values[values.len() - 1] == values.last());
        }
        assert forall|i: int| 0 <= i < values.len() implies after[#[trigger] values[i]]
            == numbers[i] by {
            if i < values.len() - 1 {
                assert(fewer[i] == values[i]);
                assert(values[i] != values[values.len() - 1]);
            }
        }
        assert forall|v: ValueId| !values.contains(v) implies #[trigger] after[v] == held[v] by {
            assert(values[values.len() - 1] == values.last());
            assert(v != values.last());
            if fewer.contains(v) {
                let i = fewer.index_of(v);
                assert(values[i] == v);
            }
        }
    }
}

} // verus!
