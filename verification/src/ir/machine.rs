//! What a program computes.
//!
//! The machine has words of as many values as it has, and counts round them. A
//! run is followed up to the first thing that is asked of the platform, for
//! what a routine does is the platform's to say; but writing answers nothing,
//! so a run may be followed past that. Nothing is said here of memory.

use super::model::{
    Binary, Class, DataId, Exit, FunctionId, Op, Parts, PlatformId, Range, RegionId, Relation,
    Terminator, ValueId,
};
use vstd::prelude::*;

verus! {

/// What each value that is defined holds.
pub type Held = Map<ValueId, nat>;

/// How a region is left.
#[verifier::ext_equal]
pub enum Left {
    Yields(Seq<nat>),
    Continues(Seq<nat>),
    Breaks(Seq<nat>),
    Answers(Seq<nat>),
    /// A routine of the platform is called with these.
    Asks(PlatformId, Seq<nat>),
}

/// What an instruction comes to.
#[verifier::ext_equal]
pub enum Step {
    Goes(Held),
    Leaves(Left),
}

/// Where a program runs.
pub struct Host {
    /// How many values a word has.
    pub size: nat,
    /// The address of each datum, where data have one.
    pub places: Map<DataId, nat>,
    /// Which of the things it asks to write a run is followed up to. It goes
    /// on past the others.
    pub watch: spec_fn(PlatformId, Seq<nat>) -> bool,
}

impl Host {
    /// Whether a run is followed up to whatever it asks for first.
    pub open spec fn waits(self) -> bool {
        forall|platform: PlatformId, numbers: Seq<nat>| #[trigger] (self.watch)(platform, numbers)
    }
}

/// How many values there are of a class.
pub open spec fn span(class: Class, size: nat) -> nat {
    match class {
        Class::Fixed { bits } => vstd::arithmetic::power2::pow2(bits as nat),
        _ => size,
    }
}

/// What values hold, where each is defined.
pub open spec fn read(held: Held, values: Seq<ValueId>) -> Option<Seq<nat>> {
    if forall|i: int| 0 <= i < values.len() ==> held.dom().contains(#[trigger] values[i]) {
        Some(Seq::new(values.len(), |i: int| held[values[i]]))
    } else {
        None
    }
}

/// With values defined, one for one.
pub open spec fn defined(held: Held, values: Seq<ValueId>, numbers: Seq<nat>) -> Held
    decreases values.len(),
{
    if values.len() == 0 {
        held
    } else {
        defined(held, values.drop_last(), numbers).insert(
            values.last(),
            numbers[values.len() - 1],
        )
    }
}

/// What an instruction comes to that defines `results`.
pub open spec fn gives(held: Held, results: Seq<ValueId>, numbers: Seq<nat>) -> Option<Step> {
    if results.len() == numbers.len() {
        Some(Step::Goes(defined(held, results, numbers)))
    } else {
        None
    }
}

impl Parts {
    /// What an operation on two values of a class makes of them.
    pub open spec fn computed(self, op: Binary, class: Class, left: nat, right: nat, size: nat) -> nat {
        match op {
            Binary::Add => (left + right) % span(class, size),
            Binary::Sub => ((left - right) % span(class, size) as int) as nat,
        }
    }

    /// Whether a routine is the one that writes.
    pub open spec fn is_write(self, platform: PlatformId) -> bool {
        self.name(self.routine(platform).name) == "write"@
    }

    /// One instruction, which defines `results`.
    pub open spec fn op_runs(
        self,
        host: Host,
        op: Op,
        results: Seq<ValueId>,
        held: Held,
        fuel: nat,
    ) -> Option<Step>
        decreases fuel, 0nat, 0nat,
    {
        match op {
            Op::Constant { class, value } => gives(
                held,
                results,
                seq![value as nat % span(class, host.size)],
            ),
            Op::Binary { op, left, right } => match read(held, seq![left, right]) {
                Some(both) => gives(
                    held,
                    results,
                    seq![self.computed(op, self.class(left), both[0], both[1], host.size)],
                ),
                None => None,
            },
            Op::Compare { relation, left, right } => match read(held, seq![left, right]) {
                Some(both) => {
                    let holds = match relation {
                        Relation::Equal => both[0] == both[1],
                        Relation::Less => both[0] < both[1],
                    };
                    gives(
                        held,
                        results,
                        seq![
                            if holds {
                                1nat
                            } else {
                                0nat
                            },
                        ],
                    )
                },
                None => None,
            },
            Op::Convert { class, value } => match read(held, seq![value]) {
                Some(one) => gives(held, results, seq![one[0] % span(class, host.size)]),
                None => None,
            },
            Op::AddressOf(data) => if host.places.dom().contains(data) {
                gives(held, results, seq![host.places[data]])
            } else {
                None
            },
            Op::PlatformCall { platform, args } => match read(held, self.values(args)) {
                Some(numbers) => if self.is_write(platform) && !(host.watch)(platform, numbers) {
                    gives(held, results, seq![])
                } else {
                    Some(Step::Leaves(Left::Asks(platform, numbers)))
                },
                None => None,
            },
            Op::Call { function, args } => match read(held, self.values(args)) {
                Some(numbers) => if fuel == 0 {
                    None
                } else {
                    match self.function_runs(host, function, numbers, (fuel - 1) as nat) {
                        Some(Left::Answers(answers)) => gives(held, results, answers),
                        Some(Left::Asks(platform, asked)) => Some(
                            Step::Leaves(Left::Asks(platform, asked)),
                        ),
                        _ => None,
                    }
                },
                None => None,
            },
            Op::If { condition, then_region, else_region } => match read(held, seq![condition]) {
                Some(one) => if fuel == 0 {
                    None
                } else {
                    let taken = if one[0] != 0 {
                        then_region
                    } else {
                        else_region
                    };
                    match self.region_runs(host, taken, held, (fuel - 1) as nat) {
                        Some(Left::Yields(numbers)) => gives(held, results, numbers),
                        Some(left) => Some(Step::Leaves(left)),
                        None => None,
                    }
                },
                None => None,
            },
            Op::Loop { initial, body } => match read(held, self.values(initial)) {
                Some(numbers) => if fuel == 0 {
                    None
                } else {
                    match self.loop_runs(host, body, held, numbers, (fuel - 1) as nat) {
                        Some(Left::Breaks(numbers)) => gives(held, results, numbers),
                        Some(left) => Some(Step::Leaves(left)),
                        None => None,
                    }
                },
                None => None,
            },
            _ => None,
        }
    }

    /// Instructions one after the other, each with what it defines, until one
    /// leaves.
    pub open spec fn ops_run(
        self,
        host: Host,
        ops: Seq<Op>,
        results: Seq<Range>,
        held: Held,
        fuel: nat,
    ) -> Option<Step>
        decreases fuel, 1nat, ops.len(),
    {
        if ops.len() == 0 {
            Some(Step::Goes(held))
        } else {
            match self.ops_run(host, ops.drop_last(), results.drop_last(), held, fuel) {
                Some(Step::Goes(held)) => self.op_runs(
                    host,
                    ops.last(),
                    self.values(results.last()),
                    held,
                    fuel,
                ),
                other => other,
            }
        }
    }

    /// How a region ends, once its instructions have run.
    pub open spec fn leaves(self, terminator: Terminator, held: Held) -> Option<Left> {
        match read(held, self.values(terminator.values)) {
            Some(numbers) => match terminator.exit {
                Exit::Yield => Some(Left::Yields(numbers)),
                Exit::Continue => Some(Left::Continues(numbers)),
                Exit::Break => Some(Left::Breaks(numbers)),
                Exit::Return => Some(Left::Answers(numbers)),
                Exit::Unreachable => None,
            },
            None => None,
        }
    }

    /// A region, where `held` is defined already.
    pub open spec fn region_runs(self, host: Host, region: RegionId, held: Held, fuel: nat) -> Option<
        Left,
    >
        decreases fuel, 2nat, 0nat,
    {
        match self.ops_run(
            host,
            self.region_ops(region),
            self.region_results(region),
            held,
            fuel,
        ) {
            Some(Step::Goes(held)) => self.leaves(self.region(region).terminator, held),
            Some(Step::Leaves(left)) => Some(left),
            None => None,
        }
    }

    /// A region again and again, each time with what it continued with.
    pub open spec fn loop_runs(
        self,
        host: Host,
        body: RegionId,
        held: Held,
        numbers: Seq<nat>,
        fuel: nat,
    ) -> Option<Left>
        decreases fuel, 3nat, 0nat,
    {
        let params = self.values(self.region(body).params);
        if params.len() != numbers.len() {
            None
        } else {
            match self.region_runs(host, body, defined(held, params, numbers), fuel) {
                Some(Left::Continues(numbers)) => if fuel == 0 {
                    None
                } else {
                    self.loop_runs(host, body, held, numbers, (fuel - 1) as nat)
                },
                other => other,
            }
        }
    }

    /// A function, handed `numbers`, if `fuel` steps are enough to tell.
    pub open spec fn function_runs(
        self,
        host: Host,
        function: FunctionId,
        numbers: Seq<nat>,
        fuel: nat,
    ) -> Option<Left>
        decreases fuel, 3nat, 0nat,
    {
        let params = self.values(self.function(function).params);
        if params.len() != numbers.len() {
            None
        } else {
            self.region_runs(
                host,
                self.function(function).body,
                defined(Map::empty(), params, numbers),
                fuel,
            )
        }
    }
}

} // verus!
