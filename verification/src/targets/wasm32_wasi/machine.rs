//! What straight code does, on the machine it is written for.
//!
//! A word is an `i32`, so everything here counts round 2^32. Only code that
//! neither branches, calls nor reaches into memory is said anything of.

use super::lower::{
    Emitted, Setting, Source, I32_ADD, I32_AND, I32_EQ, I32_LT_U, I32_SUB, LOCAL_GET, LOCAL_SET,
};
use super::{lower, module};
use crate::ir::{machine, model, Binary, Class, Op, Relation, ValueId};
use crate::targets::bytes;
use vstd::prelude::*;

verus! {

/// How many values a word has.
pub open spec fn size() -> nat {
    0x1_0000_0000
}

/// What a function has at hand: its operand stack, and its locals.
#[verifier::ext_equal]
pub struct State {
    pub stack: Seq<nat>,
    pub locals: Seq<nat>,
}

impl State {
    pub open spec fn push(self, word: nat) -> State {
        State { stack: self.stack.push(word), ..self }
    }

    /// Without what was pushed last.
    pub open spec fn pop(self) -> State {
        State { stack: self.stack.drop_last(), ..self }
    }

    /// With the two words pushed last made one.
    pub open spec fn join(self, word: nat) -> State {
        self.pop().pop().push(word)
    }

    /// With what was pushed last in a local.
    pub open spec fn set(self, local: int) -> State {
        State { locals: self.locals.update(local, self.stack.last()), ..self.pop() }
    }
}

/// What an instruction makes of two words.
pub open spec fn combined(opcode: u8, left: nat, right: nat) -> Option<nat> {
    if opcode == 0x6A {
        Some((left + right) % size())
    } else if opcode == 0x6B {
        Some(((left - right) % size() as int) as nat)
    } else if opcode == 0x46 {
        Some(
            if left == right {
                1
            } else {
                0
            },
        )
    } else if opcode == 0x49 {
        Some(
            if left < right {
                1
            } else {
                0
            },
        )
    } else if opcode == 0x71 {
        Some((left as u32 & right as u32) as nat)
    } else {
        None
    }
}

/// One instruction, and how many bytes it takes.
pub open spec fn step(code: Seq<u8>, state: State) -> Option<(State, nat)> {
    let rest = code.drop_first();
    let count = state.stack.len();
    if code.len() == 0 {
        None
    } else if code[0] == 0x20 {
        match bytes::read_unsigned(rest) {
            Some((local, taken)) => if local < state.locals.len() {
                Some((state.push(state.locals[local as int]), taken + 1))
            } else {
                None
            },
            None => None,
        }
    } else if code[0] == 0x21 {
        match bytes::read_unsigned(rest) {
            Some((local, taken)) => if local < state.locals.len() && count > 0 {
                Some((state.set(local as int), taken + 1))
            } else {
                None
            },
            None => None,
        }
    } else if code[0] == 0x41 {
        match bytes::read_signed(rest) {
            Some((value, taken)) => Some(
                (state.push((value % size() as int) as nat), taken + 1),
            ),
            None => None,
        }
    } else if count >= 2 {
        match combined(code[0], state.stack[count - 2], state.stack[count - 1]) {
            Some(word) => Some((state.join(word), 1)),
            None => None,
        }
    } else {
        None
    }
}

/// What code comes to.
pub open spec fn runs(code: Seq<u8>, state: State) -> Option<State>
    decreases code.len(),
{
    if code.len() == 0 {
        Some(state)
    } else {
        match step(code, state) {
            Some((next, taken)) => if 0 < taken <= code.len() {
                runs(code.skip(taken as int), next)
            } else {
                None
            },
            None => None,
        }
    }
}

/// A step, and what follows it.
proof fn a_step_runs(code: Seq<u8>, rest: Seq<u8>, state: State, next: State)
    requires
        code.len() > 0,
        step(code + rest, state) == Some((next, code.len())),
    ensures
        runs(code + rest, state) == runs(rest, next),
{
    assert((code + rest).skip(code.len() as int) =~= rest);
}

proof fn a_get_runs(local: u32, rest: Seq<u8>, state: State)
    requires
        local < state.locals.len(),
    ensures
        runs(lower::indexed(LOCAL_GET, local as nat) + rest, state) == runs(
            rest,
            state.push(state.locals[local as int]),
        ),
{
    let code = lower::indexed(LOCAL_GET, local as nat);
    bytes::unsigned_leb_reads_back(local as nat, rest);
    assert((code + rest).drop_first() =~= bytes::unsigned_leb(local as nat) + rest);
    a_step_runs(code, rest, state, state.push(state.locals[local as int]));
}

proof fn a_set_runs(local: u32, rest: Seq<u8>, state: State)
    requires
        local < state.locals.len(),
        state.stack.len() > 0,
    ensures
        runs(lower::indexed(LOCAL_SET, local as nat) + rest, state) == runs(
            rest,
            state.set(local as int),
        ),
{
    let code = lower::indexed(LOCAL_SET, local as nat);
    bytes::unsigned_leb_reads_back(local as nat, rest);
    assert((code + rest).drop_first() =~= bytes::unsigned_leb(local as nat) + rest);
    a_step_runs(code, rest, state, state.set(local as int));
}

proof fn a_constant_runs(value: int, rest: Seq<u8>, state: State)
    ensures
        runs(lower::i32_const(value) + rest, state) == runs(
            rest,
            state.push((value % size() as int) as nat),
        ),
{
    let code = lower::i32_const(value);
    bytes::signed_leb_reads_back(value, rest);
    assert((code + rest).drop_first() =~= bytes::signed_leb(value) + rest);
    a_step_runs(code, rest, state, state.push((value % size() as int) as nat));
}

proof fn a_combination_runs(opcode: u8, rest: Seq<u8>, state: State)
    requires
        state.stack.len() >= 2,
        opcode == I32_ADD || opcode == I32_SUB || opcode == I32_EQ || opcode == I32_LT_U || opcode
            == I32_AND,
    ensures
        ({
            let count = state.stack.len();
            let word = combined(
                opcode,
                state.stack[count - 2],
                state.stack[count - 1],
            )->Some_0;
            runs(seq![opcode] + rest, state) == runs(rest, state.join(word))
        }),
{
    let count = state.stack.len();
    let word = combined(opcode, state.stack[count - 2], state.stack[count - 1])->Some_0;
    assert((seq![opcode] + rest)[0] == opcode);
    a_step_runs(seq![opcode], rest, state, state.join(word));
}

impl Setting {
    /// The word a value is, where the locals hold what they do.
    pub open spec fn word(self, value: ValueId, locals: Seq<nat>) -> nat {
        match self.places.source[value.0 as int] {
            Source::Local(index) => locals[index as int],
            _ => self.constant(value)->0,
        }
    }

    /// Whether a value that has a local has one there is.
    pub open spec fn is_placed(self, value: ValueId, locals: Seq<nat>) -> bool {
        self.places.source[value.0 as int] matches Source::Local(index) ==> index < locals.len()
    }

    /// The local a value has, where it has one.
    pub open spec fn local(self, value: ValueId) -> Option<u32> {
        match self.places.source[value.0 as int] {
            Source::Local(index) => Some(index),
            _ => None,
        }
    }
}

/// What one piece of writing adds to another.
pub open spec fn added(before: Emitted, after: Emitted) -> Seq<u8> {
    after.body.skip(before.body.len() as int)
}

/// Whether one piece of writing goes on from another, and nothing was amiss.
pub open spec fn goes_on(before: Emitted, after: Emitted) -> bool {
    &&& before.body.is_prefix_of(after.body)
    &&& !after.failed
    &&& !before.failed
}

pub(super) proof fn what_is_added(before: Emitted, code: Seq<u8>)
    ensures
        added(before, before.emit(code)) == code,
        before.body.is_prefix_of(before.emit(code).body),
{
    assert(added(before, before.emit(code)) =~= code);
}

pub(super) proof fn additions_chain(first: Emitted, second: Emitted, third: Emitted)
    requires
        first.body.is_prefix_of(second.body),
        second.body.is_prefix_of(third.body),
    ensures
        first.body.is_prefix_of(third.body),
        added(first, third) == added(first, second) + added(second, third),
{
    assert forall|i: int| 0 <= i < first.body.len() implies first.body[i] == third.body[i] by {
        assert(first.body[i] == second.body[i]);
    }
    assert forall|i: int| 0 <= i < second.body.len() implies second.body[i] == third.body[i] by {}
    assert(added(first, third) =~= added(first, second) + added(second, third));
}

/// Pushing a value pushes the word it is.
pub(super) proof fn a_push_pushes(
    setting: Setting,
    out: Emitted,
    value: ValueId,
    rest: Seq<u8>,
    state: State,
)
    requires
        !setting.push(out, value).failed,
        setting.is_placed(value, state.locals),
    ensures
        goes_on(out, setting.push(out, value)),
        runs(added(out, setting.push(out, value)) + rest, state) == runs(
            rest,
            state.push(setting.word(value, state.locals)),
        ),
{
    match setting.places.source[value.0 as int] {
        Source::Local(index) => {
            what_is_added(out, lower::indexed(LOCAL_GET, index as nat));
            a_get_runs(index, rest, state);
        },
        _ => {
            let word = setting.constant(value)->0;
            let signed = module::signed(word as u32);
            what_is_added(out, lower::i32_const(signed));
            a_constant_runs(signed, rest, state);
            assert(signed % size() as int == word);
        },
    }
}

/// Setting a value takes the word that was pushed last.
pub(super) proof fn a_set_sets(
    setting: Setting,
    out: Emitted,
    value: ValueId,
    rest: Seq<u8>,
    state: State,
)
    requires
        !setting.set(out, value).failed,
        setting.is_placed(value, state.locals),
        state.stack.len() > 0,
    ensures
        goes_on(out, setting.set(out, value)),
        setting.local(value) is Some,
        runs(added(out, setting.set(out, value)) + rest, state) == runs(
            rest,
            state.set(setting.local(value)->Some_0 as int),
        ),
{
    if let Source::Local(index) = setting.places.source[value.0 as int] {
        what_is_added(out, lower::indexed(LOCAL_SET, index as nat));
        a_set_runs(index, rest, state);
    }
}

pub(super) proof fn pushes_push(
    setting: Setting,
    out: Emitted,
    values: Seq<ValueId>,
    from: int,
    rest: Seq<u8>,
    state: State,
)
    requires
        0 <= from <= values.len(),
        !setting.push_all(out, values, from).failed,
        forall|i: int|
            0 <= i < values.len() ==> setting.is_placed(#[trigger] values[i], state.locals),
    ensures
        goes_on(out, setting.push_all(out, values, from)),
        runs(added(out, setting.push_all(out, values, from)) + rest, state) == runs(
            rest,
            (State {
                stack: state.stack + Seq::new(
                    (values.len() - from) as nat,
                    |i: int| setting.word(values[from + i], state.locals),
                ),
                ..state
            }),
        ),
    decreases values.len() - from,
{
    let end = setting.push_all(out, values, from);
    if from == values.len() {
        assert(added(out, end) + rest =~= rest);
        assert(state.stack + Seq::new(
            0,
            |i: int| setting.word(values[from + i], state.locals),
        ) =~= state.stack);
    } else {
        let mid = setting.push(out, values[from]);
        let word = setting.word(values[from], state.locals);
        assert(setting.is_placed(values[from], state.locals));
        pushes_push(setting, mid, values, from + 1, rest, state.push(word));
        a_push_pushes(setting, out, values[from], added(mid, end) + rest, state);
        additions_chain(out, mid, end);
        assert(added(out, end) + rest =~= added(out, mid) + (added(mid, end) + rest));
        let fewer = Seq::new(
            (values.len() - from - 1) as nat,
            |i: int| setting.word(values[from + 1 + i], state.locals),
        );
        let all = Seq::new(
            (values.len() - from) as nat,
            |i: int| setting.word(values[from + i], state.locals),
        );
        assert(state.stack.push(word) + fewer =~= state.stack + all);
    }
}

/// Locals, once the first `count` of some values are set to words.
pub open spec fn settled(
    setting: Setting,
    locals: Seq<nat>,
    values: Seq<ValueId>,
    words: Seq<nat>,
    count: int,
) -> Seq<nat>
    decreases count,
{
    if count <= 0 {
        locals
    } else {
        settled(
            setting,
            locals.update(setting.local(values[count - 1])->Some_0 as int, words[count - 1]),
            values,
            words,
            count - 1,
        )
    }
}

pub(super) proof fn sets_set(
    setting: Setting,
    out: Emitted,
    values: Seq<ValueId>,
    count: int,
    words: Seq<nat>,
    rest: Seq<u8>,
    state: State,
)
    requires
        0 <= count <= values.len(),
        words.len() >= count,
        !setting.set_all(out, values, count).failed,
        forall|i: int|
            0 <= i < values.len() ==> setting.is_placed(#[trigger] values[i], state.locals),
    ensures
        goes_on(out, setting.set_all(out, values, count)),
        forall|i: int| 0 <= i < count ==> setting.local(#[trigger] values[i]) is Some,
        runs(
            added(out, setting.set_all(out, values, count)) + rest,
            (State { stack: state.stack + words.take(count), ..state }),
        ) == runs(
            rest,
            (State { locals: settled(setting, state.locals, values, words, count), ..state }),
        ),
    decreases count,
{
    let end = setting.set_all(out, values, count);
    let full = State { stack: state.stack + words.take(count), ..state };
    if count == 0 {
        assert(added(out, end) + rest =~= rest);
        assert(state.stack + words.take(0) =~= state.stack);
    } else {
        let value = values[count - 1];
        let mid = setting.set(out, value);
        assert(setting.is_placed(value, state.locals));
        if mid.failed {
            failing_goes_on(setting, mid, values, count - 1);
        }
        a_set_sets(setting, out, value, added(mid, end) + rest, full);
        let local = setting.local(value)->Some_0 as int;
        let after = State { locals: state.locals.update(local, words[count - 1]), ..state };
        sets_set(setting, mid, values, count - 1, words, rest, after);
        additions_chain(out, mid, end);
        assert(added(out, end) + rest =~= added(out, mid) + (added(mid, end) + rest));
        assert(full.stack.last() == words[count - 1]);
        assert(full.stack.drop_last() =~= state.stack + words.take(count - 1));
        assert(full.set(local) =~= (State {
            stack: after.stack + words.take(count - 1),
            ..after
        }));
    }
}

pub(super) proof fn failing_goes_on(setting: Setting, out: Emitted, values: Seq<ValueId>, count: int)
    requires
        out.failed,
    ensures
        setting.set_all(out, values, count).failed,
    decreases count,
{
    if 0 < count <= values.len() {
        failing_goes_on(setting, setting.set(out, values[count - 1]), values, count - 1);
    }
}

/// Whether values have a local each, and each one of its own.
pub open spec fn are_apart(setting: Setting, values: Seq<ValueId>) -> bool {
    forall|i: int, j: int|
        0 <= i < j < values.len() ==> setting.local(#[trigger] values[i]) != setting.local(
            #[trigger] values[j],
        )
}

pub(super) proof fn what_settles(
    setting: Setting,
    locals: Seq<nat>,
    values: Seq<ValueId>,
    words: Seq<nat>,
    count: int,
)
    requires
        0 <= count <= values.len(),
        words.len() >= count,
        are_apart(setting, values),
        forall|i: int|
            0 <= i < values.len() ==> setting.is_placed(#[trigger] values[i], locals),
        forall|i: int| 0 <= i < count ==> setting.local(#[trigger] values[i]) is Some,
    ensures
        settled(setting, locals, values, words, count).len() == locals.len(),
        forall|i: int|
            0 <= i < count ==> settled(setting, locals, values, words, count)[setting.local(
                #[trigger] values[i],
            )->Some_0 as int] == words[i],
        forall|l: int|
            0 <= l < locals.len() && (forall|i: int|
                0 <= i < count ==> setting.local(#[trigger] values[i]) != Some(l as u32))
                ==> #[trigger] settled(setting, locals, values, words, count)[l] == locals[l],
    decreases count,
{
    if count > 0 {
        let local = setting.local(values[count - 1])->Some_0 as int;
        let next = locals.update(local, words[count - 1]);
        assert(setting.is_placed(values[count - 1], locals));
        what_settles(setting, next, values, words, count - 1);
        let after = settled(setting, locals, values, words, count);
        assert forall|i: int| 0 <= i < count implies after[setting.local(
            #[trigger] values[i],
        )->Some_0 as int] == words[i] by {
            if i == count - 1 {
                assert forall|j: int| 0 <= j < count - 1 implies setting.local(
                    #[trigger] values[j],
                ) != Some(local as u32) by {
                    assert(setting.local(values[j]) != setting.local(values[i]));
                }
                assert(after[local] == next[local]);
            }
        }
        assert forall|l: int|
            0 <= l < locals.len() && (forall|i: int|
                0 <= i < count ==> setting.local(#[trigger] values[i]) != Some(
                    l as u32,
                )) implies #[trigger] after[l] == locals[l] by {
            assert(setting.local(values[count - 1]) != Some(l as u32));
            assert(after[l] == next[l]);
        }
    }
}

/// A transfer moves everything at once: each destination takes the word its
/// source was before any of them was set, and nothing else changes.
pub proof fn a_transfer_moves_at_once(
    setting: Setting,
    out: Emitted,
    sources: Seq<ValueId>,
    destinations: Seq<ValueId>,
    state: State,
)
    requires
        sources.len() == destinations.len(),
        !setting.transfer(out, sources, destinations).failed,
        are_apart(setting, destinations),
        forall|i: int|
            0 <= i < sources.len() ==> setting.is_placed(#[trigger] sources[i], state.locals),
        forall|i: int|
            0 <= i < destinations.len() ==> setting.is_placed(
                #[trigger] destinations[i],
                state.locals,
            ),
    ensures
        goes_on(out, setting.transfer(out, sources, destinations)),
        runs(added(out, setting.transfer(out, sources, destinations)), state) matches Some(after)
            && {
            &&& after.stack == state.stack
            &&& after.locals.len() == state.locals.len()
            &&& forall|i: int|
                0 <= i < destinations.len() ==> setting.local(
                    #[trigger] destinations[i],
                ) is Some && after.locals[setting.local(destinations[i])->Some_0 as int]
                    == setting.word(sources[i], state.locals)
            &&& forall|l: int|
                0 <= l < state.locals.len() && (forall|i: int|
                    0 <= i < destinations.len() ==> setting.local(#[trigger] destinations[i])
                        != Some(l as u32)) ==> #[trigger] after.locals[l] == state.locals[l]
        },
{
    let count = destinations.len() as int;
    let mid = setting.push_all(out, sources, 0);
    let end = setting.transfer(out, sources, destinations);
    let words = Seq::new(sources.len(), |i: int| setting.word(sources[i], state.locals));
    if mid.failed {
        failing_goes_on(setting, mid, destinations, count);
    }
    let none = Seq::<u8>::empty();
    sets_set(setting, mid, destinations, count, words, none, state);
    pushes_push(setting, out, sources, 0, added(mid, end) + none, state);
    additions_chain(out, mid, end);
    assert(added(out, mid) + (added(mid, end) + none) =~= added(out, end));
    assert(words.take(count) =~= words);
    assert(Seq::new(
        (sources.len() - 0) as nat,
        |i: int| setting.word(sources[0 + i], state.locals),
    ) =~= words);
    what_settles(setting, state.locals, destinations, words, count);
}

/// How many values there are of a class this target holds in a word.
pub open spec fn holds(class: Class) -> bool {
    class matches Class::Fixed { bits } ==> bits <= 32
}

/// Keeping the low bits of a word takes it round its class.
proof fn a_mask_takes_it_round(word: nat, bits: u16)
    requires
        word < size(),
        bits < 32,
    ensures
        ({
            let mask = model::wrapped(Class::Fixed { bits }, u64::MAX);
            &&& mask <= u32::MAX
            &&& combined(I32_AND, word, mask as nat) == Some(
                word % machine::span(Class::Fixed { bits }, size()),
            )
        }),
{
    let class = Class::Fixed { bits };
    let mask = model::wrapped(class, u64::MAX);
    let span = vstd::arithmetic::power2::pow2(bits as nat);
    vstd::arithmetic::power2::lemma_pow2_pos(bits as nat);
    vstd::arithmetic::power2::lemma_pow2_strictly_increases(bits as nat, 32);
    vstd::arithmetic::power2::lemma2_to64();
    vstd::arithmetic::power2::lemma2_to64_rest();
    // All the bits there are, less those above the class.
    assert(u64::MAX as nat % span == span - 1) by {
        let above = (64 - bits) as nat;
        let rest = vstd::arithmetic::power2::pow2(above);
        vstd::arithmetic::power2::lemma_pow2_adds(bits as nat, above);
        vstd::arithmetic::power2::lemma_pow2_pos(above);
        assert(u64::MAX as int == (rest - 1) * span + (span - 1)) by (nonlinear_arith)
            requires
                span * rest == 0x1_0000_0000_0000_0000,
        ;
        vstd::arithmetic::div_mod::lemma_fundamental_div_mod_converse(
            u64::MAX as int,
            span as int,
            rest - 1,
            span - 1,
        );
    }
    assert(mask == span - 1);
    vstd::bits::lemma_u32_low_bits_mask_is_mod(word as u32, bits as nat);
    reveal(vstd::bits::low_bits_mask);
}

/// Narrowing takes the word pushed last round its class.
proof fn narrowing_takes_it_round(
    setting: Setting,
    out: Emitted,
    class: Class,
    rest: Seq<u8>,
    state: State,
)
    requires
        !setting.narrow(out, class).failed,
        state.stack.len() > 0,
        state.stack.last() < size(),
    ensures
        goes_on(out, setting.narrow(out, class)),
        holds(class),
        runs(added(out, setting.narrow(out, class)) + rest, state) == runs(
            rest,
            state.pop().push(state.stack.last() % machine::span(class, size())),
        ),
{
    let word = state.stack.last();
    let end = setting.narrow(out, class);
    let after = state.pop().push(word % machine::span(class, size()));
    match class {
        Class::Fixed { bits } if bits < 32 => {
            let mask = model::wrapped(class, u64::MAX);
            let code = lower::i32_const(mask as int) + seq![I32_AND];
            what_is_added(out, code);
            a_mask_takes_it_round(word, bits);
            a_constant_runs(mask as int, seq![I32_AND] + rest, state);
            vstd::arithmetic::div_mod::lemma_small_mod(mask as nat, size());
            a_combination_runs(I32_AND, rest, state.push(mask as nat));
            assert(code + rest =~= lower::i32_const(mask as int) + (seq![I32_AND] + rest));
            assert(state.push(mask as nat).stack[state.stack.len() - 1] == word);
            assert(state.push(mask as nat).pop() =~= state);
        },
        _ => {
            vstd::arithmetic::power2::lemma2_to64();
            vstd::arithmetic::div_mod::lemma_small_mod(word, size());
            assert(added(out, end) + rest =~= rest);
            assert(state.pop().push(word) =~= state);
        },
    }
}

/// What an operation of two values comes to.
pub open spec fn operation(setting: Setting, op: Op, locals: Seq<nat>) -> Option<nat> {
    match op {
        Op::Binary { op, left, right } => Some(
            setting.program.computed(
                op,
                setting.program.class(left),
                setting.word(left, locals),
                setting.word(right, locals),
                size(),
            ),
        ),
        Op::Compare { relation, left, right } => {
            let one = setting.word(left, locals);
            let other = setting.word(right, locals);
            let holds = match relation {
                Relation::Equal => one == other,
                Relation::Less => one < other,
            };
            Some(
                if holds {
                    1
                } else {
                    0
                },
            )
        },
        Op::Convert { class, value } => Some(
            setting.word(value, locals) % machine::span(class, size()),
        ),
        _ => None,
    }
}

/// The values an operation reads.
pub open spec fn operands(op: Op) -> Seq<ValueId> {
    match op {
        Op::Binary { left, right, .. } => seq![left, right],
        Op::Compare { left, right, .. } => seq![left, right],
        Op::Convert { value, .. } => seq![value],
        _ => seq![],
    }
}

/// Where an operation's result takes its class from what it reads.
pub open spec fn is_classed(setting: Setting, op: Op, result: ValueId) -> bool {
    match op {
        Op::Binary { left, .. } => setting.program.class(result) == setting.program.class(left),
        _ => true,
    }
}

/// Arithmetic a class at a time: going round a word first changes nothing,
/// since a word goes round a whole number of times.
proof fn going_round_twice(op: Binary, class: Class, left: nat, right: nat)
    requires
        holds(class),
    ensures
        ({
            let span = machine::span(class, size());
            let whole = match op {
                Binary::Add => (left + right) % size(),
                Binary::Sub => ((left - right) % size() as int) as nat,
            };
            whole % span == match op {
                Binary::Add => (left + right) % span,
                Binary::Sub => ((left - right) % span as int) as nat,
            }
        }),
{
    let span = machine::span(class, size());
    let sum: int = match op {
        Binary::Add => left as int + right,
        Binary::Sub => left - right,
    };
    vstd::arithmetic::power2::lemma2_to64();
    match class {
        Class::Fixed { bits } => {
            let above = (32 - bits) as nat;
            let rest = vstd::arithmetic::power2::pow2(above);
            vstd::arithmetic::power2::lemma_pow2_pos(bits as nat);
            vstd::arithmetic::power2::lemma_pow2_pos(above);
            vstd::arithmetic::power2::lemma_pow2_adds(bits as nat, above);
            vstd::arithmetic::div_mod::lemma_mod_mod(sum, span as int, rest as int);
        },
        _ => {
            vstd::arithmetic::div_mod::lemma_mod_twice(sum, size() as int);
        },
    }
}

/// An operation computes what the program says it does: its result's local
/// takes that, and nothing else changes.
#[verifier::rlimit(40)]
pub proof fn an_operation_computes(
    setting: Setting,
    out: Emitted,
    op: Op,
    results: Seq<ValueId>,
    state: State,
)
    requires
        op is Binary || op is Compare || op is Convert,
        results.len() == 1,
        !setting.simple(out, op, results).failed,
        is_classed(setting, op, results[0]),
        setting.is_placed(results[0], state.locals),
        forall|i: int|
            0 <= i < operands(op).len() ==> setting.is_placed(
                #[trigger] operands(op)[i],
                state.locals,
            ) && setting.word(operands(op)[i], state.locals) < size(),
    ensures
        goes_on(out, setting.simple(out, op, results)),
        setting.local(results[0]) is Some,
        runs(added(out, setting.simple(out, op, results)), state) == Some(
            State {
                locals: state.locals.update(
                    setting.local(results[0])->Some_0 as int,
                    operation(setting, op, state.locals)->Some_0,
                ),
                ..state
            },
        ),
{
    let end = setting.simple(out, op, results);
    let none = Seq::<u8>::empty();
    match op {
        Op::Binary { op: how, left, right } => {
            let opcode = Setting::opcode(how);
            assert(operands(op)[0] == left && operands(op)[1] == right);
            two_are_combined(setting, out, left, right, opcode, state);
            let both = setting.push(setting.push(out, left), right).emit(seq![opcode]);
            let class = setting.program.class(results[0]);
            let narrowed = setting.narrow(both, class);
            let one = setting.word(left, state.locals);
            let other = setting.word(right, state.locals);
            let word = combined(opcode, one, other)->Some_0;
            let joined = state.push(word);
            narrowing_takes_it_round(
                setting,
                both,
                class,
                added(narrowed, end) + none,
                joined,
            );
            going_round_twice(how, class, one, other);
            let number = word % machine::span(class, size());
            a_set_sets(setting, narrowed, results[0], none, state.push(number));
            two_are_combined_then(
                setting,
                out,
                left,
                right,
                opcode,
                added(both, narrowed) + (added(narrowed, end) + none),
                state,
            );
            additions_chain(out, both, narrowed);
            additions_chain(out, narrowed, end);
            assert(added(out, end) =~= added(out, both) + (added(both, narrowed) + (added(
                narrowed,
                end,
            ) + none)));
            assert(joined.pop().push(number) =~= state.push(number));
            assert(state.push(number).pop() =~= state);
        },
        Op::Compare { relation, left, right } => {
            let opcode = Setting::relation(relation);
            assert(operands(op)[0] == left && operands(op)[1] == right);
            two_are_combined(setting, out, left, right, opcode, state);
            let both = setting.push(setting.push(out, left), right).emit(seq![opcode]);
            let word = combined(
                opcode,
                setting.word(left, state.locals),
                setting.word(right, state.locals),
            )->Some_0;
            a_set_sets(setting, both, results[0], none, state.push(word));
            two_are_combined_then(
                setting,
                out,
                left,
                right,
                opcode,
                added(both, end) + none,
                state,
            );
            additions_chain(out, both, end);
            assert(added(out, end) =~= added(out, both) + (added(both, end) + none));
            assert(state.push(word).pop() =~= state);
        },
        Op::Convert { class, value } => {
            assert(operands(op)[0] == value);
            let pushed = setting.push(out, value);
            let narrowed = setting.narrow(pushed, class);
            let word = setting.word(value, state.locals);
            let number = word % machine::span(class, size());
            narrowing_takes_it_round(
                setting,
                pushed,
                class,
                added(narrowed, end) + none,
                state.push(word),
            );
            a_push_pushes(
                setting,
                out,
                value,
                added(pushed, narrowed) + (added(narrowed, end) + none),
                state,
            );
            a_set_sets(setting, narrowed, results[0], none, state.push(number));
            additions_chain(out, pushed, narrowed);
            additions_chain(out, narrowed, end);
            assert(added(out, end) =~= added(out, pushed) + (added(pushed, narrowed) + (added(
                narrowed,
                end,
            ) + none)));
            assert(state.push(word).pop().push(number) =~= state.push(number));
            assert(state.push(number).pop() =~= state);
        },
        _ => {},
    }
}

proof fn two_are_combined(
    setting: Setting,
    out: Emitted,
    left: ValueId,
    right: ValueId,
    opcode: u8,
    state: State,
)
    requires
        !setting.push(setting.push(out, left), right).failed,
        setting.is_placed(left, state.locals),
        setting.is_placed(right, state.locals),
        setting.word(left, state.locals) < size(),
        setting.word(right, state.locals) < size(),
        opcode == I32_ADD || opcode == I32_SUB || opcode == I32_EQ || opcode == I32_LT_U,
    ensures
        goes_on(out, setting.push(setting.push(out, left), right).emit(seq![opcode])),
        combined(
            opcode,
            setting.word(left, state.locals),
            setting.word(right, state.locals),
        ) matches Some(word) && word < size(),
{
    two_are_combined_then(setting, out, left, right, opcode, seq![], state);
}

proof fn two_are_combined_then(
    setting: Setting,
    out: Emitted,
    left: ValueId,
    right: ValueId,
    opcode: u8,
    rest: Seq<u8>,
    state: State,
)
    requires
        !setting.push(setting.push(out, left), right).failed,
        setting.is_placed(left, state.locals),
        setting.is_placed(right, state.locals),
        opcode == I32_ADD || opcode == I32_SUB || opcode == I32_EQ || opcode == I32_LT_U,
    ensures
        ({
            let both = setting.push(setting.push(out, left), right).emit(seq![opcode]);
            let word = combined(
                opcode,
                setting.word(left, state.locals),
                setting.word(right, state.locals),
            )->Some_0;
            &&& goes_on(out, both)
            &&& runs(added(out, both) + rest, state) == runs(rest, state.push(word))
        }),
{
    let first = setting.push(out, left);
    let second = setting.push(first, right);
    let both = second.emit(seq![opcode]);
    let one = setting.word(left, state.locals);
    let other = setting.word(right, state.locals);
    let full = state.push(one).push(other);
    what_is_added(second, seq![opcode]);
    a_combination_runs(opcode, rest, full);
    a_push_pushes(setting, first, right, seq![opcode] + rest, state.push(one));
    a_push_pushes(setting, out, left, added(first, second) + (seq![opcode] + rest), state);
    additions_chain(out, first, second);
    additions_chain(out, second, both);
    assert(added(out, both) + rest =~= added(out, first) + (added(first, second) + (
    seq![opcode] + rest)));
    assert(full.stack[full.stack.len() - 2] == one);
    let word = combined(opcode, one, other)->Some_0;
    assert(full.join(word) =~= state.push(word));
}

} // verus!
