//! What loads and stores mean.
//!
//! Memory is a byte for each address there is. A word is as many bytes as an
//! address of the machine takes, which is what `wide` says, with the low one
//! first; and an offset in words counts whole words, so that no two of them
//! share a byte.

use super::machine::{defined, read, Held};
use super::model::{Offset, Op, Parts, ValueId, Width};
use crate::targets::bytes;
use vstd::prelude::*;

verus! {

pub type Memory = Map<int, u8>;

/// How many bytes an offset comes to.
pub open spec fn away(offset: Offset, wide: nat) -> int {
    match offset {
        Offset::Bytes(count) => count as int,
        Offset::Words(count) => count * wide as int,
    }
}

/// How many bytes are reached.
pub open spec fn reach(width: Width, wide: nat) -> nat {
    match width {
        Width::Byte => 1,
        Width::Word => wide,
    }
}

/// Whether there is memory from a place on.
pub open spec fn is_there(memory: Memory, at: int, count: nat) -> bool {
    forall|i: int| at <= i < at + count ==> #[trigger] memory.dom().contains(i)
}

/// The number in as many bytes from a place on.
pub open spec fn number_in(memory: Memory, at: int, count: nat) -> nat
    decreases count,
{
    if count == 0 {
        0
    } else {
        (memory[at] + 256 * number_in(memory, at + 1, (count - 1) as nat)) as nat
    }
}

/// With a number in as many bytes from a place on.
pub open spec fn with_number(memory: Memory, at: int, count: nat, value: nat) -> Memory
    decreases count,
{
    if count == 0 {
        memory
    } else {
        with_number(memory, at + 1, (count - 1) as nat, value / 256).insert(at, (value % 256) as u8)
    }
}

impl Parts {
    /// A load or a store, which defines `results`, where the machine's words
    /// are `wide` bytes.
    pub open spec fn touches(
        self,
        wide: nat,
        op: Op,
        results: Seq<ValueId>,
        held: Held,
        memory: Memory,
    ) -> Option<(Held, Memory)> {
        match op {
            Op::Load { width, address, offset } => match read(held, seq![address]) {
                Some(one) => {
                    let at = one[0] + away(offset, wide);
                    if is_there(memory, at, reach(width, wide)) && results.len() == 1 {
                        let number = number_in(memory, at, reach(width, wide));
                        Some((defined(held, results, seq![number]), memory))
                    } else {
                        None
                    }
                },
                None => None,
            },
            Op::Store { width, address, offset, value } => match read(held, seq![address, value]) {
                Some(both) => {
                    let at = both[0] + away(offset, wide);
                    if is_there(memory, at, reach(width, wide)) && results.len() == 0 {
                        Some((held, with_number(memory, at, reach(width, wide), both[1])))
                    } else {
                        None
                    }
                },
                None => None,
            },
            _ => None,
        }
    }
}

/// Nothing but the bytes a number takes is touched.
pub proof fn the_rest_stays(memory: Memory, at: int, count: nat, value: nat)
    ensures
        forall|i: int|
            i < at || at + count <= i ==> with_number(memory, at, count, value)[i]
                == #[trigger] memory[i],
        forall|i: int|
            #[trigger] with_number(memory, at, count, value).dom().contains(i)
                <==> memory.dom().contains(i) || at <= i < at + count,
    decreases count,
{
    if count > 0 {
        let fewer = (count - 1) as nat;
        the_rest_stays(memory, at + 1, fewer, value / 256);
        let rest = with_number(memory, at + 1, fewer, value / 256);
        assert forall|i: int|
            #[trigger] with_number(memory, at, count, value).dom().contains(i)
                <==> memory.dom().contains(i) || at <= i < at + count by {
            assert(rest.dom().contains(i) <==> memory.dom().contains(i) || at + 1 <= i < at + count);
        }
    }
}

/// What bytes are alike, numbers are alike in.
pub proof fn the_same_bytes_are_the_same_number(one: Memory, other: Memory, at: int, count: nat)
    requires
        forall|i: int| at <= i < at + count ==> #[trigger] one[i] == other[i],
    ensures
        number_in(one, at, count) == number_in(other, at, count),
    decreases count,
{
    if count > 0 {
        the_same_bytes_are_the_same_number(one, other, at + 1, (count - 1) as nat);
        assert(one[at] == other[at]);
    }
}

/// What is stored is loaded, where the bytes there are hold it.
pub proof fn what_is_stored_is_loaded(memory: Memory, at: int, count: nat, value: nat)
    requires
        value < vstd::arithmetic::power::pow(256, count),
    ensures
        number_in(with_number(memory, at, count, value), at, count) == value,
    decreases count,
{
    reveal(vstd::arithmetic::power::pow);
    if count > 0 {
        let fewer = (count - 1) as nat;
        assert(vstd::arithmetic::power::pow(256, count) == 256 * vstd::arithmetic::power::pow(
            256,
            fewer,
        ));
        what_is_stored_is_loaded(memory, at + 1, fewer, value / 256);
        let rest = with_number(memory, at + 1, fewer, value / 256);
        let all = with_number(memory, at, count, value);
        the_same_bytes_are_the_same_number(all, rest, at + 1, fewer);
    }
}

/// A word stored at one offset is still there after a store at another, and so
/// words at different offsets never share a byte.
pub proof fn words_lie_apart(
    memory: Memory,
    base: int,
    wide: nat,
    one: i32,
    other: i32,
    first: nat,
    second: nat,
)
    requires
        one != other,
        first < vstd::arithmetic::power::pow(256, wide),
    ensures
        ({
            let here = base + away(Offset::Words(one), wide);
            let there = base + away(Offset::Words(other), wide);
            let stored = with_number(memory, here, wide, first);
            &&& here + wide <= there || there + wide <= here
            &&& number_in(with_number(stored, there, wide, second), here, wide) == first
        }),
{
    let here = base + away(Offset::Words(one), wide);
    let there = base + away(Offset::Words(other), wide);
    let stored = with_number(memory, here, wide, first);
    let w = wide as int;
    assert(here + wide <= there || there + wide <= here) by {
        if one < other {
            assert((one + 1) * w <= other * w) by (nonlinear_arith)
                requires
                    one + 1 <= other,
                    w >= 0,
            ;
            assert((one + 1) * w == one * w + w) by (nonlinear_arith);
        } else {
            assert((other + 1) * w <= one * w) by (nonlinear_arith)
                requires
                    other + 1 <= one,
                    w >= 0,
            ;
            assert((other + 1) * w == other * w + w) by (nonlinear_arith);
        }
    }
    the_rest_stays(stored, there, wide, second);
    what_is_stored_is_loaded(memory, here, wide, first);
    the_same_bytes_are_the_same_number(
        with_number(stored, there, wide, second),
        stored,
        here,
        wide,
    );
}

/// Two bytes are a word of two bytes.
pub proof fn two_bytes_are_a_number(memory: Memory, at: int, value: nat)
    ensures
        number_in(memory, at, 1) == memory[at],
        number_in(memory, at, 2) == memory[at] + 256 * memory[at + 1],
        with_number(memory, at, 1, value) == memory.insert(at, (value % 256) as u8),
        with_number(memory, at, 2, value) == memory.insert(
            at + 1,
            (value / 256 % 256) as u8,
        ).insert(at, (value % 256) as u8),
{
    reveal_with_fuel(number_in, 3);
    reveal_with_fuel(with_number, 3);
}

/// A number in bytes is what they are read as, the low one first.
pub proof fn a_number_is_its_bytes(memory: Memory, at: int, count: nat, value: nat)
    ensures
        number_in(memory, at, count) == bytes::from_little_endian(
            Seq::new(count, |i: int| memory[at + i]),
        ),
        forall|i: int|
            0 <= i < count ==> with_number(memory, at, count, value)[at + i]
                == #[trigger] bytes::little_endian(value, count)[i],
    decreases count,
{
    bytes::little_endian_length(value, count);
    if count > 0 {
        let fewer = (count - 1) as nat;
        a_number_is_its_bytes(memory, at + 1, fewer, value / 256);
        let all = Seq::new(count, |i: int| memory[at + i]);
        assert(all.drop_first() =~= Seq::new(fewer, |i: int| memory[at + 1 + i]));
        bytes::little_endian_length(value / 256, fewer);
        assert forall|i: int| 0 <= i < count implies with_number(memory, at, count, value)[at + i]
            == #[trigger] bytes::little_endian(value, count)[i] by {
            if i > 0 {
                assert(bytes::little_endian(value, count)[i] == bytes::little_endian(
                    value / 256,
                    fewer,
                )[i - 1]);
                assert(at + i == at + 1 + (i - 1));
            }
        }
    }
}

} // verus!
