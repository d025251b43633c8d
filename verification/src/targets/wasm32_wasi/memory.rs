//! What memory starts out with.

use super::lower::{self, IOVECS, IOVEC_LEN};
use super::Placed;
use crate::ir::{DataId, Origin, Parts};
use crate::targets::bytes;
use vstd::prelude::*;

verus! {

/// The byte at an address, where memory starts out with segments and is
/// nought elsewhere.
pub open spec fn byte_at(data: Seq<Placed>, address: int) -> u8
    decreases data.len(),
{
    if data.len() == 0 {
        0
    } else {
        let last = data.last();
        if last.offset <= address < last.offset + last.bytes.len() {
            last.bytes[address - last.offset]
        } else {
            byte_at(data.drop_last(), address)
        }
    }
}

/// The word at an address.
pub open spec fn word_at(data: Seq<Placed>, address: int) -> nat {
    bytes::from_little_endian(Seq::new(4, |i: int| byte_at(data, address + i)))
}

/// A vector is where it belongs among the others.
proof fn a_vector_has_its_place(iovecs: Seq<Option<(u32, u32)>>, count: int, at: int)
    requires
        0 <= count <= iovecs.len(),
    ensures
        lower::vectors(iovecs, count).len() == 8 * count,
        0 <= at < count ==> (iovecs[at] matches Some((base, length)) ==> {
            &&& lower::vectors(iovecs, count).subrange(8 * at, 8 * at + 4)
                == bytes::little_endian(base as nat, 4)
            &&& lower::vectors(iovecs, count).subrange(8 * at + 4, 8 * at + 8)
                == bytes::little_endian(length as nat, 4)
        }),
    decreases count,
{
    if count > 0 {
        a_vector_has_its_place(iovecs, count - 1, at);
        let (base, length) = match iovecs[count - 1] {
            Some(known) => known,
            None => (0, 0),
        };
        bytes::little_endian_length(base as nat, 4);
        bytes::little_endian_length(length as nat, 4);
        let before = lower::vectors(iovecs, count - 1);
        let all = lower::vectors(iovecs, count);
        if 0 <= at < count - 1 {
            assert(all.subrange(8 * at, 8 * at + 4) =~= before.subrange(8 * at, 8 * at + 4));
            assert(all.subrange(8 * at + 4, 8 * at + 8) =~= before.subrange(
                8 * at + 4,
                8 * at + 8,
            ));
        } else if at == count - 1 {
            assert(all.subrange(8 * at, 8 * at + 4) =~= bytes::little_endian(base as nat, 4));
            assert(all.subrange(8 * at + 4, 8 * at + 8) =~= bytes::little_endian(
                length as nat,
                4,
            ));
        }
    }
}

/// What stands before the data is a vector's.
proof fn vectors_come_first(
    program: Parts,
    iovecs: Seq<Option<(u32, u32)>>,
    data_start: nat,
    address: int,
)
    requires
        data_start + program.data.len() <= u32::MAX,
        IOVECS <= address < data_start,
        address < IOVECS + 8 * iovecs.len(),
    ensures
        byte_at(lower::segments(program, iovecs, data_start), address) == lower::vectors(
            iovecs,
            iovecs.len() as int,
        )[address - IOVECS],
{
    let known = lower::vectors(iovecs, iovecs.len() as int);
    a_vector_has_its_place(iovecs, iovecs.len() as int, 0);
    let first = if lower::all_zero(known) {
        seq![]
    } else {
        seq![Placed { offset: IOVECS, bytes: known }]
    };
    reveal_with_fuel(byte_at, 4);
    assert(known.len() == 8 * iovecs.len());
    assert(byte_at(first, address) == known[address - IOVECS]) by {
        if lower::all_zero(known) {
            assert(known[address - IOVECS] == 0);
        }
    }
    let data = Placed { offset: data_start as u32, bytes: program.data };
    let second = if program.data.len() == 0 {
        first
    } else {
        first.push(data)
    };
    assert(byte_at(second, address) == byte_at(first, address)) by {
        if program.data.len() > 0 {
            assert(second.drop_last() =~= first);
        }
    }
    let globals = Placed {
        offset: (data_start + program.data.len()) as u32,
        bytes: program.globals,
    };
    if program.globals.len() > 0 {
        assert(second.push(globals).drop_last() =~= second);
    }
}

/// A vector that ships as initialised data holds what was known of it.
pub(super) proof fn a_vector_is_shipped(
    program: Parts,
    iovecs: Seq<Option<(u32, u32)>>,
    data_start: nat,
    at: int,
)
    requires
        data_start + program.data.len() <= u32::MAX,
        0 <= at < iovecs.len(),
        IOVECS + IOVEC_LEN * (at + 1) <= data_start,
    ensures
        iovecs[at] matches Some((base, length)) ==> {
            let data = lower::segments(program, iovecs, data_start);
            &&& word_at(data, IOVECS + IOVEC_LEN * at) == base
            &&& word_at(data, IOVECS + IOVEC_LEN * at + 4) == length
        },
{
    if let Some((base, length)) = iovecs[at] {
        let data = lower::segments(program, iovecs, data_start);
        let all = lower::vectors(iovecs, iovecs.len() as int);
        let start = IOVECS + IOVEC_LEN * at;
        a_vector_has_its_place(iovecs, iovecs.len() as int, at);
        assert(vstd::arithmetic::power::pow(256, 4) == 0x1_0000_0000) by {
            reveal_with_fuel(vstd::arithmetic::power::pow, 5);
        }
        bytes::little_endian_reads_back(base as nat, 4);
        bytes::little_endian_reads_back(length as nat, 4);
        assert forall|i: int| 0 <= i < 8 implies #[trigger] byte_at(data, start + i) == all[8 * at
            + i] by {
            vectors_come_first(program, iovecs, data_start, start + i);
        }
        assert(Seq::new(4, |i: int| byte_at(data, start + i)) =~= all.subrange(
            8 * at,
            8 * at + 4,
        ));
        assert(Seq::new(4, |i: int| byte_at(data, start + 4 + i)) =~= all.subrange(
            8 * at + 4,
            8 * at + 8,
        )) by {
            assert forall|i: int| 0 <= i < 4 implies #[trigger] byte_at(data, start + 4 + i)
                == all[8 * at + 4 + i] by {
                assert(start + 4 + i == start + (4 + i));
            }
        }
    }
}

/// What memory starts out with at the address of a datum is the datum.
pub proof fn a_datum_has_its_place(program: Parts, layout: super::Layout, data: DataId, i: int)
    requires
        program.wf(),
        lower::lowered(program) == Some(layout),
        layout.fits(),
        data.0 < program.spans.len(),
        0 <= i < program.datum(data).len,
    ensures
        byte_at(layout.data, lower::setting(program, true).address(data) + i)
            == program.datum_bytes(data)[i],
{
    let iovecs = lower::functions(program, program.functions.len() as int).1.iovecs;
    let start = lower::setting(program, true).data_start();
    let span = program.datum(data);
    let address = lower::setting(program, true).address(data) + i;
    assert(program.span_fits(program.spans[data.0 as int]));
    let known = lower::vectors(iovecs, iovecs.len() as int);
    let first = if lower::all_zero(known) {
        seq![]
    } else {
        seq![Placed { offset: IOVECS, bytes: known }]
    };
    let held = Placed { offset: start as u32, bytes: program.data };
    let second = if program.data.len() == 0 {
        first
    } else {
        first.push(held)
    };
    let globals = Placed { offset: (start + program.data.len()) as u32, bytes: program.globals };
    match span.origin {
        Origin::Data => {
            assert(second.last() == held);
            assert(byte_at(second, address) == program.data[span.start + i]);
            if program.globals.len() > 0 {
                assert(second.push(globals).drop_last() =~= second);
            }
        },
        Origin::Globals => {
            assert(second.push(globals).last() == globals);
        },
    }
}

} // verus!
