//! What the simulator makes of a file it is asked to run.
//!
//! A file says of itself where it goes in memory, where the machine is started
//! and where the hooks find their arguments.

use super::image;
use super::lower::{self, Machine};
use super::{CSP, LOAD};
use crate::ir::{DataId, Parts};
use vstd::prelude::*;

verus! {

/// A number of two bytes in a file, the low byte first.
pub open spec fn pair_at(file: Seq<u8>, at: int) -> int {
    file[at] + 256 * file[at + 1]
}

/// Whether a file is one the simulator takes: it begins with the simulator's
/// name, in the second version of the header, and is for a plain 6502.
pub open spec fn is_image(file: Seq<u8>) -> bool {
    &&& file.len() >= 12
    &&& file[0] == 0x73
    &&& file[1] == 0x69
    &&& file[2] == 0x6D
    &&& file[3] == 0x36
    &&& file[4] == 0x35
    &&& file[5] == 2
    &&& file[6] == 0
}

/// Where in the zero page the hooks find the stack they take arguments from.
pub open spec fn stack(file: Seq<u8>) -> int {
    file[7] as int
}

/// Where what follows the header goes.
pub open spec fn base(file: Seq<u8>) -> int {
    pair_at(file, 8)
}

/// Where the machine is started.
pub open spec fn entry(file: Seq<u8>) -> int {
    pair_at(file, 10)
}

/// What is in memory from an address on, as far as the file goes.
pub open spec fn memory_from(file: Seq<u8>, address: int) -> Seq<u8> {
    file.skip(12 + address - base(file))
}

proof fn two_bytes_are_read(value: nat)
    requires
        value <= 0xFFFF,
    ensures
        ({
            let pair = crate::targets::bytes::little_endian(value, 2);
            &&& pair.len() == 2
            &&& pair[0] + 256 * pair[1] == value
        }),
{
    reveal_with_fuel(crate::targets::bytes::little_endian, 3);
    let pair = crate::targets::bytes::little_endian(value, 2);
    assert(pair[0] == value % 256);
    assert(pair[1] == value / 256 % 256);
}

/// The simulator takes a file that was written, starts the machine where the
/// code is, and all of it fits in memory below the frames.
pub proof fn what_is_written_is_loaded(program: Parts, file: Seq<u8>)
    requires
        super::image(program) == Some(file),
    ensures
        is_image(file),
        stack(file) == CSP,
        base(file) <= entry(file) <= 0xFFFF,
        memory_from(file, entry(file)) == lower::settled(program, LOAD, seq![])->Some_0,
        entry(file) == lower::origin(program),
        base(file) + (file.len() - 12) <= 0xFFFF,
{
    lower::settled_code_fits_its_own_addresses(program, LOAD, seq![]);
    let code = lower::settled(program, LOAD, seq![])->Some_0;
    let origin = lower::origin(program);
    two_bytes_are_read(LOAD as nat);
    two_bytes_are_read(origin as u16 as nat);
    let first = seq![0x73u8, 0x69u8, 0x6Du8, 0x36u8, 0x35u8, 2u8, 0u8, CSP];
    let header = image::header(origin as u16);
    let one = crate::targets::bytes::little_endian(LOAD as nat, 2);
    let two = crate::targets::bytes::little_endian(origin as u16 as nat, 2);
    assert(header == first + one + two);
    assert(header.len() == 12);
    assert forall|i: int| 0 <= i < 12 implies file[i] == header[i] by {}
    assert(header[8] == one[0] && header[9] == one[1]);
    assert(header[10] == two[0] && header[11] == two[1]);
    assert(memory_from(file, entry(file)) =~= code);
}

/// A datum is in memory at its address.
pub proof fn a_datum_is_loaded(program: Parts, file: Seq<u8>, data: DataId)
    requires
        program.wf(),
        data.0 < program.spans.len(),
        super::image(program) == Some(file),
    ensures
        memory_from(
            file,
            (Machine { program, data: LOAD }).address(data) as int,
        ).take(program.datum(data).len as int) == program.datum_bytes(data),
{
    what_is_written_is_loaded(program, file);
    let code = lower::settled(program, LOAD, seq![])->Some_0;
    let origin = lower::origin(program);
    image::a_datum_has_its_place(program, code, origin as u16, data);
    let address = (Machine { program, data: LOAD }).address(data) as int;
    let at = 12 + address - LOAD;
    assert(program.span_fits(program.spans[data.0 as int]));
    two_bytes_are_read(LOAD as nat);
    two_bytes_are_read(origin as u16 as nat);
    assert(image::header(origin as u16).len() == 12);
    assert(file.len() == 12 + program.data.len() + program.globals.len() + code.len());
    assert(at >= 12 && at + program.datum(data).len <= 12 + program.data.len()
        + program.globals.len());
    assert(base(file) == LOAD) by {
        let header = image::header(origin as u16);
        let one = crate::targets::bytes::little_endian(LOAD as nat, 2);
        assert(header[8] == one[0] && header[9] == one[1]);
        assert(file[8] == header[8] && file[9] == header[9]);
    }
    assert(memory_from(file, address).take(program.datum(data).len as int) =~= file.subrange(
        at,
        at + program.datum(data).len,
    ));
}

} // verus!
