//! The sim65 container: a twelve-byte header, then the data and the code.

use super::lower::Machine;
use super::{Code, CSP, LOAD};
use crate::ir::{DataId, Parts, Program};
use crate::targets::bytes;
use crate::targets::bytes::Bytes;
use vstd::prelude::*;

verus! {

/// The twelve bytes sim65 starts from: its name, the header version, the
/// CPU, where the hooks find their argument stack, where the image is loaded
/// and where the machine is started.
pub open spec fn header(reset: u16) -> Seq<u8> {
    seq![0x73u8, 0x69u8, 0x6Du8, 0x36u8, 0x35u8, 2u8, 0u8, CSP] + bytes::little_endian(
        LOAD as nat,
        2,
    ) + bytes::little_endian(reset as nat, 2)
}

/// The header, the data, the globals and the code, end to end.
pub open spec fn contents(program: Parts, code: Seq<u8>, reset: u16) -> Seq<u8> {
    header(reset) + program.data + program.globals + code
}

pub fn image(code: &Code, program: &Program) -> (file: Vec<u8>)
    ensures
        file@ == contents(program@, code.bytes@, code.reset),
{
    let mut out = Bytes::default();
    let name: [u8; 8] = [0x73, 0x69, 0x6D, 0x36, 0x35, 2, 0, CSP];
    out.bytes(&name);
    assert(out@ =~= seq![0x73u8, 0x69u8, 0x6Du8, 0x36u8, 0x35u8, 2u8, 0u8, CSP]);
    out.le16(LOAD);
    out.le16(code.reset);
    out.bytes(program.data());
    out.bytes(program.globals());
    out.bytes(code.bytes.as_slice());
    out.finish()
}

/// What is loaded sits where its address says: the byte at an address of
/// the image is that many past the header.
pub proof fn the_code_lies_where_the_machine_starts(program: Parts, code: Seq<u8>, at: int)
    requires
        super::lower::origin(program) <= 0xFFFF,
        0 <= at < code.len(),
    ensures
        header(super::lower::origin(program) as u16).len() == 12,
        contents(program, code, super::lower::origin(program) as u16)[12 + (super::lower::origin(
            program,
        ) + at - LOAD)] == code[at],
{
    bytes::little_endian_length(LOAD as nat, 2);
    bytes::little_endian_length(super::lower::origin(program) as u16 as nat, 2);
}

/// What is at the address of a datum is the datum.
pub proof fn a_datum_has_its_place(program: Parts, code: Seq<u8>, reset: u16, data: DataId)
    requires
        program.wf(),
        data.0 < program.spans.len(),
    ensures
        ({
            let at = 12 + (Machine { program, data: LOAD }).address(data) - LOAD;
            contents(program, code, reset).subrange(at, at + program.datum(data).len)
                == program.datum_bytes(data)
        }),
{
    bytes::little_endian_length(LOAD as nat, 2);
    bytes::little_endian_length(reset as nat, 2);
    assert(program.span_fits(program.spans[data.0 as int]));
    let at = 12 + (Machine { program, data: LOAD }).address(data) - LOAD;
    assert(contents(program, code, reset).subrange(at, at + program.datum(data).len)
        =~= program.datum_bytes(data));
}

} // verus!
