//! What a system makes of a file it is asked to run.
//!
//! A file says of itself how it is to be loaded: its header leads to the
//! header of a segment, which says which of its bytes go where in memory, and
//! it names the address that the machine is started at.

use super::elf;
use super::lower;
use crate::ir::{DataId, Parts};
use crate::targets::bytes;
use vstd::prelude::*;

verus! {

/// A number in a file, the low byte first.
pub open spec fn number_at(file: Seq<u8>, at: int, count: int) -> nat {
    bytes::from_little_endian(file.subrange(at, at + count))
}

/// Which bytes of a file go where, and what may be done with them there.
pub struct Segment {
    pub flags: nat,
    pub offset: nat,
    pub address: nat,
    /// As many as the file has, and as many as memory gets.
    pub in_file: nat,
    pub in_memory: nat,
    pub align: nat,
}

impl Segment {
    pub open spec fn runs(self) -> bool {
        self.flags % 2 == 1
    }

    pub open spec fn writes(self) -> bool {
        self.flags / 2 % 2 == 1
    }

    pub open spec fn reads(self) -> bool {
        self.flags / 4 % 2 == 1
    }

    /// Whether a system maps it: whole pages of the file go to whole pages of
    /// memory, above the lowest page that may be mapped, and the file has what
    /// the segment says it has.
    pub open spec fn is_mapped(self, file: Seq<u8>) -> bool {
        &&& self.align > 0
        &&& self.align % 0x1000 == 0
        &&& self.offset % self.align == self.address % self.align
        &&& self.offset + self.in_file <= file.len()
        &&& self.in_file <= self.in_memory
        &&& 0x1_0000 <= self.address
        &&& self.address + self.in_memory <= 0x8000_0000_0000
    }
}

/// The header of the segment that starts at a place.
pub open spec fn segment_at(file: Seq<u8>, at: int) -> Segment {
    Segment {
        flags: number_at(file, at + 4, 4),
        offset: number_at(file, at + 8, 8),
        address: number_at(file, at + 16, 8),
        in_file: number_at(file, at + 32, 8),
        in_memory: number_at(file, at + 40, 8),
        align: number_at(file, at + 48, 8),
    }
}

/// Whether a file is an executable for this machine: 64 bits, the low byte
/// first, x86-64, to be loaded where it says.
pub open spec fn is_executable(file: Seq<u8>) -> bool {
    &&& file.len() >= 64
    &&& file.take(4) == seq![0x7Fu8, 0x45u8, 0x4Cu8, 0x46u8]
    &&& file[4] == 2
    &&& file[5] == 1
    &&& file[6] == 1
    &&& number_at(file, 16, 2) == 2
    &&& number_at(file, 18, 2) == 62
    &&& number_at(file, 20, 4) == 1
}

/// Where the machine is started.
pub open spec fn entry(file: Seq<u8>) -> nat {
    number_at(file, 24, 8)
}

/// The one segment a file asks for.
pub open spec fn segment(file: Seq<u8>) -> Segment {
    segment_at(file, number_at(file, 32, 8) as int)
}

/// Whether a system loads a file, and starts it somewhere it may run.
pub open spec fn is_loadable(file: Seq<u8>) -> bool {
    let held = segment(file);
    let headers = number_at(file, 32, 8) as int;
    &&& is_executable(file)
    &&& number_at(file, 52, 2) == 64
    &&& number_at(file, 54, 2) == 56
    &&& number_at(file, 56, 2) == 1
    &&& headers + 56 <= file.len()
    &&& number_at(file, headers, 4) == 1
    &&& held.is_mapped(file)
    &&& held.reads()
    &&& held.runs()
    &&& held.address <= entry(file) <= held.address + held.in_memory
}

/// The byte at an address, once a file is loaded.
pub open spec fn byte_at(file: Seq<u8>, address: int) -> u8 {
    let held = segment(file);
    if held.address <= address < held.address + held.in_file {
        file[held.offset + address - held.address]
    } else {
        0
    }
}

/// So many bytes from an address on.
pub open spec fn memory_from(file: Seq<u8>, address: int, count: nat) -> Seq<u8> {
    Seq::new(count, |i: int| byte_at(file, address + i))
}

/// A number at the end of what a file starts with is read back where it
/// stands, and what comes before it is what the file starts with too.
proof fn a_number_is_read(file: Seq<u8>, before: Seq<u8>, value: nat, count: nat)
    requires
        count == 2 || count == 4 || count == 8,
        count == 2 ==> value < 0x1_0000,
        count == 4 ==> value < 0x1_0000_0000,
        count == 8 ==> value < 0x1_0000_0000_0000_0000,
        (before + bytes::little_endian(value, count)).is_prefix_of(file),
    ensures
        bytes::little_endian(value, count).len() == count,
        before.is_prefix_of(file),
        before.len() + count <= file.len(),
        number_at(file, before.len() as int, count as int) == value,
{
    reveal_with_fuel(vstd::arithmetic::power::pow, 9);
    assert(vstd::arithmetic::power::pow(256, 2) == 0x1_0000);
    assert(vstd::arithmetic::power::pow(256, 4) == 0x1_0000_0000);
    assert(vstd::arithmetic::power::pow(256, 8) == 0x1_0000_0000_0000_0000);
    bytes::little_endian_reads_back(value, count);
    let start = before + bytes::little_endian(value, count);
    assert forall|i: int| 0 <= i < before.len() implies before[i] == file[i] by {
        assert(start[i] == file[i]);
    }
    assert forall|i: int| 0 <= i < count implies file[before.len() + i]
        == #[trigger] bytes::little_endian(value, count)[i] by {
        assert(start[before.len() + i] == file[before.len() + i]);
    }
    assert(file.subrange(before.len() as int, (before.len() + count) as int)
        =~= bytes::little_endian(value, count));
}

/// The header of a file says what it is and where it starts.
proof fn the_file_header_reads_back(file: Seq<u8>)
    requires
        elf::elf_header().is_prefix_of(file),
    ensures
        is_executable(file),
        entry(file) == 0x1_0078,
        number_at(file, 32, 8) == 64,
        number_at(file, 52, 2) == 64,
        number_at(file, 54, 2) == 56,
        number_at(file, 56, 2) == 1,
{
    let ident = seq![
        0x7Fu8, 0x45u8, 0x4Cu8, 0x46u8, 2u8, 1u8, 1u8, 0u8,
        0u8, 0u8, 0u8, 0u8, 0u8, 0u8, 0u8, 0u8,
    ];
    let kind = ident + bytes::little_endian(2, 2);
    let machine = kind + bytes::little_endian(0x3E, 2);
    let version = machine + bytes::little_endian(1, 4);
    let entry = version + bytes::little_endian(0x1_0078, 8);
    let headers = entry + bytes::little_endian(64, 8);
    let sections = headers + bytes::little_endian(0, 8);
    let flags = sections + bytes::little_endian(0, 4);
    let own = flags + bytes::little_endian(64, 2);
    let each = own + bytes::little_endian(56, 2);
    let many = each + bytes::little_endian(1, 2);
    let section = many + bytes::little_endian(0, 2);
    let number = section + bytes::little_endian(0, 2);
    assert(elf::elf_header() == number + bytes::little_endian(0, 2));
    a_number_is_read(file, number, 0, 2);
    a_number_is_read(file, section, 0, 2);
    a_number_is_read(file, many, 0, 2);
    a_number_is_read(file, each, 1, 2);
    a_number_is_read(file, own, 56, 2);
    a_number_is_read(file, flags, 64, 2);
    a_number_is_read(file, sections, 0, 4);
    a_number_is_read(file, headers, 0, 8);
    a_number_is_read(file, entry, 64, 8);
    a_number_is_read(file, version, 0x1_0078, 8);
    a_number_is_read(file, machine, 1, 4);
    a_number_is_read(file, kind, 0x3E, 2);
    a_number_is_read(file, ident, 2, 2);
    assert(file.take(4) =~= seq![0x7Fu8, 0x45u8, 0x4Cu8, 0x46u8]) by {
        assert forall|i: int| 0 <= i < 4 implies file[i] == ident[i] by {}
    }
    assert(file[4] == ident[4] && file[5] == ident[5] && file[6] == ident[6]);
}

/// The header of the segment says which bytes go where.
proof fn the_segment_header_reads_back(file: Seq<u8>, before: Seq<u8>, flags: u32, total: nat)
    requires
        before.len() == 64,
        total <= u32::MAX,
        (before + elf::program_header(flags, total)).is_prefix_of(file),
    ensures
        file.len() >= 120,
        number_at(file, 64, 4) == 1,
        segment_at(file, 64) == (Segment {
            flags: flags as nat,
            offset: 0,
            address: 0x1_0000,
            in_file: total,
            in_memory: total,
            align: 0x1000,
        }),
{
    let kind = before + bytes::little_endian(1, 4);
    let leave = kind + bytes::little_endian(flags as nat, 4);
    let offset = leave + bytes::little_endian(0, 8);
    let address = offset + bytes::little_endian(0x1_0000, 8);
    let physical = address + bytes::little_endian(0x1_0000, 8);
    let in_file = physical + bytes::little_endian(total, 8);
    let in_memory = in_file + bytes::little_endian(total, 8);
    assert(before + elf::program_header(flags, total) =~= in_memory + bytes::little_endian(
        0x1000,
        8,
    ));
    a_number_is_read(file, in_memory, 0x1000, 8);
    a_number_is_read(file, in_file, total, 8);
    a_number_is_read(file, physical, total, 8);
    a_number_is_read(file, address, 0x1_0000, 8);
    a_number_is_read(file, offset, 0x1_0000, 8);
    a_number_is_read(file, leave, 0, 8);
    a_number_is_read(file, kind, flags as nat, 4);
    a_number_is_read(file, before, 1, 4);
}

/// What a system makes of a file that was written: it loads it, may write to
/// it where there are globals to write to and nowhere else, and finds in
/// memory, from where it starts on, the code, then the data, then the globals.
pub proof fn what_is_written_is_loaded(program: Parts, file: Seq<u8>)
    requires
        super::image(program) == Some(file),
    ensures
        is_loadable(file),
        segment(file).writes() == (program.globals.len() > 0),
        ({
            let (code, relocs) = lower::lowered(program)->Some_0;
            let filled = elf::resolved(program, code, relocs, relocs.len() as int);
            let loaded = filled + program.data + program.globals;
            &&& segment(file).address + segment(file).in_file == entry(file) + loaded.len()
            &&& memory_from(file, entry(file) as int, loaded.len()) == loaded
        }),
{
    let (code, relocs) = lower::lowered(program)->Some_0;
    let filled = elf::resolved(program, code, relocs, relocs.len() as int);
    let loaded = filled + program.data + program.globals;
    let total = elf::total(program, code);
    elf::the_segment_covers_the_file(program, code, relocs);
    elf::resolving_keeps_the_length(program, code, relocs, relocs.len() as int);
    assert(file == elf::contents(program, code, relocs));
    assert(elf::fits(program, code, relocs));
    let first = elf::elf_header();
    let second = elf::program_header(elf::flags(program), total);
    assert(file =~= first + second + loaded);
    headers_come_first(first, second, loaded);
    the_file_header_reads_back(first + second + loaded);
    the_segment_header_reads_back(
        first + second + loaded,
        first,
        elf::flags(program),
        total,
    );
    what_follows_the_headers(first + second, loaded);
}

proof fn headers_come_first(first: Seq<u8>, second: Seq<u8>, rest: Seq<u8>)
    ensures
        first.is_prefix_of(first + second + rest),
        (first + second).is_prefix_of(first + second + rest),
{
}

/// What follows the headers is in memory from the entry on.
proof fn what_follows_the_headers(headers: Seq<u8>, loaded: Seq<u8>)
    requires
        headers.len() == 120,
        entry(headers + loaded) == 0x1_0078,
        segment(headers + loaded).offset == 0,
        segment(headers + loaded).address == 0x1_0000,
        segment(headers + loaded).in_file == 120 + loaded.len(),
    ensures
        memory_from(headers + loaded, entry(headers + loaded) as int, loaded.len()) == loaded,
{
    let file = headers + loaded;
    assert forall|i: int| 0 <= i < loaded.len() implies #[trigger] byte_at(
        file,
        entry(file) + i,
    ) == loaded[i] by {
        assert(file[120 + i] == loaded[i]);
    }
    assert(memory_from(file, entry(file) as int, loaded.len()) =~= loaded);
}

/// What is at the address of a datum, once the file is loaded, is the datum.
pub proof fn a_datum_is_loaded(program: Parts, file: Seq<u8>, data: DataId)
    requires
        program.wf(),
        super::image(program) == Some(file),
        data.0 < program.spans.len(),
    ensures
        memory_from(
            file,
            (entry(file) + elf::place(
                program,
                lower::lowered(program)->Some_0.0.len(),
                data,
            )) as int,
            program.datum(data).len as nat,
        ) == program.datum_bytes(data),
{
    let (code, relocs) = lower::lowered(program)->Some_0;
    let filled = elf::resolved(program, code, relocs, relocs.len() as int);
    let loaded = filled + program.data + program.globals;
    let place = elf::place(program, code.len(), data);
    let count = program.datum(data).len as nat;
    what_is_written_is_loaded(program, file);
    elf::resolving_keeps_the_length(program, code, relocs, relocs.len() as int);
    assert(program.span_fits(program.spans[data.0 as int]));
    assert(loaded.subrange(place as int, (place + count) as int) =~= program.datum_bytes(data));
    a_part_is_loaded(file, entry(file) as int, loaded, place, count);
}

proof fn a_part_is_loaded(file: Seq<u8>, address: int, loaded: Seq<u8>, place: nat, count: nat)
    requires
        memory_from(file, address, loaded.len()) == loaded,
        place + count <= loaded.len(),
    ensures
        memory_from(file, address + place, count) == loaded.subrange(
            place as int,
            (place + count) as int,
        ),
{
    let memory = memory_from(file, address, loaded.len());
    assert forall|i: int| 0 <= i < count implies #[trigger] byte_at(file, address + place + i)
        == loaded[place + i] by {
        assert(memory[place + i] == loaded[place + i]);
        assert(address + place + i == address + (place + i));
    }
    assert(memory_from(file, address + place, count) =~= loaded.subrange(
        place as int,
        (place + count) as int,
    ));
}

} // verus!
