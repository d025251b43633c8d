//! Four pieces end to end with no padding: the ELF header, one program
//! header, the code and the data, in a single segment covering the whole
//! file. Section headers, symbols, alignment and notes are all optional for
//! execution, so none of them are here. That is the whole trick behind the
//! size.

use super::encode;
use super::{Code, Reloc};
use crate::ir::{DataId, Origin, Parts, Program};
use crate::targets::bytes;
use crate::targets::bytes::Bytes;
use vstd::prelude::*;

verus! {

/// Where the single segment is mapped. Must sit at or above `mmap_min_addr`
/// (64 KiB by default) and match the file offset modulo the page size.
pub const LOAD_ADDR: u32 = 0x1_0000;

pub const EHDR_LEN: u16 = 64;
pub const PHDR_LEN: u16 = 56;
pub const PAGE_SIZE: u64 = 0x1000;

/// Read and execute, and write only where there is something to write to.
pub open spec fn flags(program: Parts) -> u32 {
    if program.globals.len() > 0 {
        7
    } else {
        5
    }
}

/// `Elf64_Ehdr`.
pub open spec fn elf_header() -> Seq<u8> {
    let entry = LOAD_ADDR as nat + EHDR_LEN as nat + PHDR_LEN as nat;
    // e_ident: magic, ELFCLASS64, ELFDATA2LSB, EV_CURRENT, ELFOSABI_SYSV, ABI
    // version, padding.
    seq![
        0x7Fu8, 0x45u8, 0x4Cu8, 0x46u8, 2u8, 1u8, 1u8, 0u8,
        0u8, 0u8, 0u8, 0u8, 0u8, 0u8, 0u8, 0u8,
    ] + bytes::little_endian(2, 2)  // e_type: ET_EXEC
     + bytes::little_endian(0x3E, 2)  // e_machine: EM_X86_64
     + bytes::little_endian(1, 4)  // e_version
     + bytes::little_endian(entry, 8)  // e_entry
     + bytes::little_endian(EHDR_LEN as nat, 8)  // e_phoff
     + bytes::little_endian(0, 8)  // e_shoff
     + bytes::little_endian(0, 4)  // e_flags
     + bytes::little_endian(EHDR_LEN as nat, 2)  // e_ehsize
     + bytes::little_endian(PHDR_LEN as nat, 2)  // e_phentsize
     + bytes::little_endian(1, 2)  // e_phnum
     + bytes::little_endian(0, 2)  // e_shentsize
     + bytes::little_endian(0, 2)  // e_shnum
     + bytes::little_endian(0, 2)  // e_shstrndx
}

/// `Elf64_Phdr`: one segment, its own headers included.
pub open spec fn program_header(flags: u32, total: nat) -> Seq<u8> {
    bytes::little_endian(1, 4)  // p_type: PT_LOAD
     + bytes::little_endian(flags as nat, 4)  // p_flags
     + bytes::little_endian(0, 8)  // p_offset
     + bytes::little_endian(LOAD_ADDR as nat, 8)  // p_vaddr
     + bytes::little_endian(LOAD_ADDR as nat, 8)  // p_paddr
     + bytes::little_endian(total, 8)  // p_filesz
     + bytes::little_endian(total, 8)  // p_memsz
     + bytes::little_endian(PAGE_SIZE as nat, 8)  // p_align
}

/// Where a datum sits, counted from the start of the code: the data follow
/// the code, and the globals the data.
pub open spec fn place(program: Parts, code: nat, data: DataId) -> nat {
    let span = program.datum(data);
    match span.origin {
        Origin::Data => code + span.start as nat,
        Origin::Globals => code + program.data.len() + span.start as nat,
    }
}

/// The code, once the first `count` of its distances are filled in.
pub open spec fn resolved(program: Parts, code: Seq<u8>, relocs: Seq<Reloc>, count: int) -> Seq<u8>
    decreases count,
{
    if count <= 0 {
        code
    } else {
        let reloc = relocs[count - 1];
        encode::patched(
            resolved(program, code, relocs, count - 1),
            reloc.offset as nat,
            encode::away(reloc.offset as nat, place(program, code.len(), reloc.data)),
        )
    }
}

/// How long the whole file is.
pub open spec fn total(program: Parts, code: Seq<u8>) -> nat {
    EHDR_LEN as nat + PHDR_LEN as nat + code.len() + program.data.len() + program.globals.len()
}

/// Whether a distance has room for itself and names something near enough.
pub open spec fn reloc_fits(program: Parts, code: Seq<u8>, reloc: Reloc) -> bool {
    &&& reloc.offset + 4 <= code.len()
    &&& reloc.data.0 < program.spans.len()
    &&& i32::MIN <= encode::away(reloc.offset as nat, place(program, code.len(), reloc.data))
        <= i32::MAX
}

/// Whether a 32-bit length and 32-bit distances do.
pub open spec fn fits(program: Parts, code: Seq<u8>, relocs: Seq<Reloc>) -> bool {
    &&& total(program, code) <= u32::MAX
    &&& forall|i: int|
        0 <= i < relocs.len() ==> reloc_fits(program, code, #[trigger] relocs[i])
}

/// The headers, the code with its distances filled in, the data, and the
/// globals.
pub open spec fn contents(program: Parts, code: Seq<u8>, relocs: Seq<Reloc>) -> Seq<u8> {
    elf_header() + program_header(flags(program), total(program, code)) + resolved(
        program,
        code,
        relocs,
        relocs.len() as int,
    ) + program.data + program.globals
}

/// Filling distances in leaves the code as long as it was.
pub(super) proof fn resolving_keeps_the_length(program: Parts, code: Seq<u8>, relocs: Seq<Reloc>, count: int)
    ensures
        resolved(program, code, relocs, count).len() == code.len(),
    decreases count,
{
    if count > 0 {
        resolving_keeps_the_length(program, code, relocs, count - 1);
    }
}

/// The headers are as long as they say, and the segment covers the file
/// exactly, so no byte is wasted.
pub proof fn the_segment_covers_the_file(program: Parts, code: Seq<u8>, relocs: Seq<Reloc>)
    ensures
        elf_header().len() == EHDR_LEN,
        program_header(flags(program), total(program, code)).len() == PHDR_LEN,
        contents(program, code, relocs).len() == total(program, code),
{
    assert forall|value: nat, count: nat|
        #![trigger bytes::little_endian(value, count)]
        bytes::little_endian(value, count).len() == count by {
        bytes::little_endian_length(value, count);
    }
    resolving_keeps_the_length(program, code, relocs, relocs.len() as int);
}

/// What is at the place of a datum is the datum.
pub proof fn a_datum_has_its_place(
    program: Parts,
    code: Seq<u8>,
    relocs: Seq<Reloc>,
    data: DataId,
)
    requires
        program.wf(),
        data.0 < program.spans.len(),
    ensures
        ({
            let at = EHDR_LEN + PHDR_LEN + place(program, code.len(), data);
            contents(program, code, relocs).subrange(
                at as int,
                at + program.datum(data).len,
            ) == program.datum_bytes(data)
        }),
{
    the_segment_covers_the_file(program, code, relocs);
    resolving_keeps_the_length(program, code, relocs, relocs.len() as int);
    assert(program.span_fits(program.spans[data.0 as int]));
    let at = EHDR_LEN + PHDR_LEN + place(program, code.len(), data);
    assert(contents(program, code, relocs).subrange(at as int, at + program.datum(data).len)
        =~= program.datum_bytes(data));
}

/// A distance that no later one overlaps leads from the end of its
/// instruction to the first byte of its datum.
pub proof fn a_distance_leads_to_its_datum(
    program: Parts,
    code: Seq<u8>,
    relocs: Seq<Reloc>,
    which: int,
)
    requires
        program.wf(),
        fits(program, code, relocs),
        0 <= which < relocs.len(),
        forall|i: int|
            which < i < relocs.len() ==> (#[trigger] relocs[i]).offset + 4 <= relocs[which].offset
                || relocs[which].offset + 4 <= relocs[i].offset,
        program.datum(relocs[which].data).len > 0,
    ensures
        ({
            let text = EHDR_LEN + PHDR_LEN;
            let at = relocs[which].offset;
            let file = contents(program, code, relocs);
            let span = program.datum(relocs[which].data);
            let distance = encode::away(
                at as nat,
                place(program, code.len(), relocs[which].data),
            );
            &&& file.subrange(text + at, text + at + 4) == bytes::little_endian(
                (distance % 0x1_0000_0000) as nat,
                4,
            )
            &&& file[text + at + 4 + distance] == match span.origin {
                Origin::Data => program.data[span.start as int],
                Origin::Globals => program.globals[span.start as int],
            }
        }),
{
    the_segment_covers_the_file(program, code, relocs);
    resolving_keeps_the_length(program, code, relocs, relocs.len() as int);
    let at = relocs[which].offset as nat;
    let distance = encode::away(at, place(program, code.len(), relocs[which].data));
    bytes::little_endian_length((distance % 0x1_0000_0000) as nat, 4);
    a_distance_stays(program, code, relocs, which, relocs.len() as int);
    let text = (EHDR_LEN + PHDR_LEN) as int;
    let file = contents(program, code, relocs);
    let filled = resolved(program, code, relocs, relocs.len() as int);
    assert(reloc_fits(program, code, relocs[which]));
    assert(file.subrange(text + at, text + at + 4) =~= filled.subrange(at as int, at as int + 4));
    assert(program.span_fits(program.spans[relocs[which].data.0 as int]));
}

pub(super) proof fn a_distance_stays(
    program: Parts,
    code: Seq<u8>,
    relocs: Seq<Reloc>,
    which: int,
    count: int,
)
    requires
        fits(program, code, relocs),
        0 <= which < count <= relocs.len(),
        forall|i: int|
            which < i < relocs.len() ==> (#[trigger] relocs[i]).offset + 4 <= relocs[which].offset
                || relocs[which].offset + 4 <= relocs[i].offset,
    ensures
        resolved(program, code, relocs, count).subrange(
            relocs[which].offset as int,
            relocs[which].offset + 4,
        ) == bytes::little_endian(
            (encode::away(
                relocs[which].offset as nat,
                place(program, code.len(), relocs[which].data),
            ) % 0x1_0000_0000) as nat,
            4,
        ),
    decreases count,
{
    assert(reloc_fits(program, code, relocs[which]));
    assert(reloc_fits(program, code, relocs[count - 1]));
    resolving_keeps_the_length(program, code, relocs, count - 1);
    resolving_keeps_the_length(program, code, relocs, count);
    let at = relocs[which].offset as int;
    let distance = encode::away(at as nat, place(program, code.len(), relocs[which].data));
    let filling = bytes::little_endian((distance % 0x1_0000_0000) as nat, 4);
    bytes::little_endian_length((distance % 0x1_0000_0000) as nat, 4);
    let now = resolved(program, code, relocs, count);
    if which < count - 1 {
        a_distance_stays(program, code, relocs, which, count - 1);
        let before = resolved(program, code, relocs, count - 1);
        assert(now.subrange(at, at + 4) =~= before.subrange(at, at + 4));
    } else {
        assert(now.subrange(at, at + 4) =~= filling);
    }
}

fn put_headers(out: &mut Bytes, flags: u32, total: u32)
    ensures
        final(out)@ == old(out)@ + elf_header() + program_header(flags, total as nat),
{
    let ghost before = out@;
    let entry: u64 = LOAD_ADDR as u64 + EHDR_LEN as u64 + PHDR_LEN as u64;
    let ident: [u8; 16] = [
        0x7F, 0x45, 0x4C, 0x46, 2, 1, 1, 0,
        0, 0, 0, 0, 0, 0, 0, 0,
    ];
    out.bytes(&ident);
    out.le16(2);
    out.le16(0x3E);
    out.le32(1);
    out.le64(entry);
    out.le64(EHDR_LEN as u64);
    out.le64(0);
    out.le32(0);
    out.le16(EHDR_LEN);
    out.le16(PHDR_LEN);
    out.le16(1);
    out.le16(0);
    out.le16(0);
    out.le16(0);
    assert(out@ =~= before + elf_header());
    let ghost half = out@;
    out.le32(1);
    out.le32(flags);
    out.le64(0);
    out.le64(LOAD_ADDR as u64);
    out.le64(LOAD_ADDR as u64);
    out.le64(total as u64);
    out.le64(total as u64);
    out.le64(PAGE_SIZE);
    assert(out@ =~= half + program_header(flags, total as nat));
}

/// The file, where 32 bits hold its length and its distances.
pub fn image(code: &Code, program: &Program) -> (file: Option<Vec<u8>>)
    requires
        program@.wf(),
    ensures
        file is Some <==> fits(program@, code.bytes@, code.relocs@),
        file matches Some(written) ==> written@ == contents(
            program@,
            code.bytes@,
            code.relocs@,
        ),
{
    let headers: usize = EHDR_LEN as usize + PHDR_LEN as usize;
    let most: usize = u32::MAX as usize - headers;
    let (data, globals) = (program.data().len(), program.globals().len());
    if code.bytes.len() > most || data > most - code.bytes.len() || globals > most
        - code.bytes.len() - data {
        return None;
    }
    let total: u32 = (headers + code.bytes.len() + data + globals) as u32;
    let mut text = encode::Encoder::default();
    text.append(code.bytes.as_slice());
    assert(text@ =~= code.bytes@);
    let mut at: usize = 0;
    while at < code.relocs.len()
        invariant
            program@.wf(),
            program@.data.len() == data,
            total == self::total(program@, code.bytes@),
            at <= code.relocs@.len(),
            text@ == resolved(program@, code.bytes@, code.relocs@, at as int),
            text@.len() == code.bytes@.len(),
            forall|i: int|
                0 <= i < at ==> reloc_fits(
                    program@,
                    code.bytes@,
                    #[trigger] code.relocs@[i],
                ),
        decreases code.relocs@.len() - at,
    {
        let reloc = code.relocs[at];
        if code.bytes.len() < 4 || reloc.offset > code.bytes.len() - 4
            || !program.has_datum(reloc.data) {
            assert(!reloc_fits(program@, code.bytes@, code.relocs@[at as int]));
            return None;
        }
        let span = program.datum(reloc.data);
        proof {
            assert(program@.span_fits(program@.spans[reloc.data.0 as int]));
        }
        let target: usize = match span.origin {
            Origin::Data => code.bytes.len() + span.start as usize,
            Origin::Globals => code.bytes.len() + data + span.start as usize,
        };
        if !text.patch(reloc.offset, target) {
            assert(!reloc_fits(program@, code.bytes@, code.relocs@[at as int]));
            return None;
        }
        at = at + 1;
    }
    let flags: u32 = if globals > 0 {
        7
    } else {
        5
    };
    let mut out = Bytes::default();
    put_headers(&mut out, flags, total);
    let text = text.finish();
    out.bytes(text.as_slice());
    out.bytes(program.data());
    out.bytes(program.globals());
    assert(out@ =~= contents(program@, code.bytes@, code.relocs@));
    Some(out.finish())
}

} // verus!
