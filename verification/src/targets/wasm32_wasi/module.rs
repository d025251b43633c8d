//! Only the sections this compiler needs are written, and any that would
//! come out empty are left out entirely.

use super::{Body, Code, Import, Layout, Written, END, FUNC_TYPE, I32, I32_CONST};
use crate::targets::bytes;
use crate::targets::bytes::{len32, Bytes};
use vstd::prelude::*;

verus! {

/// Section ids, in the order a module must list them.
pub const TYPE: u8 = 1;
pub const IMPORT: u8 = 2;
pub const FUNCTION: u8 = 3;
pub const MEMORY: u8 = 5;
pub const EXPORT: u8 = 7;
pub const CODE: u8 = 10;
pub const DATA: u8 = 11;

pub const KIND_FUNC: u8 = 0x00;
pub const KIND_MEMORY: u8 = 0x02;

pub const PAGE_SIZE: u32 = 65536;

/// A number from zero, as the signed one of the same 32 bits.
pub open spec fn signed(value: u32) -> int {
    if value < 0x8000_0000 {
        value as int
    } else {
        value - 0x1_0000_0000
    }
}

/// The same, where it is to be written.
pub fn as_signed(value: u32) -> (narrow: i32)
    ensures
        narrow == signed(value),
{
    if value < 0x8000_0000 {
        value as i32
    } else {
        -((u32::MAX - value) as i32) - 1
    }
}

/// A name, behind its length.
pub open spec fn name(text: Seq<char>) -> Seq<u8> {
    bytes::sized(vstd::utf8::encode_utf8(text))
}

/// As many words as `count`.
pub open spec fn words(count: nat) -> Seq<u8> {
    Seq::new(count, |i: int| I32)
}

/// A function type: words in, words out.
pub open spec fn signature(params: nat, answers: nat) -> Seq<u8> {
    seq![FUNC_TYPE] + bytes::unsigned_leb(params) + words(params) + bytes::unsigned_leb(answers)
        + words(answers)
}

impl Layout {
    /// The types of the first `count` imports.
    pub open spec fn import_types(self, count: int) -> Seq<u8>
        decreases count,
    {
        if count <= 0 {
            seq![]
        } else {
            let shape = self.imports[count - 1].shape();
            self.import_types(count - 1) + signature(shape.0, shape.1)
        }
    }

    /// The types of the first `count` functions.
    pub open spec fn body_types(self, count: int) -> Seq<u8>
        decreases count,
    {
        if count <= 0 {
            seq![]
        } else {
            let body = self.bodies[count - 1];
            self.body_types(count - 1) + signature(body.params as nat, body.answers as nat)
        }
    }

    /// One signature per imported function, then one per function.
    pub open spec fn types(self) -> Seq<u8> {
        bytes::unsigned_leb(self.imports.len() + self.bodies.len()) + self.import_types(
            self.imports.len() as int,
        ) + self.body_types(self.bodies.len() as int)
    }

    /// The first `count` imports, each a function of its own type.
    pub open spec fn import_list(self, count: int) -> Seq<u8>
        decreases count,
    {
        if count <= 0 {
            seq![]
        } else {
            self.import_list(count - 1) + name("wasi_snapshot_preview1"@) + name(
                self.imports[count - 1].text(),
            ) + seq![KIND_FUNC] + bytes::unsigned_leb((count - 1) as nat)
        }
    }

    pub open spec fn import_section(self) -> Seq<u8> {
        if self.imports.len() == 0 {
            seq![]
        } else {
            bytes::unsigned_leb(self.imports.len()) + self.import_list(self.imports.len() as int)
        }
    }

    /// Types come in index order, so each function has the type of its own
    /// index.
    pub open spec fn function_list(self, count: int) -> Seq<u8>
        decreases count,
    {
        if count <= 0 {
            seq![]
        } else {
            self.function_list(count - 1) + bytes::unsigned_leb(
                (self.imports.len() + count - 1) as nat,
            )
        }
    }

    pub open spec fn function_section(self) -> Seq<u8> {
        bytes::unsigned_leb(self.bodies.len()) + self.function_list(self.bodies.len() as int)
    }

    /// The highest address anything starts out at, of the first `count`
    /// segments.
    pub open spec fn high(self, count: int) -> int
        decreases count,
    {
        if count <= 0 {
            0
        } else {
            let segment = self.data[count - 1];
            let end = segment.offset + segment.bytes.len() as int;
            let below = self.high(count - 1);
            if end > below {
                end
            } else {
                below
            }
        }
    }

    /// How many pages of memory hold that, and never none.
    pub open spec fn pages(self) -> int {
        let whole = (self.high(self.data.len() as int) + PAGE_SIZE - 1) / PAGE_SIZE as int;
        if whole < 1 {
            1
        } else {
            whole
        }
    }

    pub open spec fn memory_section(self) -> Seq<u8> {
        if self.memory {
            bytes::unsigned_leb(1) + seq![0x00u8] + bytes::unsigned_leb(self.pages() as nat)
        } else {
            seq![]
        }
    }

    /// WASI finds these by name. Memory is only exported where there is one.
    pub open spec fn export_section(self) -> Seq<u8> {
        let start = name("_start"@) + seq![KIND_FUNC] + bytes::unsigned_leb(
            self.imports.len() + self.entry as nat,
        );
        if self.memory {
            bytes::unsigned_leb(2) + name("memory"@) + seq![KIND_MEMORY] + bytes::unsigned_leb(0)
                + start
        } else {
            bytes::unsigned_leb(1) + start
        }
    }

    /// The first `count` functions: each its locals, the instructions, and
    /// the terminating `end`.
    pub open spec fn code_list(self, count: int) -> Seq<u8>
        decreases count,
    {
        if count <= 0 {
            seq![]
        } else {
            self.code_list(count - 1) + bytes::sized(self.bodies[count - 1].framed())
        }
    }

    pub open spec fn code_section(self) -> Seq<u8> {
        bytes::unsigned_leb(self.bodies.len()) + self.code_list(self.bodies.len() as int)
    }

    /// The first `count` segments, each with the constant offset it loads
    /// at, active in memory zero.
    pub open spec fn data_list(self, count: int) -> Seq<u8>
        decreases count,
    {
        if count <= 0 {
            seq![]
        } else {
            let segment = self.data[count - 1];
            self.data_list(count - 1) + bytes::unsigned_leb(0) + seq![I32_CONST]
                + bytes::signed_leb(signed(segment.offset)) + seq![END] + bytes::sized(
                segment.bytes,
            )
        }
    }

    pub open spec fn data_section(self) -> Seq<u8> {
        if self.data.len() == 0 {
            seq![]
        } else {
            bytes::unsigned_leb(self.data.len()) + self.data_list(self.data.len() as int)
        }
    }

    /// A wasm file: the preamble, and the sections that are not empty.
    pub open spec fn module(self) -> Seq<u8> {
        seq![0x00u8, 0x61u8, 0x73u8, 0x6Du8, 1u8, 0u8, 0u8, 0u8] + bytes::section(TYPE, self.types())
            + bytes::section(IMPORT, self.import_section()) + bytes::section(
            FUNCTION,
            self.function_section(),
        ) + bytes::section(MEMORY, self.memory_section()) + bytes::section(
            EXPORT,
            self.export_section(),
        ) + bytes::section(CODE, self.code_section()) + bytes::section(DATA, self.data_section())
    }

    /// Whether every segment lies within what 32 bits address.
    pub open spec fn addressable(self) -> bool {
        forall|i: int|
            0 <= i < self.data.len() ==> (#[trigger] self.data[i]).offset
                + self.data[i].bytes.len() <= u32::MAX
    }

    /// Whether every count and length fits the 32 bits the format has.
    pub open spec fn fits(self) -> bool {
        &&& self.addressable()
        &&& self.imports.len() + self.bodies.len() <= u32::MAX
        &&& self.imports.len() + self.entry <= u32::MAX
        &&& self.data.len() <= u32::MAX
        &&& forall|i: int|
            0 <= i < self.bodies.len() ==> (#[trigger] self.bodies[i]).framed().len() <= u32::MAX
        &&& self.types().len() <= u32::MAX
        &&& self.import_section().len() <= u32::MAX
        &&& self.function_section().len() <= u32::MAX
        &&& self.code_section().len() <= u32::MAX
        &&& self.data_section().len() <= u32::MAX
    }
}

impl Written {
    /// A function's locals, its instructions, and the terminating `end`.
    pub open spec fn framed(self) -> Seq<u8> {
        let locals = if self.locals > 0 {
            bytes::unsigned_leb(1) + bytes::unsigned_leb(self.locals as nat) + seq![I32]
        } else {
            bytes::unsigned_leb(0)
        };
        locals + self.code + seq![END]
    }
}

fn put_signature(out: &mut Bytes, params: u32, answers: u32)
    ensures
        final(out)@ == old(out)@ + signature(params as nat, answers as nat),
{
    out.byte(FUNC_TYPE);
    out.uleb(params);
    put_words(out, params);
    out.uleb(answers);
    put_words(out, answers);
    assert(out@ =~= old(out)@ + signature(params as nat, answers as nat));
}

fn put_words(out: &mut Bytes, count: u32)
    ensures
        final(out)@ == old(out)@ + words(count as nat),
{
    let mut at: u32 = 0;
    while at < count
        invariant
            at <= count,
            out@ == old(out)@ + words(at as nat),
        decreases count - at,
    {
        out.byte(I32);
        at = at + 1;
        assert(out@ =~= old(out)@ + words(at as nat));
    }
}

fn types(code: &Code) -> (out: Bytes)
    requires
        code@.imports.len() + code@.bodies.len() <= u32::MAX,
    ensures
        out@ == code@.types(),
{
    let mut out = Bytes::default();
    let mut at: usize = 0;
    out.uleb(len32(code.imports.len() + code.bodies.len()));
    let ghost count = out@;
    while at < code.imports.len()
        invariant
            at <= code.imports@.len(),
            out@ == count + code@.import_types(at as int),
        decreases code.imports@.len() - at,
    {
        match code.imports[at] {
            Import::FdWrite => put_signature(&mut out, 4, 1),  // fd, iovs, iovs_len, nwritten
            Import::ProcExit => put_signature(&mut out, 1, 0),  // status
        }
        at = at + 1;
        assert(out@ =~= count + code@.import_types(at as int));
    }
    let ghost imported = out@;
    at = 0;
    while at < code.bodies.len()
        invariant
            at <= code.bodies@.len(),
            out@ == imported + code@.body_types(at as int),
        decreases code.bodies@.len() - at,
    {
        put_signature(&mut out, code.bodies[at].params, code.bodies[at].answers);
        at = at + 1;
        assert(out@ =~= imported + code@.body_types(at as int));
    }
    assert(out@ =~= code@.types());
    out
}

fn import_section(code: &Code) -> (out: Bytes)
    requires
        code@.imports.len() <= u32::MAX,
    ensures
        out@ == code@.import_section(),
{
    let mut out = Bytes::default();
    if code.imports.len() == 0 {
        return out;
    }
    out.uleb(len32(code.imports.len()));
    let ghost count = out@;
    let mut at: usize = 0;
    proof {
        reveal_strlit("wasi_snapshot_preview1");
        reveal_strlit("fd_write");
        reveal_strlit("proc_exit");
        short_names();
    }
    while at < code.imports.len()
        invariant
            at <= code.imports@.len() <= u32::MAX,
            out@ == count + code@.import_list(at as int),
            vstd::utf8::encode_utf8("wasi_snapshot_preview1"@).len() <= 100,
            vstd::utf8::encode_utf8("fd_write"@).len() <= 100,
            vstd::utf8::encode_utf8("proc_exit"@).len() <= 100,
        decreases code.imports@.len() - at,
    {
        let ghost before = out@;
        out.name("wasi_snapshot_preview1");
        out.name(code.imports[at].name());
        out.byte(KIND_FUNC);
        out.uleb(len32(at));
        at = at + 1;
        assert(out@ =~= count + code@.import_list(at as int));
    }
    out
}

/// The names this compiler writes are short.
proof fn short_names()
    ensures
        vstd::utf8::encode_utf8("wasi_snapshot_preview1"@).len() <= 100,
        vstd::utf8::encode_utf8("fd_write"@).len() <= 100,
        vstd::utf8::encode_utf8("proc_exit"@).len() <= 100,
        vstd::utf8::encode_utf8("_start"@).len() <= 100,
        vstd::utf8::encode_utf8("memory"@).len() <= 100,
{
    reveal_strlit("wasi_snapshot_preview1");
    reveal_strlit("fd_write");
    reveal_strlit("proc_exit");
    reveal_strlit("_start");
    reveal_strlit("memory");
    vstd::utf8::is_ascii_chars_encode_utf8("wasi_snapshot_preview1"@);
    vstd::utf8::is_ascii_chars_encode_utf8("fd_write"@);
    vstd::utf8::is_ascii_chars_encode_utf8("proc_exit"@);
    vstd::utf8::is_ascii_chars_encode_utf8("_start"@);
    vstd::utf8::is_ascii_chars_encode_utf8("memory"@);
}

fn function_section(code: &Code) -> (out: Bytes)
    requires
        code@.imports.len() + code@.bodies.len() <= u32::MAX,
    ensures
        out@ == code@.function_section(),
{
    let mut out = Bytes::default();
    out.uleb(len32(code.bodies.len()));
    let ghost count = out@;
    let mut at: usize = 0;
    while at < code.bodies.len()
        invariant
            code@.imports.len() + code@.bodies.len() <= u32::MAX,
            at <= code.bodies@.len(),
            out@ == count + code@.function_list(at as int),
        decreases code.bodies@.len() - at,
    {
        out.uleb(len32(code.imports.len() + at));
        at = at + 1;
        assert(out@ =~= count + code@.function_list(at as int));
    }
    out
}

/// How many pages of memory hold what a module starts out with.
pub fn pages(code: &Code) -> (count: u32)
    requires
        code@.addressable(),
    ensures
        count == code@.pages(),
{
    let mut high: u32 = 0;
    let mut at: usize = 0;
    while at < code.data.len()
        invariant
            code@.addressable(),
            at <= code.data@.len(),
            high == code@.high(at as int),
        decreases code.data@.len() - at,
    {
        assert(code@.data[at as int] == code.data@[at as int]@);
        let end: u32 = code.data[at].offset + code.data[at].bytes.len() as u32;
        if end > high {
            high = end;
        }
        at = at + 1;
    }
    let whole: u64 = (high as u64 + PAGE_SIZE as u64 - 1) / PAGE_SIZE as u64;
    if whole < 1 {
        1
    } else {
        whole as u32
    }
}

fn memory_section(code: &Code) -> (out: Bytes)
    requires
        code@.addressable(),
    ensures
        out@ == code@.memory_section(),
        out@.len() <= u32::MAX,
{
    let mut out = Bytes::default();
    if code.memory {
        let count: u32 = pages(code);
        proof {
            small_leb(1);
            small_leb(count as nat);
        }
        out.uleb(1);
        out.byte(0x00);
        out.uleb(count);
        assert(out@ =~= code@.memory_section());
    }
    out
}

fn export_section(code: &Code) -> (out: Bytes)
    requires
        code@.imports.len() + code@.entry <= u32::MAX,
    ensures
        out@ == code@.export_section(),
        out@.len() <= u32::MAX,
{
    proof {
        short_names();
        small_leb(2);
        small_leb(1);
        small_leb(0);
        small_leb(code@.imports.len() + code@.entry as nat);
        small_leb(vstd::utf8::encode_utf8("memory"@).len());
        small_leb(vstd::utf8::encode_utf8("_start"@).len());
    }
    let mut out = Bytes::default();
    if code.memory {
        out.uleb(2);
        out.name("memory");
        out.byte(KIND_MEMORY);
        out.uleb(0);
    } else {
        out.uleb(1);
    }
    out.name("_start");
    out.byte(KIND_FUNC);
    out.uleb(len32(code.imports.len() + code.entry as usize));
    assert(out@ =~= code@.export_section());
    out
}

/// An integer of 32 bits takes five bytes at most.
pub proof fn small_leb(value: nat)
    requires
        value <= u32::MAX,
    ensures
        bytes::unsigned_leb(value).len() <= 5,
{
    reveal_with_fuel(bytes::unsigned_leb, 6);
}

fn framed(body: &Body) -> (out: Bytes)
    ensures
        out@ == body@.framed(),
{
    let mut out = Bytes::default();
    if body.locals > 0 {
        out.uleb(1);
        out.uleb(body.locals);
        out.byte(I32);
    } else {
        out.uleb(0);
    }
    out.bytes(body.code.as_slice());
    out.byte(END);
    assert(out@ =~= body@.framed());
    out
}

/// `None` where some function is too long for the format.
fn code_section(code: &Code) -> (section: Option<Bytes>)
    requires
        code@.bodies.len() <= u32::MAX,
    ensures
        section is Some <==> forall|i: int|
            0 <= i < code@.bodies.len() ==> (#[trigger] code@.bodies[i]).framed().len()
                <= u32::MAX,
        section matches Some(out) ==> out@ == code@.code_section(),
{
    let mut out = Bytes::default();
    out.uleb(len32(code.bodies.len()));
    let ghost count = out@;
    let mut at: usize = 0;
    while at < code.bodies.len()
        invariant
            at <= code.bodies@.len(),
            out@ == count + code@.code_list(at as int),
            forall|i: int|
                0 <= i < at ==> (#[trigger] code@.bodies[i]).framed().len() <= u32::MAX,
        decreases code.bodies@.len() - at,
    {
        assert(code@.bodies[at as int] == code.bodies@[at as int]@);
        let body = framed(&code.bodies[at]).finish();
        if body.len() > u32::MAX as usize {
            return None;
        }
        out.put_sized(body.as_slice());
        at = at + 1;
        assert(out@ =~= count + code@.code_list(at as int));
    }
    Some(out)
}

fn data_section(code: &Code) -> (out: Bytes)
    requires
        code@.addressable(),
        code@.data.len() <= u32::MAX,
    ensures
        out@ == code@.data_section(),
{
    let mut out = Bytes::default();
    if code.data.len() == 0 {
        return out;
    }
    out.uleb(len32(code.data.len()));
    let ghost count = out@;
    let mut at: usize = 0;
    while at < code.data.len()
        invariant
            code@.addressable(),
            at <= code.data@.len(),
            out@ == count + code@.data_list(at as int),
        decreases code.data@.len() - at,
    {
        assert(code@.data[at as int] == code.data@[at as int]@);
        out.uleb(0);
        out.byte(I32_CONST);
        out.sleb(as_signed(code.data[at].offset));
        out.byte(END);
        out.put_sized(code.data[at].bytes.as_slice());
        at = at + 1;
        assert(out@ =~= count + code@.data_list(at as int));
    }
    out
}

fn addressable(code: &Code) -> (yes: bool)
    ensures
        yes == code@.addressable(),
{
    let mut at: usize = 0;
    while at < code.data.len()
        invariant
            at <= code.data@.len(),
            forall|i: int|
                0 <= i < at ==> (#[trigger] code@.data[i]).offset + code@.data[i].bytes.len()
                    <= u32::MAX,
        decreases code.data@.len() - at,
    {
        assert(code@.data[at as int] == code.data@[at as int]@);
        if code.data[at].bytes.len() > (u32::MAX - code.data[at].offset) as usize {
            return false;
        }
        at = at + 1;
    }
    true
}

/// The file, where everything in it fits the 32 bits the format has.
pub fn module(code: &Code) -> (file: Option<Vec<u8>>)
    ensures
        file is Some <==> code@.fits(),
        file matches Some(written) ==> written@ == code@.module(),
{
    let most: usize = u32::MAX as usize;
    if !addressable(code) || code.imports.len() > most || code.bodies.len() > most
        - code.imports.len() || code.entry as usize > most - code.imports.len() || code.data.len()
        > most {
        return None;
    }
    let types = types(code).finish();
    let imports = import_section(code).finish();
    let functions = function_section(code).finish();
    let memory = memory_section(code).finish();
    let exports = export_section(code).finish();
    let bodies = match code_section(code) {
        Some(section) => section.finish(),
        None => {
            return None;
        },
    };
    let data = data_section(code).finish();
    if types.len() > most || imports.len() > most || functions.len() > most || bodies.len() > most
        || data.len() > most {
        return None;
    }
    let preamble: [u8; 8] = [0x00, 0x61, 0x73, 0x6D, 1, 0, 0, 0];
    let mut out = Bytes::default();
    out.bytes(&preamble);
    assert(out@ =~= seq![0x00u8, 0x61u8, 0x73u8, 0x6Du8, 1u8, 0u8, 0u8, 0u8]);
    out.put_section(TYPE, types.as_slice());
    out.put_section(IMPORT, imports.as_slice());
    out.put_section(FUNCTION, functions.as_slice());
    out.put_section(MEMORY, memory.as_slice());
    out.put_section(EXPORT, exports.as_slice());
    out.put_section(CODE, bodies.as_slice());
    out.put_section(DATA, data.as_slice());
    Some(out.finish())
}

/// A section as it is read: what it is, and what it holds.
#[verifier::ext_equal]
pub struct Section {
    pub id: u8,
    pub body: Seq<u8>,
}

/// What sections bytes are, one after the other.
pub open spec fn sections(file: Seq<u8>) -> Option<Seq<Section>>
    decreases file.len(),
{
    if file.len() == 0 {
        Some(seq![])
    } else {
        match bytes::read_unsigned(file.drop_first()) {
            Some((size, taken)) => if 1 + taken + size <= file.len() {
                let body = file.subrange((1 + taken) as int, (1 + taken + size) as int);
                match sections(file.skip((1 + taken + size) as int)) {
                    Some(rest) => Some(seq![Section { id: file[0], body }] + rest),
                    None => None,
                }
            } else {
                None
            },
            None => None,
        }
    }
}

/// A section before others, where there is anything in it.
pub open spec fn listed(id: u8, body: Seq<u8>, rest: Seq<Section>) -> Seq<Section> {
    if body.len() == 0 {
        rest
    } else {
        seq![Section { id, body }] + rest
    }
}

impl Layout {
    /// The sections a module has, in the order a module must list them.
    pub open spec fn listing(self) -> Seq<Section> {
        let data = listed(DATA, self.data_section(), seq![]);
        let code = listed(CODE, self.code_section(), data);
        let export = listed(EXPORT, self.export_section(), code);
        let memory = listed(MEMORY, self.memory_section(), export);
        let function = listed(FUNCTION, self.function_section(), memory);
        let import = listed(IMPORT, self.import_section(), function);
        listed(TYPE, self.types(), import)
    }
}

proof fn a_section_reads_back(id: u8, body: Seq<u8>, rest: Seq<u8>)
    ensures
        sections(rest) matches Some(more) ==> sections(bytes::section(id, body) + rest) == Some(
            listed(id, body, more),
        ),
{
    let file = bytes::section(id, body) + rest;
    if body.len() == 0 {
        assert(file =~= rest);
    } else {
        let length = bytes::unsigned_leb(body.len());
        bytes::unsigned_leb_reads_back(body.len(), body + rest);
        assert(file.drop_first() =~= length + (body + rest));
        let taken = length.len();
        assert(file.subrange((1 + taken) as int, (1 + taken + body.len()) as int) =~= body);
        assert(file.skip((1 + taken + body.len()) as int) =~= rest);
    }
}

/// Whether sections come in order, above a number, and none is empty.
spec fn rises(list: Seq<Section>, above: u8) -> bool {
    &&& forall|i: int|
        0 <= i < list.len() ==> (#[trigger] list[i]).id > above && list[i].body.len() > 0
    &&& forall|i: int, j: int|
        0 <= i < j < list.len() ==> (#[trigger] list[i]).id < (#[trigger] list[j]).id
}

proof fn one_more_rises(id: u8, body: Seq<u8>, rest: Seq<u8>, list: Seq<Section>, above: u8)
    requires
        sections(rest) == Some(list),
        rises(list, id),
        above < id,
    ensures
        sections(bytes::section(id, body) + rest) == Some(listed(id, body, list)),
        rises(listed(id, body, list), above),
{
    a_section_reads_back(id, body, rest);
    let more = listed(id, body, list);
    assert forall|i: int, j: int| 0 <= i < j < more.len() implies (#[trigger] more[i]).id < (
    #[trigger] more[j]).id by {
        if body.len() > 0 {
            assert(more[j] == list[j - 1]);
            if i > 0 {
                assert(more[i] == list[i - 1]);
            }
        }
    }
    assert forall|i: int| 0 <= i < more.len() implies (#[trigger] more[i]).id > above
        && more[i].body.len() > 0 by {
        if body.len() > 0 && i > 0 {
            assert(more[i] == list[i - 1]);
        }
    }
}

/// What follows the preamble of a module are its sections, each read back as
/// it was written, in the order a module must list them, and none of them
/// empty.
pub proof fn a_module_lists_its_sections_in_order(layout: Layout)
    ensures
        sections(layout.module().skip(8)) == Some(layout.listing()),
        forall|i: int, j: int|
            0 <= i < j < layout.listing().len() ==> (#[trigger] layout.listing()[i]).id < (
            #[trigger] layout.listing()[j]).id,
        forall|i: int|
            0 <= i < layout.listing().len() ==> (#[trigger] layout.listing()[i]).body.len() > 0,
{
    let (types, import, function) = (
        layout.types(),
        layout.import_section(),
        layout.function_section(),
    );
    let (memory, export) = (layout.memory_section(), layout.export_section());
    let (code, data) = (layout.code_section(), layout.data_section());
    let after = sections_rise(types, import, function, memory, export, code, data);
    let preamble = seq![0x00u8, 0x61u8, 0x73u8, 0x6Du8, 1u8, 0u8, 0u8, 0u8];
    assert(layout.module() =~= preamble + after);
    assert(layout.module().skip(8) =~= after);
}

proof fn all_in_a_row(
    a: Seq<u8>,
    b: Seq<u8>,
    c: Seq<u8>,
    d: Seq<u8>,
    e: Seq<u8>,
    f: Seq<u8>,
    g: Seq<u8>,
)
    ensures
        a + (b + (c + (d + (e + (f + (g + Seq::<u8>::empty())))))) == a + b + c + d + e + f + g,
{
    let none = Seq::<u8>::empty();
    assert(a + (b + (c + (d + (e + (f + (g + none)))))) =~= a + b + c + d + e + f + g);
}

proof fn sections_rise(
    types: Seq<u8>,
    import: Seq<u8>,
    function: Seq<u8>,
    memory: Seq<u8>,
    export: Seq<u8>,
    code: Seq<u8>,
    data: Seq<u8>,
) -> (after: Seq<u8>)
    ensures
        after == bytes::section(TYPE, types) + bytes::section(IMPORT, import) + bytes::section(
            FUNCTION,
            function,
        ) + bytes::section(MEMORY, memory) + bytes::section(EXPORT, export) + bytes::section(
            CODE,
            code,
        ) + bytes::section(DATA, data),
        ({
            let last = listed(CODE, code, listed(DATA, data, seq![]));
            let middle = listed(MEMORY, memory, listed(EXPORT, export, last));
            let list = listed(TYPE, types, listed(IMPORT, import, listed(FUNCTION, function, middle)));
            sections(after) == Some(list) && rises(list, 0)
        }),
{
    let none = Seq::<u8>::empty();
    let list0 = Seq::<Section>::empty();
    let (file1, list1) = (bytes::section(DATA, data) + none, listed(DATA, data, list0));
    one_more_rises(DATA, data, none, list0, CODE);
    let (file2, list2) = (bytes::section(CODE, code) + file1, listed(CODE, code, list1));
    one_more_rises(CODE, code, file1, list1, EXPORT);
    let (file3, list3) = (bytes::section(EXPORT, export) + file2, listed(EXPORT, export, list2));
    one_more_rises(EXPORT, export, file2, list2, MEMORY);
    let (file4, list4) = (bytes::section(MEMORY, memory) + file3, listed(MEMORY, memory, list3));
    one_more_rises(MEMORY, memory, file3, list3, FUNCTION);
    let (file5, list5) = (
        bytes::section(FUNCTION, function) + file4,
        listed(FUNCTION, function, list4),
    );
    one_more_rises(FUNCTION, function, file4, list4, IMPORT);
    let (file6, list6) = (bytes::section(IMPORT, import) + file5, listed(IMPORT, import, list5));
    one_more_rises(IMPORT, import, file5, list5, TYPE);
    one_more_rises(TYPE, types, file6, list6, 0);
    let file7 = bytes::section(TYPE, types) + file6;
    all_in_a_row(
        bytes::section(TYPE, types),
        bytes::section(IMPORT, import),
        bytes::section(FUNCTION, function),
        bytes::section(MEMORY, memory),
        bytes::section(EXPORT, export),
        bytes::section(CODE, code),
        bytes::section(DATA, data),
    );
    file7
}

} // verus!
