//! A module file, read the way an engine reads it.

use super::module::{self, Section};
use super::{Import, Layout};
use crate::targets::bytes;
use vstd::prelude::*;

verus! {

/// What an engine finds in a file.
#[verifier::ext_equal]
pub struct Contents {
    /// How many words each type takes, and how many it answers.
    pub types: Seq<(nat, nat)>,
    /// Where each function that is brought in is from, what it is called
    /// there, and which type it is of.
    pub imports: Seq<(Seq<u8>, Seq<u8>, nat)>,
    /// Which type each function here is of.
    pub functions: Seq<nat>,
    /// How many pages each memory has to begin with.
    pub memories: Seq<nat>,
    /// What each export is called, whether it is a function or a memory, and
    /// which one.
    pub exports: Seq<(Seq<u8>, u8, nat)>,
    /// How many locals each function has beyond what it takes, and what it
    /// does.
    pub code: Seq<(nat, Seq<u8>)>,
    /// Where in memory each run of bytes starts out, and the bytes.
    pub data: Seq<(nat, Seq<u8>)>,
}

/// A number, and what follows it.
pub open spec fn number(from: Seq<u8>) -> Option<(nat, Seq<u8>)> {
    match bytes::read_unsigned(from) {
        Some((value, taken)) => Some((value, from.skip(taken as int))),
        None => None,
    }
}

/// What follows a byte, where it is that one.
pub open spec fn after(byte: u8, from: Seq<u8>) -> Option<Seq<u8>> {
    if from.len() > 0 && from[0] == byte {
        Some(from.drop_first())
    } else {
        None
    }
}

/// As many bytes as the number in front of them says.
pub open spec fn chunk(from: Seq<u8>) -> Option<(Seq<u8>, Seq<u8>)> {
    match number(from) {
        Some((count, rest)) => if count <= rest.len() {
            Some((rest.take(count as int), rest.skip(count as int)))
        } else {
            None
        },
        None => None,
    }
}

/// As many words as a number says, each a byte that is 0x7F.
pub open spec fn words(from: Seq<u8>) -> Option<(nat, Seq<u8>)> {
    match chunk(from) {
        Some((run, rest)) => if forall|i: int| 0 <= i < run.len() ==> #[trigger] run[i] == 0x7F {
            Some((run.len(), rest))
        } else {
            None
        },
        None => None,
    }
}

pub open spec fn shape(from: Seq<u8>) -> Option<((nat, nat), Seq<u8>)> {
    match after(0x60, from) {
        Some(params) => match words(params) {
            Some((takes, answers)) => match words(answers) {
                Some((gives, rest)) => Some(((takes, gives), rest)),
                None => None,
            },
            None => None,
        },
        None => None,
    }
}

pub open spec fn import(from: Seq<u8>) -> Option<((Seq<u8>, Seq<u8>, nat), Seq<u8>)> {
    match chunk(from) {
        Some((place, named)) => match chunk(named) {
            Some((name, kind)) => match after(0x00, kind) {
                Some(index) => match number(index) {
                    Some((found, rest)) => Some(((place, name, found), rest)),
                    None => None,
                },
                None => None,
            },
            None => None,
        },
        None => None,
    }
}

/// A memory that may grow without bound.
pub open spec fn limits(from: Seq<u8>) -> Option<(nat, Seq<u8>)> {
    match after(0x00, from) {
        Some(pages) => number(pages),
        None => None,
    }
}

pub open spec fn export(from: Seq<u8>) -> Option<((Seq<u8>, u8, nat), Seq<u8>)> {
    match chunk(from) {
        Some((name, kind)) => if kind.len() > 0 {
            match number(kind.drop_first()) {
                Some((found, rest)) => Some(((name, kind[0], found), rest)),
                None => None,
            }
        } else {
            None
        },
        None => None,
    }
}

/// Locals come in groups. No group or one is read.
pub open spec fn locals(from: Seq<u8>) -> Option<(nat, Seq<u8>)> {
    match number(from) {
        Some((groups, rest)) => if groups == 0 {
            Some((0, rest))
        } else if groups == 1 {
            match number(rest) {
                Some((count, kind)) => match after(0x7F, kind) {
                    Some(code) => Some((count, code)),
                    None => None,
                },
                None => None,
            }
        } else {
            None
        },
        None => None,
    }
}

/// A function, up to the `end` it must have.
pub open spec fn body(from: Seq<u8>) -> Option<((nat, Seq<u8>), Seq<u8>)> {
    match chunk(from) {
        Some((inside, rest)) => match locals(inside) {
            Some((count, code)) => if code.len() > 0 && code.last() == 0x0B {
                Some(((count, code.drop_last()), rest))
            } else {
                None
            },
            None => None,
        },
        None => None,
    }
}

/// Bytes for the first memory, from a constant address on.
pub open spec fn segment(from: Seq<u8>) -> Option<((nat, Seq<u8>), Seq<u8>)> {
    match after(0x00, from) {
        Some(offset) => match after(0x41, offset) {
            Some(constant) => match bytes::read_signed(constant) {
                Some((value, taken)) => match after(0x0B, constant.skip(taken as int)) {
                    Some(run) => match chunk(run) {
                        Some((bytes, rest)) => Some(
                            (((value % 0x1_0000_0000) as nat, bytes), rest),
                        ),
                        None => None,
                    },
                    None => None,
                },
                None => None,
            },
            None => None,
        },
        None => None,
    }
}

/// As many items as there are said to be.
pub open spec fn items<T>(
    item: spec_fn(Seq<u8>) -> Option<(T, Seq<u8>)>,
    count: nat,
    from: Seq<u8>,
) -> Option<(Seq<T>, Seq<u8>)>
    decreases count,
{
    if count == 0 {
        Some((Seq::empty(), from))
    } else {
        match item(from) {
            Some((first, rest)) => match items(item, (count - 1) as nat, rest) {
                Some((others, left)) => Some((seq![first] + others, left)),
                None => None,
            },
            None => None,
        }
    }
}

/// What a section lists, where nothing is left over. A section that is not
/// there lists nothing.
pub open spec fn listed<T>(
    item: spec_fn(Seq<u8>) -> Option<(T, Seq<u8>)>,
    list: Seq<Section>,
    id: u8,
) -> Option<Seq<T>> {
    match found(list, id) {
        None => Some(Seq::empty()),
        Some(inside) => match number(inside) {
            Some((count, from)) => match items(item, count, from) {
                Some((all, left)) => if left.len() == 0 {
                    Some(all)
                } else {
                    None
                },
                None => None,
            },
            None => None,
        },
    }
}

/// What is in the section of a number.
pub open spec fn found(list: Seq<Section>, id: u8) -> Option<Seq<u8>>
    decreases list.len(),
{
    if list.len() == 0 {
        None
    } else if list[0].id == id {
        Some(list[0].body)
    } else {
        found(list.drop_first(), id)
    }
}

pub open spec fn read_shape() -> spec_fn(Seq<u8>) -> Option<((nat, nat), Seq<u8>)> {
    |from: Seq<u8>| shape(from)
}

pub open spec fn read_import() -> spec_fn(Seq<u8>) -> Option<
    ((Seq<u8>, Seq<u8>, nat), Seq<u8>),
> {
    |from: Seq<u8>| import(from)
}

pub open spec fn read_number() -> spec_fn(Seq<u8>) -> Option<(nat, Seq<u8>)> {
    |from: Seq<u8>| number(from)
}

pub open spec fn read_limits() -> spec_fn(Seq<u8>) -> Option<(nat, Seq<u8>)> {
    |from: Seq<u8>| limits(from)
}

pub open spec fn read_export() -> spec_fn(Seq<u8>) -> Option<((Seq<u8>, u8, nat), Seq<u8>)> {
    |from: Seq<u8>| export(from)
}

pub open spec fn read_body() -> spec_fn(Seq<u8>) -> Option<((nat, Seq<u8>), Seq<u8>)> {
    |from: Seq<u8>| body(from)
}

pub open spec fn read_segment() -> spec_fn(Seq<u8>) -> Option<((nat, Seq<u8>), Seq<u8>)> {
    |from: Seq<u8>| segment(from)
}

/// Whether a file is one of this version of the format.
pub open spec fn is_module(file: Seq<u8>) -> bool {
    &&& file.len() >= 8
    &&& file.take(8) == seq![0x00u8, 0x61u8, 0x73u8, 0x6Du8, 1u8, 0u8, 0u8, 0u8]
}

/// Whether sections come in the order of their numbers, each at most once.
pub open spec fn is_in_order(list: Seq<Section>) -> bool {
    forall|i: int, j: int|
        0 <= i < j < list.len() ==> (#[trigger] list[i]).id < (#[trigger] list[j]).id
}

/// What an engine finds in a file, where there is nothing wrong with it.
pub open spec fn read(file: Seq<u8>) -> Option<Contents> {
    match module::sections(file.skip(8)) {
        Some(list) => match (
            listed(read_shape(), list, 1),
            listed(read_import(), list, 2),
            listed(read_number(), list, 3),
            listed(read_limits(), list, 5),
            listed(read_export(), list, 7),
            listed(read_body(), list, 10),
            listed(read_segment(), list, 11),
        ) {
            (
                Some(types),
                Some(imports),
                Some(functions),
                Some(memories),
                Some(exports),
                Some(code),
                Some(data),
            ) => if is_module(file) && is_in_order(list) && functions.len() == code.len() {
                Some(Contents { types, imports, functions, memories, exports, code, data })
            } else {
                None
            },
            _ => None,
        },
        None => None,
    }
}

/// How many words each function of the system takes, and how many it answers.
pub open spec fn system(name: Seq<u8>) -> Option<(nat, nat)> {
    if name == said("fd_write"@) {
        Some((4, 1))
    } else if name == said("proc_exit"@) {
        Some((1, 0))
    } else {
        None
    }
}

/// Pieces, one after the other.
spec fn joined(pieces: Seq<Seq<u8>>) -> Seq<u8>
    decreases pieces.len(),
{
    if pieces.len() == 0 {
        Seq::empty()
    } else {
        pieces[0] + joined(pieces.drop_first())
    }
}

proof fn joining_one_more(pieces: Seq<Seq<u8>>)
    requires
        pieces.len() > 0,
    ensures
        joined(pieces) == joined(pieces.drop_last()) + pieces.last(),
    decreases pieces.len(),
{
    if pieces.len() == 1 {
        assert(pieces.drop_first() =~= Seq::empty());
        assert(pieces.drop_last() =~= Seq::empty());
        assert(joined(pieces) =~= joined(pieces.drop_last()) + pieces.last());
    } else {
        joining_one_more(pieces.drop_first());
        assert(pieces.drop_first().drop_last() =~= pieces.drop_last().drop_first());
        assert(joined(pieces) =~= joined(pieces.drop_last()) + pieces.last());
    }
}

/// What is written piece by piece is the pieces, joined.
proof fn a_list_is_joined(list: spec_fn(int) -> Seq<u8>, pieces: Seq<Seq<u8>>)
    requires
        list(0) == Seq::<u8>::empty(),
        forall|k: int|
            0 < k <= pieces.len() ==> #[trigger] list(k) == list(k - 1) + pieces[k - 1],
    ensures
        list(pieces.len() as int) == joined(pieces),
    decreases pieces.len(),
{
    if pieces.len() > 0 {
        let fewer = pieces.drop_last();
        assert forall|k: int| 0 < k <= fewer.len() implies #[trigger] list(k) == list(k - 1)
            + fewer[k - 1] by {
            assert(fewer[k - 1] == pieces[k - 1]);
        }
        a_list_is_joined(list, fewer);
        joining_one_more(pieces);
        assert(list(pieces.len() as int) == list(pieces.len() - 1) + pieces[pieces.len() - 1]);
    }
}

/// Whether a piece is read as a value, whatever follows.
spec fn is_read<T>(
    item: spec_fn(Seq<u8>) -> Option<(T, Seq<u8>)>,
    piece: Seq<u8>,
    value: T,
) -> bool {
    forall|more: Seq<u8>| #[trigger] item(piece + more) == Some((value, more))
}

proof fn items_are_read<T>(
    item: spec_fn(Seq<u8>) -> Option<(T, Seq<u8>)>,
    pieces: Seq<Seq<u8>>,
    values: Seq<T>,
    rest: Seq<u8>,
)
    requires
        pieces.len() == values.len(),
        forall|i: int| 0 <= i < pieces.len() ==> #[trigger] is_read(item, pieces[i], values[i]),
    ensures
        items(item, pieces.len(), joined(pieces) + rest) == Some((values, rest)),
    decreases pieces.len(),
{
    if pieces.len() == 0 {
        assert(joined(pieces) + rest =~= rest);
        assert(values =~= Seq::empty());
    } else {
        let (others, after) = (pieces.drop_first(), values.drop_first());
        assert forall|i: int| 0 <= i < others.len() implies #[trigger] is_read(
            item,
            others[i],
            after[i],
        ) by {
            assert(is_read(item, pieces[i + 1], values[i + 1]));
        }
        items_are_read(item, others, after, rest);
        assert(joined(pieces) + rest =~= pieces[0] + (joined(others) + rest));
        assert(is_read(item, pieces[0], values[0]));
        assert(item(pieces[0] + (joined(others) + rest)) == Some(
            (values[0], joined(others) + rest),
        ));
        assert(seq![values[0]] + after =~= values);
    }
}

/// A section that holds a count and the pieces lists the values.
proof fn a_section_is_read<T>(
    item: spec_fn(Seq<u8>) -> Option<(T, Seq<u8>)>,
    pieces: Seq<Seq<u8>>,
    values: Seq<T>,
    list: Seq<Section>,
    id: u8,
)
    requires
        pieces.len() == values.len(),
        forall|i: int| 0 <= i < pieces.len() ==> #[trigger] is_read(item, pieces[i], values[i]),
        found(list, id) == Some(bytes::unsigned_leb(pieces.len()) + joined(pieces)) || (found(
            list,
            id,
        ) is None && pieces.len() == 0),
    ensures
        listed(item, list, id) == Some(values),
{
    if found(list, id) is Some {
        a_number_is_read(pieces.len(), joined(pieces));
        let none = Seq::<u8>::empty();
        items_are_read(item, pieces, values, none);
        assert(joined(pieces) + none =~= joined(pieces));
    } else {
        assert(values =~= Seq::empty());
    }
}

proof fn a_number_is_read(value: nat, rest: Seq<u8>)
    ensures
        number(bytes::unsigned_leb(value) + rest) == Some((value, rest)),
{
    bytes::unsigned_leb_reads_back(value, rest);
    let all = bytes::unsigned_leb(value) + rest;
    assert(all.skip(bytes::unsigned_leb(value).len() as int) =~= rest);
}

proof fn a_chunk_is_read(run: Seq<u8>, rest: Seq<u8>)
    ensures
        chunk(bytes::sized(run) + rest) == Some((run, rest)),
{
    a_number_is_read(run.len(), run + rest);
    assert(bytes::sized(run) + rest =~= bytes::unsigned_leb(run.len()) + (run + rest));
    assert((run + rest).take(run.len() as int) =~= run);
    assert((run + rest).skip(run.len() as int) =~= rest);
}

proof fn a_byte_is_read(byte: u8, rest: Seq<u8>)
    ensures
        after(byte, seq![byte] + rest) == Some(rest),
{
    assert((seq![byte] + rest).drop_first() =~= rest);
}

proof fn words_are_read(count: nat, rest: Seq<u8>)
    ensures
        words(bytes::unsigned_leb(count) + module::words(count) + rest) == Some((count, rest)),
{
    a_chunk_is_read(module::words(count), rest);
}

proof fn a_shape_is_read(params: nat, answers: nat)
    ensures
        is_read(read_shape(), module::signature(params, answers), (params, answers)),
{
    assert forall|more: Seq<u8>| #[trigger]
        read_shape()(module::signature(params, answers) + more) == Some(
        ((params, answers), more),
    ) by {
        let one = bytes::unsigned_leb(params) + module::words(params);
        let two = bytes::unsigned_leb(answers) + module::words(answers);
        let all = module::signature(params, answers) + more;
        assert(all =~= seq![0x60u8] + (one + (two + more)));
        a_byte_is_read(0x60, one + (two + more));
        words_are_read(params, two + more);
        words_are_read(answers, more);
    }
}

/// The bytes of a text.
#[verifier::opaque]
pub open spec fn said(text: Seq<char>) -> Seq<u8> {
    vstd::utf8::encode_utf8(text)
}

spec fn import_piece(import: Import, index: nat) -> Seq<u8> {
    module::name("wasi_snapshot_preview1"@) + module::name(import.text()) + seq![
        module::KIND_FUNC,
    ] + bytes::unsigned_leb(index)
}

proof fn an_import_is_read(import: Import, index: nat)
    ensures
        is_read(
            read_import(),
            import_piece(import, index),
            (said("wasi_snapshot_preview1"@), said(import.text()), index),
        ),
{
    reveal(said);
    let place = said("wasi_snapshot_preview1"@);
    let name = said(import.text());
    assert forall|more: Seq<u8>| #[trigger]
        read_import()(import_piece(import, index) + more) == Some(
        ((place, name, index), more),
    ) by {
        let last = bytes::unsigned_leb(index) + more;
        let kind = seq![0x00u8] + last;
        let all = import_piece(import, index) + more;
        assert(all =~= bytes::sized(place) + (bytes::sized(name) + kind));
        a_chunk_is_read(place, bytes::sized(name) + kind);
        a_chunk_is_read(name, kind);
        a_byte_is_read(0x00, last);
        a_number_is_read(index, more);
    }
}

proof fn numbers_are_read(value: nat)
    ensures
        is_read(read_number(), bytes::unsigned_leb(value), value),
{
    assert forall|more: Seq<u8>| #[trigger]
        read_number()(bytes::unsigned_leb(value) + more) == Some((value, more)) by {
        a_number_is_read(value, more);
    }
}

proof fn limits_are_read(pages: nat)
    ensures
        is_read(read_limits(), seq![0x00u8] + bytes::unsigned_leb(pages), pages),
{
    assert forall|more: Seq<u8>| #[trigger]
        read_limits()(seq![0x00u8] + bytes::unsigned_leb(pages) + more) == Some(
        (pages, more),
    ) by {
        let last = bytes::unsigned_leb(pages) + more;
        assert(seq![0x00u8] + bytes::unsigned_leb(pages) + more =~= seq![0x00u8] + last);
        a_byte_is_read(0x00, last);
        a_number_is_read(pages, more);
    }
}

spec fn export_piece(text: Seq<char>, kind: u8, index: nat) -> Seq<u8> {
    module::name(text) + seq![kind] + bytes::unsigned_leb(index)
}

proof fn an_export_is_read(text: Seq<char>, kind: u8, index: nat)
    ensures
        is_read(read_export(), export_piece(text, kind, index), (said(text), kind, index)),
{
    reveal(said);
    assert forall|more: Seq<u8>| #[trigger]
        read_export()(export_piece(text, kind, index) + more) == Some(
        ((said(text), kind, index), more),
    ) by {
        let last = bytes::unsigned_leb(index) + more;
        let all = export_piece(text, kind, index) + more;
        assert(all =~= bytes::sized(said(text)) + (seq![kind] + last));
        a_chunk_is_read(said(text), seq![kind] + last);
        a_byte_is_read(kind, last);
        a_number_is_read(index, more);
    }
}

proof fn a_body_is_read(written: super::Written)
    ensures
        is_read(
            read_body(),
            bytes::sized(written.framed()),
            (written.locals as nat, written.code),
        ),
{
    let inside = written.framed();
    let code = written.code + seq![0x0Bu8];
    assert(locals(inside) == Some((written.locals as nat, code))) by {
        if written.locals > 0 {
            let count = bytes::unsigned_leb(written.locals as nat);
            let kind = seq![0x7Fu8] + code;
            assert(inside =~= bytes::unsigned_leb(1) + (count + kind));
            a_number_is_read(1, count + kind);
            a_number_is_read(written.locals as nat, kind);
            a_byte_is_read(0x7F, code);
        } else {
            assert(inside =~= bytes::unsigned_leb(0) + code);
            a_number_is_read(0, code);
        }
    }
    assert(code.drop_last() =~= written.code);
    assert forall|more: Seq<u8>| #[trigger]
        read_body()(bytes::sized(inside) + more) == Some(
        ((written.locals as nat, written.code), more),
    ) by {
        a_chunk_is_read(inside, more);
    }
}

spec fn segment_piece(placed: super::Placed) -> Seq<u8> {
    bytes::unsigned_leb(0) + seq![super::I32_CONST] + bytes::signed_leb(
        module::signed(placed.offset),
    ) + seq![super::END] + bytes::sized(placed.bytes)
}

proof fn a_segment_is_read(placed: super::Placed)
    ensures
        is_read(read_segment(), segment_piece(placed), (placed.offset as nat, placed.bytes)),
{
    let signed = module::signed(placed.offset);
    assert(signed % 0x1_0000_0000 == placed.offset);
    assert forall|more: Seq<u8>| #[trigger]
        read_segment()(segment_piece(placed) + more) == Some(
        ((placed.offset as nat, placed.bytes), more),
    ) by {
        let run = bytes::sized(placed.bytes) + more;
        let end = seq![0x0Bu8] + run;
        let constant = bytes::signed_leb(signed) + end;
        let offset = seq![0x41u8] + constant;
        assert(bytes::unsigned_leb(0) =~= seq![0x00u8]);
        assert(segment_piece(placed) + more =~= seq![0x00u8] + offset);
        a_byte_is_read(0x00, offset);
        a_byte_is_read(0x41, constant);
        bytes::signed_leb_reads_back(signed, end);
        assert(constant.skip(bytes::signed_leb(signed).len() as int) =~= end);
        a_byte_is_read(0x0B, run);
        a_chunk_is_read(placed.bytes, more);
    }
}

proof fn one_more_is_found(id: u8, body: Seq<u8>, rest: Seq<Section>, wanted: u8)
    ensures
        found(module::listed(id, body, rest), wanted) == if body.len() > 0 && id == wanted {
            Some(body)
        } else {
            found(rest, wanted)
        },
{
    let all = module::listed(id, body, rest);
    if body.len() > 0 {
        assert(all.drop_first() =~= rest);
    }
}

/// What was written, where it is not empty.
spec fn unless_empty(body: Seq<u8>) -> Option<Seq<u8>> {
    if body.len() > 0 {
        Some(body)
    } else {
        None
    }
}

#[verifier::rlimit(40)]
#[verifier::spinoff_prover]
proof fn sections_are_found(layout: Layout)
    ensures
        ({
            let list = layout.listing();
            &&& found(list, 1) == unless_empty(layout.types())
            &&& found(list, 2) == unless_empty(layout.import_section())
            &&& found(list, 3) == unless_empty(layout.function_section())
            &&& found(list, 5) == unless_empty(layout.memory_section())
            &&& found(list, 7) == unless_empty(layout.export_section())
            &&& found(list, 10) == unless_empty(layout.code_section())
            &&& found(list, 11) == unless_empty(layout.data_section())
        }),
{
    let data = module::listed(module::DATA, layout.data_section(), seq![]);
    let code = module::listed(module::CODE, layout.code_section(), data);
    let export = module::listed(module::EXPORT, layout.export_section(), code);
    let memory = module::listed(module::MEMORY, layout.memory_section(), export);
    let function = module::listed(module::FUNCTION, layout.function_section(), memory);
    let import = module::listed(module::IMPORT, layout.import_section(), function);
    assert forall|wanted: u8|
        wanted == 1 || wanted == 2 || wanted == 3 || wanted == 5 || wanted == 7 || wanted == 10
            || wanted == 11 implies #[trigger] found(layout.listing(), wanted) == unless_empty(
        if wanted == 1 {
            layout.types()
        } else if wanted == 2 {
            layout.import_section()
        } else if wanted == 3 {
            layout.function_section()
        } else if wanted == 5 {
            layout.memory_section()
        } else if wanted == 7 {
            layout.export_section()
        } else if wanted == 10 {
            layout.code_section()
        } else {
            layout.data_section()
        },
    ) by {
        one_more_is_found(module::DATA, layout.data_section(), seq![], wanted);
        one_more_is_found(module::CODE, layout.code_section(), data, wanted);
        one_more_is_found(module::EXPORT, layout.export_section(), code, wanted);
        one_more_is_found(module::MEMORY, layout.memory_section(), export, wanted);
        one_more_is_found(module::FUNCTION, layout.function_section(), memory, wanted);
        one_more_is_found(module::IMPORT, layout.import_section(), function, wanted);
        one_more_is_found(module::TYPE, layout.types(), import, wanted);
    }
}

/// The first `count` types, those of imports first.
spec fn type_list(layout: Layout, count: int) -> Seq<u8> {
    if count <= layout.imports.len() {
        layout.import_types(count)
    } else {
        layout.import_types(layout.imports.len() as int) + layout.body_types(
            count - layout.imports.len(),
        )
    }
}

proof fn a_type_is_added(layout: Layout, k: int)
    requires
        0 < k <= layout.imports.len() + layout.bodies.len(),
    ensures
        type_list(layout, k) == type_list(layout, k - 1) + if k <= layout.imports.len() {
            let shape = layout.imports[k - 1].shape();
            module::signature(shape.0, shape.1)
        } else {
            let body = layout.bodies[k - 1 - layout.imports.len()];
            module::signature(body.params as nat, body.answers as nat)
        },
{
    let m = layout.imports.len();
    if k > m {
        let body = layout.bodies[k - 1 - m];
        let last = module::signature(body.params as nat, body.answers as nat);
        assert(layout.body_types(k - m) == layout.body_types(k - m - 1) + last);
        assert(layout.body_types(0) =~= Seq::empty());
        assert(type_list(layout, k) =~= type_list(layout, k - 1) + last);
    }
}

#[verifier::rlimit(40)]
#[verifier::spinoff_prover]
proof fn types_are_read(layout: Layout, list: Seq<Section>)
    requires
        found(list, 1) == unless_empty(layout.types()),
    ensures
        listed(read_shape(), list, 1) == Some(
            Seq::new(layout.imports.len(), |i: int| layout.imports[i].shape()) + Seq::new(
                layout.bodies.len(),
                |i: int| (layout.bodies[i].params as nat, layout.bodies[i].answers as nat),
            ),
        ),
{
    let (m, n) = (layout.imports.len(), layout.bodies.len());
    let values = Seq::new(m, |i: int| layout.imports[i].shape()) + Seq::new(
        n,
        |i: int| (layout.bodies[i].params as nat, layout.bodies[i].answers as nat),
    );
    let pieces = Seq::new(values.len(), |i: int| module::signature(values[i].0, values[i].1));
    let written = |k: int| type_list(layout, k);
    assert forall|k: int| 0 < k <= pieces.len() implies #[trigger] written(k) == written(k - 1)
        + pieces[k - 1] by {
        a_type_is_added(layout, k);
        if k <= m {
            assert(values[k - 1] == layout.imports[k - 1].shape());
        } else {
            assert(values[k - 1] == (
                layout.bodies[k - 1 - m].params as nat,
                layout.bodies[k - 1 - m].answers as nat,
            ));
        }
    }
    assert(written(0) =~= Seq::empty());
    a_list_is_joined(written, pieces);
    assert(written(pieces.len() as int) =~= layout.import_types(m as int) + layout.body_types(
        n as int,
    ));
    assert(layout.types() =~= bytes::unsigned_leb(pieces.len()) + joined(pieces));
    bytes::unsigned_leb_is_never_empty(pieces.len());
    assert forall|i: int| 0 <= i < pieces.len() implies #[trigger] is_read(
        read_shape(),
        pieces[i],
        values[i],
    ) by {
        a_shape_is_read(values[i].0, values[i].1);
    }
    a_section_is_read(read_shape(), pieces, values, list, 1);
}

#[verifier::rlimit(40)]
#[verifier::spinoff_prover]
proof fn imports_are_read(layout: Layout, list: Seq<Section>)
    requires
        found(list, 2) == unless_empty(layout.import_section()),
    ensures
        listed(read_import(), list, 2) == Some(
            Seq::new(
                layout.imports.len(),
                |i: int|
                    (said("wasi_snapshot_preview1"@), said(layout.imports[i].text()), i as nat),
            ),
        ),
{
    let n = layout.imports.len();
    let values = Seq::new(
        n,
        |i: int| (said("wasi_snapshot_preview1"@), said(layout.imports[i].text()), i as nat),
    );
    let pieces = Seq::new(n, |i: int| import_piece(layout.imports[i], i as nat));
    let written = |k: int| layout.import_list(k);
    assert forall|k: int| 0 < k <= n implies #[trigger] written(k) == written(k - 1) + pieces[k
        - 1] by {
        assert(written(k) =~= written(k - 1) + pieces[k - 1]);
    }
    assert(written(0) =~= Seq::empty());
    a_list_is_joined(written, pieces);
    bytes::unsigned_leb_is_never_empty(n);
    assert forall|i: int| 0 <= i < n implies #[trigger] is_read(
        read_import(),
        pieces[i],
        values[i],
    ) by {
        an_import_is_read(layout.imports[i], i as nat);
    }
    a_section_is_read(read_import(), pieces, values, list, 2);
}

#[verifier::rlimit(40)]
#[verifier::spinoff_prover]
proof fn functions_are_read(layout: Layout, list: Seq<Section>)
    requires
        found(list, 3) == unless_empty(layout.function_section()),
    ensures
        listed(read_number(), list, 3) == Some(
            Seq::new(layout.bodies.len(), |i: int| (layout.imports.len() + i) as nat),
        ),
{
    let n = layout.bodies.len();
    let values = Seq::new(n, |i: int| (layout.imports.len() + i) as nat);
    let pieces = Seq::new(n, |i: int| bytes::unsigned_leb(values[i]));
    let written = |k: int| layout.function_list(k);
    assert(written(0) =~= Seq::empty());
    a_list_is_joined(written, pieces);
    bytes::unsigned_leb_is_never_empty(n);
    assert forall|i: int| 0 <= i < n implies #[trigger] is_read(
        read_number(),
        pieces[i],
        values[i],
    ) by {
        numbers_are_read(values[i]);
    }
    a_section_is_read(read_number(), pieces, values, list, 3);
}

#[verifier::rlimit(40)]
#[verifier::spinoff_prover]
proof fn memories_are_read(layout: Layout, list: Seq<Section>)
    requires
        found(list, 5) == unless_empty(layout.memory_section()),
    ensures
        listed(read_limits(), list, 5) == Some(
            if layout.memory {
                seq![layout.pages() as nat]
            } else {
                seq![]
            },
        ),
{
    let pages = layout.pages() as nat;
    if layout.memory {
        let piece = seq![0x00u8] + bytes::unsigned_leb(pages);
        let (pieces, values) = (seq![piece], seq![pages]);
        reveal_with_fuel(joined, 2);
        assert(joined(pieces) =~= piece);
        assert(layout.memory_section() =~= bytes::unsigned_leb(1) + joined(pieces));
        bytes::unsigned_leb_is_never_empty(1);
        limits_are_read(pages);
        a_section_is_read(read_limits(), pieces, values, list, 5);
    } else {
        a_section_is_read(read_limits(), seq![], seq![], list, 5);
    }
}

#[verifier::rlimit(40)]
#[verifier::spinoff_prover]
proof fn exports_are_read(layout: Layout, list: Seq<Section>)
    requires
        found(list, 7) == unless_empty(layout.export_section()),
    ensures
        ({
            let start = (said("_start"@), 0u8, (layout.imports.len() + layout.entry) as nat);
            listed(read_export(), list, 7) == Some(
                if layout.memory {
                    seq![(said("memory"@), 2u8, 0nat), start]
                } else {
                    seq![start]
                },
            )
        }),
{
    let index = layout.imports.len() + layout.entry as nat;
    let start = export_piece("_start"@, 0, index);
    let memory = export_piece("memory"@, 2, 0);
    an_export_is_read("_start"@, 0, index);
    an_export_is_read("memory"@, 2, 0);
    reveal_with_fuel(joined, 3);
    bytes::unsigned_leb_is_never_empty(1);
    bytes::unsigned_leb_is_never_empty(2);
    let last = (said("_start"@), 0u8, index);
    if layout.memory {
        let pieces = seq![memory, start];
        assert(pieces.drop_first() =~= seq![start]);
        assert(joined(seq![start]) =~= start);
        assert(layout.export_section() =~= bytes::unsigned_leb(2) + joined(pieces));
        a_section_is_read(
            read_export(),
            pieces,
            seq![(said("memory"@), 2u8, 0nat), last],
            list,
            7,
        );
    } else {
        let pieces = seq![start];
        assert(joined(pieces) =~= start);
        assert(layout.export_section() =~= bytes::unsigned_leb(1) + joined(pieces));
        a_section_is_read(read_export(), pieces, seq![last], list, 7);
    }
}

#[verifier::rlimit(40)]
#[verifier::spinoff_prover]
proof fn bodies_are_read(layout: Layout, list: Seq<Section>)
    requires
        found(list, 10) == unless_empty(layout.code_section()),
    ensures
        listed(read_body(), list, 10) == Some(
            Seq::new(
                layout.bodies.len(),
                |i: int| (layout.bodies[i].locals as nat, layout.bodies[i].code),
            ),
        ),
{
    let n = layout.bodies.len();
    let values = Seq::new(n, |i: int| (layout.bodies[i].locals as nat, layout.bodies[i].code));
    let pieces = Seq::new(n, |i: int| bytes::sized(layout.bodies[i].framed()));
    let written = |k: int| layout.code_list(k);
    assert(written(0) =~= Seq::empty());
    a_list_is_joined(written, pieces);
    bytes::unsigned_leb_is_never_empty(n);
    assert forall|i: int| 0 <= i < n implies #[trigger] is_read(
        read_body(),
        pieces[i],
        values[i],
    ) by {
        a_body_is_read(layout.bodies[i]);
    }
    a_section_is_read(read_body(), pieces, values, list, 10);
}

#[verifier::rlimit(40)]
#[verifier::spinoff_prover]
proof fn data_are_read(layout: Layout, list: Seq<Section>)
    requires
        found(list, 11) == unless_empty(layout.data_section()),
    ensures
        listed(read_segment(), list, 11) == Some(
            Seq::new(
                layout.data.len(),
                |i: int| (layout.data[i].offset as nat, layout.data[i].bytes),
            ),
        ),
{
    let n = layout.data.len();
    let values = Seq::new(n, |i: int| (layout.data[i].offset as nat, layout.data[i].bytes));
    let pieces = Seq::new(n, |i: int| segment_piece(layout.data[i]));
    let written = |k: int| layout.data_list(k);
    assert forall|k: int| 0 < k <= n implies #[trigger] written(k) == written(k - 1) + pieces[k
        - 1] by {
        assert(written(k) =~= written(k - 1) + pieces[k - 1]);
    }
    assert(written(0) =~= Seq::empty());
    a_list_is_joined(written, pieces);
    bytes::unsigned_leb_is_never_empty(n);
    assert forall|i: int| 0 <= i < n implies #[trigger] is_read(
        read_segment(),
        pieces[i],
        values[i],
    ) by {
        a_segment_is_read(layout.data[i]);
    }
    a_section_is_read(read_segment(), pieces, values, list, 11);
}

proof fn the_highest_is_above(layout: Layout, count: int, i: int)
    requires
        0 <= i < count,
    ensures
        layout.data[i].offset + layout.data[i].bytes.len() <= layout.high(count),
    decreases count,
{
    if i < count - 1 {
        the_highest_is_above(layout, count - 1, i);
    }
}

/// All that was written.
spec fn contents_of(layout: Layout) -> Contents {
    let start = (said("_start"@), 0u8, (layout.imports.len() + layout.entry) as nat);
    Contents {
        types: Seq::new(layout.imports.len(), |i: int| layout.imports[i].shape()) + Seq::new(
            layout.bodies.len(),
            |i: int| (layout.bodies[i].params as nat, layout.bodies[i].answers as nat),
        ),
        imports: Seq::new(
            layout.imports.len(),
            |i: int|
                (said("wasi_snapshot_preview1"@), said(layout.imports[i].text()), i as nat),
        ),
        functions: Seq::new(layout.bodies.len(), |i: int| (layout.imports.len() + i) as nat),
        memories: if layout.memory {
            seq![layout.pages() as nat]
        } else {
            seq![]
        },
        exports: if layout.memory {
            seq![(said("memory"@), 2u8, 0nat), start]
        } else {
            seq![start]
        },
        code: Seq::new(
            layout.bodies.len(),
            |i: int| (layout.bodies[i].locals as nat, layout.bodies[i].code),
        ),
        data: Seq::new(
            layout.data.len(),
            |i: int| (layout.data[i].offset as nat, layout.data[i].bytes),
        ),
    }
}

#[verifier::rlimit(60)]
#[verifier::spinoff_prover]
proof fn all_is_read(layout: Layout)
    ensures
        read(layout.module()) == Some(contents_of(layout)),
{
    let list = layout.listing();
    module::a_module_lists_its_sections_in_order(layout);
    let file = layout.module();
    assert(is_module(file)) by {
        assert(file.take(8) =~= seq![0x00u8, 0x61u8, 0x73u8, 0x6Du8, 1u8, 0u8, 0u8, 0u8]);
    }
    sections_are_found(layout);
    types_are_read(layout, list);
    imports_are_read(layout, list);
    functions_are_read(layout, list);
    memories_are_read(layout, list);
    exports_are_read(layout, list);
    bodies_are_read(layout, list);
    data_are_read(layout, list);
    let contents = contents_of(layout);
    assert(listed(read_shape(), list, 1)->Some_0 =~= contents.types);
    assert(listed(read_import(), list, 2)->Some_0 =~= contents.imports);
    assert(listed(read_number(), list, 3)->Some_0 =~= contents.functions);
    assert(listed(read_limits(), list, 5)->Some_0 =~= contents.memories);
    assert(listed(read_export(), list, 7)->Some_0 =~= contents.exports);
    assert(listed(read_body(), list, 10)->Some_0 =~= contents.code);
    assert(listed(read_segment(), list, 11)->Some_0 =~= contents.data);
    assert(is_in_order(list));
}

proof fn exports_are_there(layout: Layout)
    ensures
        contents_of(layout).exports.contains(
            (said("_start"@), 0u8, (layout.imports.len() + layout.entry) as nat),
        ),
        layout.memory <==> contents_of(layout).exports.contains((said("memory"@), 2u8, 0nat)),
{
    let exports = contents_of(layout).exports;
    let start = (said("_start"@), 0u8, (layout.imports.len() + layout.entry) as nat);
    if layout.memory {
        assert(exports[1] == start);
        assert(exports[0] == (said("memory"@), 2u8, 0nat));
    } else {
        assert(exports[0] == start);
    }
}

proof fn memory_is_wide_enough(layout: Layout, i: int)
    requires
        0 <= i < layout.data.len(),
    ensures
        layout.data[i].offset + layout.data[i].bytes.len() <= 0x1_0000 * layout.pages(),
        layout.pages() >= 1,
{
    the_highest_is_above(layout, layout.data.len() as int, i);
}

/// What was written is what an engine finds: each function with the words it
/// takes and answers, its locals and its code; each function of the system by
/// its name and with the words that one takes and answers; the entry to start
/// at; memory, where there is any, for the system to see, and wide enough for
/// all that starts out in it; and each run of bytes where it starts out.
#[verifier::rlimit(60)]
#[verifier::spinoff_prover]
pub proof fn what_is_written_is_read(layout: Layout) -> (contents: Contents)
    ensures
        read(layout.module()) == Some(contents),
        contents.functions.len() == layout.bodies.len(),
        contents.code.len() == layout.bodies.len(),
        forall|f: int|
            0 <= f < layout.bodies.len() ==> {
                let body = #[trigger] layout.bodies[f];
                &&& contents.types[contents.functions[f] as int] == (
                    body.params as nat,
                    body.answers as nat,
                )
                &&& contents.code[f] == (body.locals as nat, body.code)
            },
        contents.imports.len() == layout.imports.len(),
        forall|i: int|
            0 <= i < layout.imports.len() ==> {
                let (place, name, shape) = contents.imports[i];
                &&& place == said("wasi_snapshot_preview1"@)
                &&& name == said((#[trigger] layout.imports[i]).text())
                &&& Some(contents.types[shape as int]) == system(name)
            },
        contents.exports.contains(
            (said("_start"@), 0u8, (layout.imports.len() + layout.entry) as nat),
        ),
        layout.memory <==> contents.exports.contains((said("memory"@), 2u8, 0nat)),
        layout.memory <==> contents.memories.len() == 1,
        !layout.memory <==> contents.memories.len() == 0,
        layout.memory ==> forall|i: int|
            0 <= i < layout.data.len() ==> (#[trigger] layout.data[i]).offset
                + layout.data[i].bytes.len() <= 0x1_0000 * contents.memories[0],
        contents.data.len() == layout.data.len(),
        forall|i: int|
            0 <= i < layout.data.len() ==> contents.data[i] == (
                (#[trigger] layout.data[i]).offset as nat,
                layout.data[i].bytes,
            ),
{
    all_is_read(layout);
    let contents = contents_of(layout);
    names_are_told_apart();
    assert forall|i: int| 0 <= i < layout.imports.len() implies Some(
        contents.types[contents.imports[i].2 as int],
    ) == system(said((#[trigger] layout.imports[i]).text())) by {
        assert(contents.types[i] == layout.imports[i].shape());
    }
    assert forall|f: int| 0 <= f < layout.bodies.len() implies contents.types[contents.functions[f] as int]
        == ((#[trigger] layout.bodies[f]).params as nat, layout.bodies[f].answers as nat) by {
        assert(contents.functions[f] == layout.imports.len() + f);
    }
    exports_are_there(layout);
    assert forall|i: int| 0 <= i < layout.data.len() && layout.memory implies (
    #[trigger] layout.data[i]).offset + layout.data[i].bytes.len() <= 0x1_0000
        * contents.memories[0] by {
        memory_is_wide_enough(layout, i);
    }
    contents
}

proof fn names_are_told_apart()
    ensures
        said("fd_write"@) != said("proc_exit"@),
{
    reveal(said);
    reveal_strlit("fd_write");
    reveal_strlit("proc_exit");
    assert("fd_write"@[0] != "proc_exit"@[0]);
    if said("fd_write"@) == said("proc_exit"@) {
        crate::text::bytes_tell_texts_apart("fd_write"@, "proc_exit"@);
    }
}

} // verus!
