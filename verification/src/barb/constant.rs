//! How a known value is encoded.
//!
//! The pool is one byte buffer and a value is a range into it. Everything is
//! self-delimiting, so no length is stored anywhere except where a value's
//! own shape needs one:
//!
//! - **spine-shaped** — a count, then that many element encodings
//! - **one constructor** — its fields, with no tag to choose between them
//! - **otherwise** — a tag, then its fields
//!
//! A type is spine-shaped when it has two constructors, one taking nothing
//! and one taking exactly one field of the type itself. That is `Nat` and it
//! is `List`, which is the point: `Nat` is the member whose elements carry
//! nothing, so all that survives is the count, and a chain of `Succ` costs
//! the logarithm of its value rather than its value.
//!
//! The encoding is structural — which constructor, which fields. It is not a
//! layout. A target is free to hold the same value as a word, as a view into
//! static memory, or as a counted cell, and [`crate::ir`] is where that is
//! decided.

use super::ir::{ConstId, CtorId, Store, TypeId};
use super::Program;
use crate::targets::bytes;
use vstd::prelude::*;
use vstd::slice::slice_subrange;

verus! {

/// How a type's values are encoded, read off its declaration.
#[derive(Clone, Copy, Debug, PartialEq, Eq, Structural)]
pub enum Shape {
    /// `nil` takes nothing; `cons` takes the rest of the value at `recursive`
    /// and carries its element in whatever fields remain.
    Spine { nil: CtorId, cons: CtorId, recursive: usize },
    Tagged,
}

/// A value under construction, before it is encoded.
#[derive(Debug, PartialEq, Eq)]
pub struct Value(pub CtorId, pub Vec<Value>);

/// What a [`Value`] is: a constructor, applied to values.
#[verifier::ext_equal]
pub struct Tree {
    pub ctor: CtorId,
    pub fields: Seq<Tree>,
}

pub open spec fn tree(value: Value) -> Tree
    decreases value,
{
    Tree { ctor: value.0, fields: trees(value.1@) }
}

pub open spec fn trees(values: Seq<Value>) -> Seq<Tree>
    decreases values,
{
    if values.len() == 0 {
        seq![]
    } else {
        trees(values.drop_last()).push(tree(values.last()))
    }
}

impl View for Value {
    type V = Tree;

    open spec fn view(&self) -> Tree {
        tree(*self)
    }
}

/// How many constructors a value applies.
pub open spec fn weight(tree: Tree) -> nat
    decreases tree,
{
    1 + weights(tree.fields)
}

pub open spec fn weights(trees: Seq<Tree>) -> nat
    decreases trees,
{
    if trees.len() == 0 {
        0
    } else {
        weights(trees.drop_last()) + weight(trees.last())
    }
}

/// Where `id` first stands among `fields`, from `from` on.
pub open spec fn place(fields: Seq<TypeId>, id: TypeId, from: int) -> int
    decreases fields.len() - from,
{
    if from >= fields.len() || fields[from] == id {
        from
    } else {
        place(fields, id, from + 1)
    }
}

/// Whether one constructor of `id` takes nothing and the other takes exactly
/// one field of `id` itself.
pub open spec fn is_spine(store: Store, id: TypeId, nil: CtorId, cons: CtorId) -> bool {
    let at = place(store.fields(cons), id, 0);
    &&& store.fields(nil).len() == 0
    &&& at < store.fields(cons).len()
    &&& place(store.fields(cons), id, at + 1) >= store.fields(cons).len()
}

impl Store {
    pub open spec fn shape(self, id: TypeId) -> Shape {
        let first = self.ctor_at(id, 0);
        let second = self.ctor_at(id, 1);
        if self.type_(id).ctors.len != 2 {
            Shape::Tagged
        } else if is_spine(self, id, first, second) {
            Shape::Spine {
                nil: first,
                cons: second,
                recursive: place(self.fields(second), id, 0) as usize,
            }
        } else if is_spine(self, id, second, first) {
            Shape::Spine {
                nil: second,
                cons: first,
                recursive: place(self.fields(first), id, 0) as usize,
            }
        } else {
            Shape::Tagged
        }
    }

    /// Whether a constructor is one of a type's.
    pub open spec fn builds(self, id: TypeId, ctor: CtorId) -> bool {
        self.type_(id).ctors.start <= ctor.0 < self.type_(id).ctors.start + self.type_(id).ctors.len
    }

    /// A spine-shaped type whose elements carry nothing, which is a number.
    pub open spec fn is_number(self, id: TypeId) -> bool {
        self.shape(id) matches Shape::Spine { cons, .. } && self.fields(cons).len() == 1
    }

    /// A spine-shaped type whose elements are each a number, which is a run
    /// of bytes where each of those is small enough.
    pub open spec fn is_run(self, id: TypeId) -> bool {
        self.shape(id) matches Shape::Spine { cons, recursive, .. } && self.fields(cons).len() == 2
            && self.is_number(self.fields(cons)[1 - recursive])
    }
}

/// Whether a value is one of type `id`.
pub open spec fn typed(store: Store, id: TypeId, tree: Tree) -> bool
    decreases tree,
{
    &&& store.builds(id, tree.ctor)
    &&& tree.fields.len() == store.fields(tree.ctor).len()
    &&& all_typed(store, store.fields(tree.ctor), tree.fields)
}

pub open spec fn all_typed(store: Store, types: Seq<TypeId>, trees: Seq<Tree>) -> bool
    decreases trees,
{
    trees.len() == 0 || (all_typed(store, types, trees.drop_last()) && typed(
        store,
        types[trees.len() - 1],
        trees.last(),
    ))
}

/// How many elements a spine has.
pub open spec fn spine_len(tree: Tree, cons: CtorId, recursive: int) -> nat
    decreases tree,
{
    if tree.ctor == cons && 0 <= recursive < tree.fields.len() {
        1 + spine_len(tree.fields[recursive], cons, recursive)
    } else {
        0
    }
}

/// Whether no spine in a value has more elements than thirty-two bits count.
pub open spec fn is_short(store: Store, tree: Tree) -> bool
    decreases tree,
{
    &&& store.shape(store.ctor(tree.ctor).owner) matches Shape::Spine { cons, recursive, .. }
        ==> spine_len(tree, cons, recursive as int) <= u32::MAX
    &&& all_short(store, tree.fields)
}

pub open spec fn all_short(store: Store, trees: Seq<Tree>) -> bool
    decreases trees,
{
    trees.len() == 0 || (all_short(store, trees.drop_last()) && is_short(store, trees.last()))
}

/// How a value of type `id` is encoded.
pub open spec fn encoding(store: Store, id: TypeId, tree: Tree) -> Seq<u8>
    decreases tree, 1nat,
{
    match store.shape(id) {
        Shape::Spine { nil, cons, recursive } => bytes::unsigned_leb(
            spine_len(tree, cons, recursive as int),
        ) + elements(store, tree, cons, recursive as int),
        Shape::Tagged => {
            let tag = if store.type_(id).ctors.len > 1 {
                bytes::unsigned_leb(store.tag(tree.ctor) as nat)
            } else {
                seq![]
            };
            tag + fields_encoding(
                store,
                store.fields(tree.ctor),
                tree.fields,
                tree.fields.len() as int,
            )
        },
    }
}

/// The elements of a spine, one after the other.
pub open spec fn elements(store: Store, tree: Tree, cons: CtorId, recursive: int) -> Seq<u8>
    decreases tree, 0nat,
{
    if tree.ctor == cons && 0 <= recursive < tree.fields.len() {
        fields_encoding(store, store.fields(cons), tree.fields, recursive) + elements(
            store,
            tree.fields[recursive],
            cons,
            recursive,
        )
    } else {
        seq![]
    }
}

/// Fields one after the other, but for the one at `skip`.
pub open spec fn fields_encoding(
    store: Store,
    types: Seq<TypeId>,
    fields: Seq<Tree>,
    skip: int,
) -> Seq<u8>
    decreases fields, 0nat,
{
    if fields.len() == 0 {
        seq![]
    } else {
        let last = fields.len() - 1;
        fields_encoding(store, types, fields.drop_last(), skip) + if last == skip {
            seq![]
        } else {
            encoding(store, types[last], fields.last())
        }
    }
}

/// Whether `bytes` begin with a value of type `id`, one of no more
/// constructors than 64 bits count.
pub open spec fn encodes(store: Store, id: TypeId, tree: Tree, bytes: Seq<u8>) -> bool {
    &&& typed(store, id, tree)
    &&& weight(tree) <= u64::MAX
    &&& encoding(store, id, tree).is_prefix_of(bytes)
}

proof fn trees_are_each(values: Seq<Value>)
    ensures
        trees(values).len() == values.len(),
        forall|i: int| 0 <= i < values.len() ==> #[trigger] trees(values)[i] == tree(values[i]),
    decreases values.len(),
{
    if values.len() > 0 {
        trees_are_each(values.drop_last());
        assert forall|i: int| 0 <= i < values.len() implies #[trigger] trees(values)[i] == tree(
            values[i],
        ) by {
            if i < values.len() - 1 {
                assert(trees(values)[i] == trees(values.drop_last())[i]);
            }
        }
    }
}

proof fn fields_weigh_less(fields: Seq<Tree>, at: int)
    requires
        0 <= at < fields.len(),
    ensures
        weight(fields[at]) <= weights(fields),
    decreases fields.len(),
{
    if at < fields.len() - 1 {
        fields_weigh_less(fields.drop_last(), at);
        assert(fields.drop_last()[at] == fields[at]);
    }
}

/// Each field of a value is of its type.
pub proof fn fields_are_typed(store: Store, types: Seq<TypeId>, fields: Seq<Tree>, at: int)
    requires
        0 <= at < fields.len(),
        all_typed(store, types, fields),
    ensures
        typed(store, types[at], fields[at]),
    decreases fields.len(),
{
    if at < fields.len() - 1 {
        fields_are_typed(store, types, fields.drop_last(), at);
        assert(fields.drop_last()[at] == fields[at]);
    }
}

/// A value's fields are short where it is.
proof fn fields_are_short(store: Store, fields: Seq<Tree>, at: int)
    requires
        0 <= at < fields.len(),
        all_short(store, fields),
    ensures
        is_short(store, fields[at]),
    decreases fields.len(),
{
    if at < fields.len() - 1 {
        fields_are_short(store, fields.drop_last(), at);
        assert(fields.drop_last()[at] == fields[at]);
    }
}

/// A spine weighs at least what it counts.
proof fn a_spine_weighs_its_length(tree: Tree, cons: CtorId, recursive: int)
    ensures
        spine_len(tree, cons, recursive) < weight(tree),
    decreases tree,
{
    if tree.ctor == cons && 0 <= recursive < tree.fields.len() {
        a_spine_weighs_its_length(tree.fields[recursive], cons, recursive);
        fields_weigh_less(tree.fields, recursive);
    }
}

proof fn the_place(fields: Seq<TypeId>, id: TypeId, from: int)
    requires
        0 <= from <= fields.len(),
    ensures
        from <= place(fields, id, from) <= fields.len(),
        place(fields, id, from) < fields.len() ==> fields[place(fields, id, from)] == id,
    decreases fields.len() - from,
{
    if !(from >= fields.len() || fields[from] == id) {
        the_place(fields, id, from + 1);
    }
}

/// What a spine-shaped type is made of.
pub proof fn a_spine_has_two_ends(store: Store, id: TypeId)
    requires
        store.wf(),
        id.0 < store.types.len(),
    ensures
        store.shape(id) matches Shape::Spine { nil, cons, recursive } ==> {
            &&& store.builds(id, nil)
            &&& store.builds(id, cons)
            &&& nil != cons
            &&& forall|ctor: CtorId| #[trigger]
                store.builds(id, ctor) ==> ctor == nil || ctor == cons
            &&& nil.0 < store.ctors.len()
            &&& cons.0 < store.ctors.len()
            &&& store.fields(nil).len() == 0
            &&& recursive < store.fields(cons).len() <= u32::MAX
            &&& store.fields(cons)[recursive as int] == id
        },
{
    assert(store.type_fits(id.0 as int));
    if store.type_(id).ctors.len == 2 {
        let first = store.ctor_at(id, 0);
        let second = store.ctor_at(id, 1);
        assert(store.ctor_fits(first.0 as int));
        assert(store.ctor_fits(second.0 as int));
        the_place(store.fields(first), id, 0);
        the_place(store.fields(second), id, 0);
    }
}

/// A number of 64 bits takes at most ten bytes.
pub proof fn a_number_is_short(value: u64)
    ensures
        0 < bytes::unsigned_leb(value as nat).len() <= 10,
{
    reveal_with_fuel(power, 11);
    a_number_costs_its_logarithm(value as nat, 10);
    bytes::unsigned_leb_is_never_empty(value as nat);
}

/// 128 to the power `count`.
pub open spec fn power(count: nat) -> nat
    decreases count,
{
    if count == 0 {
        1
    } else {
        128 * power((count - 1) as nat)
    }
}

/// A number costs the logarithm of its value: `count` bytes hold every
/// number below 128 to that power.
pub proof fn a_number_costs_its_logarithm(value: nat, count: nat)
    requires
        count > 0,
        value < power(count),
    ensures
        bytes::unsigned_leb(value).len() <= count,
    decreases count,
{
    if value >= 128 {
        reveal_with_fuel(power, 2);
        assert(count > 1) by {
            if count == 1 {
                assert(power(1) == 128);
            }
        }
        a_number_costs_its_logarithm(value / 128, (count - 1) as nat);
    }
}

/// Where `id` first stands among `fields`, from `from` on.
fn find_field(fields: &[TypeId], id: TypeId, from: usize) -> (at: usize)
    requires
        from <= fields@.len(),
    ensures
        at == place(fields@, id, from as int),
        from <= at <= fields@.len(),
{
    let mut at: usize = from;
    while at < fields.len() && fields[at].0 != id.0
        invariant
            from <= at <= fields@.len(),
            place(fields@, id, at as int) == place(fields@, id, from as int),
        decreases fields@.len() - at,
    {
        at = at + 1;
    }
    at
}

/// Where the rest of a spine is among the fields of `cons`, if that and
/// `nil` make one.
fn spine(program: &Program, id: TypeId, nil: CtorId, cons: CtorId) -> (at: Option<usize>)
    requires
        program@.wf(),
        nil.0 < program@.ctors.len(),
        cons.0 < program@.ctors.len(),
    ensures
        at == if is_spine(program@, id, nil, cons) {
            Some(place(program@.fields(cons), id, 0) as usize)
        } else {
            None
        },
{
    let fields = program.fields(cons);
    let at: usize = find_field(fields, id, 0);
    if program.fields(nil).len() == 0 && at < fields.len() && find_field(fields, id, at + 1)
        >= fields.len() {
        Some(at)
    } else {
        None
    }
}

/// How the values of a type are encoded.
pub fn shape(program: &Program, id: TypeId) -> (shape: Shape)
    requires
        program@.wf(),
        id.0 < program@.types.len(),
    ensures
        shape == program@.shape(id),
{
    proof {
        assert(program@.type_fits(id.0 as int));
    }
    let ctors = program.type_(id).ctors;
    if ctors.len() != 2 {
        return Shape::Tagged;
    }
    let first = program.ctor_at(id, 0);
    let second = program.ctor_at(id, 1);
    if let Some(recursive) = spine(program, id, first, second) {
        return Shape::Spine { nil: first, cons: second, recursive };
    }
    if let Some(recursive) = spine(program, id, second, first) {
        return Shape::Spine { nil: second, cons: first, recursive };
    }
    Shape::Tagged
}

/// Seven bits a byte, low first, with the high bit set while more follow.
fn leb128(value: u64, out: &mut Vec<u8>)
    ensures
        final(out)@ == old(out)@ + bytes::unsigned_leb(value as nat),
{
    let mut value: u64 = value;
    let ghost whole = old(out)@ + bytes::unsigned_leb(value as nat);
    while value >= 0x80
        invariant
            out@ + bytes::unsigned_leb(value as nat) == whole,
        decreases value,
    {
        let ghost before = out@;
        out.push((value % 128 + 128) as u8);
        assert(before + bytes::unsigned_leb(value as nat) =~= out@ + bytes::unsigned_leb(
            (value / 128) as nat,
        ));
        value = value / 128;
    }
    out.push(value as u8);
    assert(out@ =~= whole);
}

/// The number at the front of `bytes`, where it takes at most `most` of them
/// and 64 bits hold it.
pub open spec fn number_at(bytes: Seq<u8>, most: nat) -> Option<(nat, nat)> {
    match bytes::read_unsigned(bytes) {
        Some((value, took)) => if took <= most && value <= u64::MAX {
            Some((value, took))
        } else {
            None
        },
        None => None,
    }
}

/// Whether there is a number of 64 bits at the front of `bytes`.
pub open spec fn reads(bytes: Seq<u8>) -> bool {
    number_at(bytes, 10) is Some
}

/// The number at the front of `bytes`, and how many of them it takes.
pub open spec fn front(bytes: Seq<u8>) -> (nat, nat) {
    number_at(bytes, 10)->Some_0
}

/// The number that `bytes` have at `at`, and where it ends.
fn unleb128(bytes: &[u8], at: usize, most: u8) -> (read: Option<(u64, usize)>)
    requires
        at <= bytes@.len(),
    ensures
        read is Some <==> number_at(bytes@.skip(at as int), most as nat) is Some,
        read matches Some((value, end)) ==> at < end <= bytes@.len() && number_at(
            bytes@.skip(at as int),
            most as nat,
        ) == Some((value as nat, (end - at) as nat)),
    decreases most,
{
    let ghost rest = bytes@.skip(at as int);
    if at == bytes.len() || most == 0 {
        return None;
    }
    assert(rest[0] == bytes@[at as int]);
    let byte: u8 = bytes[at];
    if byte < 128 {
        return Some((byte as u64, at + 1));
    }
    assert(rest.drop_first() =~= bytes@.skip(at + 1));
    let low: u64 = byte as u64 - 128;
    match unleb128(bytes, at + 1, most - 1) {
        Some((high, end)) => if high <= (u64::MAX - low) / 128 {
            Some((low + 128 * high, end))
        } else {
            None
        },
        None => None,
    }
}

/// Append the fields of `value` to `out`, but for the one at `skip`.
fn encode_fields(program: &Program, value: &Value, skip: usize, out: &mut Vec<u8>)
    requires
        program@.wf(),
        value@.ctor.0 < program@.ctors.len(),
        value@.fields.len() == program@.fields(value@.ctor).len(),
        all_typed(program@, program@.fields(value@.ctor), value@.fields),
        weight(value@) <= u64::MAX,
        is_short(program@, value@),
    ensures
        final(out)@ == old(out)@ + fields_encoding(
            program@,
            program@.fields(value@.ctor),
            value@.fields,
            skip as int,
        ),
    decreases weight(value@), 0nat,
{
    let ghost store = program@;
    let types = program.fields(value.0);
    let ghost fields = value@.fields;
    let ghost before = out@;
    proof {
        trees_are_each(value.1@);
        assert(store.ctor_fits(value.0.0 as int));
    }
    let mut at: usize = 0;
    assert(fields.take(0) =~= seq![]);
    assert(out@ =~= before + seq![]);
    while at < value.1.len()
        invariant
            program@ == store,
            store.wf(),
            types@ == store.fields(value.0),
            value.0.0 < store.ctors.len(),
            store.ctor_fits(value.0.0 as int),
            fields == value@.fields,
            fields.len() == value.1@.len() == types@.len(),
            forall|i: int| 0 <= i < value.1@.len() ==> fields[i] == #[trigger] value.1@[i]@,
            all_typed(store, types@, fields),
            weight(value@) == 1 + weights(fields),
            weight(value@) <= u64::MAX,
            is_short(store, value@),
            at <= value.1@.len(),
            out@ == before + fields_encoding(store, types@, fields.take(at as int), skip as int),
        decreases value.1@.len() - at,
    {
        let ghost next = fields.take(at + 1);
        proof {
            assert(next.drop_last() =~= fields.take(at as int));
            assert(next.last() == fields[at as int]);
            fields_are_typed(store, types@, fields, at as int);
            fields_weigh_less(fields, at as int);
            fields_are_short(store, fields, at as int);
            assert(fields[at as int] == value.1@[at as int]@);
            assert(types@[at as int] == store.types_pool[store.ctor(value.0).fields.start + at]);
        }
        let ghost now = out@;
        if at != skip {
            encode(program, types[at], &value.1[at], out);
        } else {
            assert(out@ =~= now + seq![]);
        }
        assert(out@ =~= before + fields_encoding(store, types@, next, skip as int));
        at = at + 1;
    }
    assert(fields.take(at as int) =~= fields);
}

/// Append `value` to `out`, answering how many elements it has where its type
/// is spine-shaped and zero otherwise.
pub(crate) fn encode(program: &Program, id: TypeId, value: &Value, out: &mut Vec<u8>) -> (count:
    u32)
    requires
        program@.wf(),
        id.0 < program@.types.len(),
        typed(program@, id, value@),
        weight(value@) <= u64::MAX,
        is_short(program@, value@),
    ensures
        final(out)@ == old(out)@ + encoding(program@, id, value@),
        match program@.shape(id) {
            Shape::Spine { cons, recursive, .. } => count == spine_len(
                value@,
                cons,
                recursive as int,
            ),
            Shape::Tagged => count == 0,
        },
    decreases weight(value@), 1nat,
{
    let ghost store = program@;
    let ghost before = out@;
    proof {
        a_spine_has_two_ends(store, id);
        assert(store.type_fits(id.0 as int));
    }
    match shape(program, id) {
        Shape::Spine { nil, cons, recursive } => {
            // Count first, since a nested spine has no range end to stop at.
            // Walking twice beats holding the chain: it is already in hand.
            let mut count: u64 = 0;
            let mut rest = value;
            proof {
                a_spine_weighs_its_length(value@, cons, recursive as int);
            }
            while rest.0.0 == cons.0
                invariant
                    store.shape(id) == (Shape::Spine { nil, cons, recursive }),
                    store.fields(cons)[recursive as int] == id,
                    recursive < store.fields(cons).len(),
                    typed(store, id, rest@),
                    weight(value@) <= u64::MAX,
                    spine_len(value@, cons, recursive as int) < weight(value@),
                    count + spine_len(rest@, cons, recursive as int) == spine_len(
                        value@,
                        cons,
                        recursive as int,
                    ),
                decreases spine_len(rest@, cons, recursive as int),
            {
                proof {
                    trees_are_each(rest.1@);
                    fields_are_typed(
                        store,
                        store.fields(cons),
                        rest@.fields,
                        recursive as int,
                    );
                    assert(rest@.ctor == cons);
                    assert(rest.1@[recursive as int]@ == rest@.fields[recursive as int]);
                }
                count = count + 1;
                rest = &rest.1[recursive];
            }
            leb128(count, out);

            let mut rest = value;
            let ghost whole = before + encoding(store, id, value@);
            proof {
                assert(out@ + elements(store, rest@, cons, recursive as int) =~= whole);
            }
            while rest.0.0 == cons.0
                invariant
                    program@ == store,
                    store.wf(),
                    store.shape(id) == (Shape::Spine { nil, cons, recursive }),
                    store.fields(cons)[recursive as int] == id,
                    recursive < store.fields(cons).len(),
                    cons.0 < store.ctors.len(),
                    typed(store, id, rest@),
                    weight(rest@) <= weight(value@) <= u64::MAX,
                    is_short(store, rest@),
                    out@ + elements(store, rest@, cons, recursive as int) == whole,
                decreases spine_len(rest@, cons, recursive as int),
            {
                let ghost now = out@;
                proof {
                    trees_are_each(rest.1@);
                    fields_are_typed(
                        store,
                        store.fields(cons),
                        rest@.fields,
                        recursive as int,
                    );
                    fields_weigh_less(rest@.fields, recursive as int);
                    fields_are_short(store, rest@.fields, recursive as int);
                    assert(rest@.ctor == cons);
                    assert(rest.1@[recursive as int]@ == rest@.fields[recursive as int]);
                }
                encode_fields(program, rest, recursive, out);
                assert(out@ + elements(
                    store,
                    rest@.fields[recursive as int],
                    cons,
                    recursive as int,
                ) =~= now + elements(store, rest@, cons, recursive as int));
                rest = &rest.1[recursive];
            }
            assert(out@ =~= whole);
            count as u32
        },
        Shape::Tagged => {
            proof {
                assert(store.ctor_fits(value.0.0 as int));
                trees_are_each(value.1@);
            }
            if program.type_(id).ctors.len() > 1 {
                leb128(program.tag(value.0) as u64, out);
            }
            encode_fields(program, value, value.1.len(), out);
            assert(out@ =~= before + encoding(store, id, value@));
            0
        },
    }
}

impl Program {
    /// Encode a known value into the pool.
    pub fn intern(&mut self, id: TypeId, value: &Value) -> (known: ConstId)
        requires
            old(self)@.wf(),
            id.0 < old(self)@.types.len(),
            typed(old(self)@, id, value@),
            weight(value@) <= u64::MAX,
            is_short(old(self)@, value@),
            old(self)@.room(encoding(old(self)@, id, value@).len()),
        ensures
            final(self)@ == old(self)@.with_const(encoding(old(self)@, id, value@)),
            final(self)@.wf(),
            known.0 == old(self)@.consts.len(),
            final(self)@.known_bytes(known) == encoding(old(self)@, id, value@),
    {
        let mut bytes: Vec<u8> = Vec::new();
        encode(self, id, value, &mut bytes);
        assert(bytes@ =~= encoding(self@, id, value@));
        self.hold(bytes.as_slice())
    }
}

/// What is left of a spine after `count` elements.
pub open spec fn nth(tree: Tree, recursive: int, count: nat) -> Tree
    decreases count,
{
    if count == 0 {
        tree
    } else {
        nth(tree, recursive, (count - 1) as nat).fields[recursive]
    }
}

/// What is known of the rest of a spine after `count` elements.
proof fn a_spine_goes_on(store: Store, id: TypeId, whole: Tree, count: nat)
    requires
        store.wf(),
        id.0 < store.types.len(),
        typed(store, id, whole),
        store.shape(id) is Spine,
        count <= spine_len(whole, store.shape(id)->cons, store.shape(id)->recursive as int),
    ensures
        ({
            let cons = store.shape(id)->cons;
            let at = store.shape(id)->recursive as int;
            let rest = nth(whole, at, count);
            &&& typed(store, id, rest)
            &&& spine_len(rest, cons, at) + count == spine_len(whole, cons, at)
            &&& weight(rest) + count <= weight(whole)
        }),
    decreases count,
{
    a_spine_has_two_ends(store, id);
    if count > 0 {
        a_spine_goes_on(store, id, whole, (count - 1) as nat);
        let cons = store.shape(id)->cons;
        let at = store.shape(id)->recursive as int;
        let before = nth(whole, at, (count - 1) as nat);
        fields_are_typed(store, store.fields(cons), before.fields, at);
        fields_weigh_less(before.fields, at);
    }
}

/// Fields in front of others are encoded in front of them.
proof fn earlier_fields_come_first(
    store: Store,
    types: Seq<TypeId>,
    fields: Seq<Tree>,
    skip: int,
    count: int,
)
    requires
        0 <= count <= fields.len(),
    ensures
        fields_encoding(store, types, fields.take(count), skip).is_prefix_of(
            fields_encoding(store, types, fields, skip),
        ),
    decreases fields.len(),
{
    if count < fields.len() {
        earlier_fields_come_first(store, types, fields.drop_last(), skip, count);
        assert(fields.drop_last().take(count) =~= fields.take(count));
    } else {
        assert(fields.take(count) =~= fields);
    }
}

/// What follows something in a run of bytes is found after it.
proof fn what_follows(first: Seq<u8>, second: Seq<u8>, bytes: Seq<u8>, at: int)
    requires
        0 <= at <= bytes.len(),
        (first + second).is_prefix_of(bytes.skip(at)),
    ensures
        first.is_prefix_of(bytes.skip(at)),
        at + first.len() + second.len() <= bytes.len(),
        second.is_prefix_of(bytes.skip(at + first.len())),
{
    let both = first + second;
    let rest = bytes.skip(at);
    assert(both.len() <= rest.len());
    assert(first =~= rest.take(first.len() as int)) by {
        assert forall|i: int| 0 <= i < first.len() implies first[i] == rest[i] by {
            assert(both[i] == rest[i]);
        }
    }
    assert(second =~= bytes.skip(at + first.len()).take(second.len() as int)) by {
        assert forall|i: int| 0 <= i < second.len() implies second[i] == bytes.skip(
            at + first.len(),
        )[i] by {
            assert(both[first.len() + i] == rest[first.len() + i]);
        }
    }
}

/// Read fields back, with a placeholder at `skip`.
fn decode_fields(
    program: &Program,
    ctor: CtorId,
    bytes: &[u8],
    at: usize,
    skip: usize,
    nil: CtorId,
    whole: Ghost<Tree>,
) -> (read: (Vec<Value>, usize))
    requires
        program@.wf(),
        whole@.ctor == ctor,
        ctor.0 < program@.ctors.len(),
        whole@.fields.len() == program@.fields(ctor).len(),
        all_typed(program@, program@.fields(ctor), whole@.fields),
        weight(whole@) <= u64::MAX,
        at <= bytes@.len(),
        fields_encoding(program@, program@.fields(ctor), whole@.fields, skip as int).is_prefix_of(
            bytes@.skip(at as int),
        ),
    ensures
        read.0@.len() == whole@.fields.len(),
        forall|i: int|
            0 <= i < read.0@.len() && i != skip ==> (#[trigger] read.0@[i])@ == whole@.fields[i],
        read.1 == at + fields_encoding(
            program@,
            program@.fields(ctor),
            whole@.fields,
            skip as int,
        ).len(),
        read.1 <= bytes@.len(),
    decreases weight(whole@), 0nat,
{
    let ghost store = program@;
    let types = program.fields(ctor);
    let ghost fields = whole@.fields;
    let ghost all = fields_encoding(store, types@, fields, skip as int);
    let start: usize = at;
    let mut at: usize = at;
    let mut values: Vec<Value> = Vec::new();
    let mut next: usize = 0;
    proof {
        assert(store.ctor_fits(ctor.0 as int));
        assert(fields.take(0) =~= seq![]);
    }
    while next < types.len()
        invariant
            program@ == store,
            store.wf(),
            ctor.0 < store.ctors.len(),
            store.ctor_fits(ctor.0 as int),
            types@ == store.fields(ctor),
            fields == whole@.fields,
            fields.len() == types@.len(),
            all_typed(store, types@, fields),
            weight(whole@) == 1 + weights(fields),
            weight(whole@) <= u64::MAX,
            next <= types@.len(),
            values@.len() == next,
            forall|i: int|
                0 <= i < values@.len() && i != skip ==> (#[trigger] values@[i])@ == fields[i],
            start <= bytes@.len(),
            all == fields_encoding(store, types@, fields, skip as int),
            all.is_prefix_of(bytes@.skip(start as int)),
            at == start + fields_encoding(
                store,
                types@,
                fields.take(next as int),
                skip as int,
            ).len(),
            at <= bytes@.len(),
        decreases types@.len() - next,
    {
        let ghost upto = fields.take(next + 1);
        proof {
            assert(upto.drop_last() =~= fields.take(next as int));
            assert(upto.last() == fields[next as int]);
            fields_are_typed(store, types@, fields, next as int);
            fields_weigh_less(fields, next as int);
            assert(types@[next as int] == store.types_pool[store.ctor(ctor).fields.start + next]);
            earlier_fields_come_first(store, types@, fields, skip as int, next + 1);
            earlier_fields_come_first(store, types@, upto, skip as int, next as int);
            assert(upto.take(next as int) =~= fields.take(next as int));
        }
        if next == skip {
            let none: Vec<Value> = Vec::new();
            values.push(Value(nil, none));
        } else {
            proof {
                let one = encoding(store, types@[next as int], fields[next as int]);
                let have = fields_encoding(store, types@, fields.take(next as int), skip as int);
                let more = fields_encoding(store, types@, upto, skip as int);
                assert(more == have + one);
                assert(more.is_prefix_of(bytes@.skip(start as int))) by {
                    assert(more =~= all.take(more.len() as int));
                }
                what_follows(have, one, bytes@, start as int);
            }
            let (value, end) = decode_at(
                program,
                types[next],
                bytes,
                at,
                Ghost(fields[next as int]),
            );
            values.push(value);
            at = end;
        }
        next = next + 1;
    }
    assert(fields.take(next as int) =~= fields);
    (values, at)
}

/// Read one value back, from `at` on, answering it and where it ends.
fn decode_at(
    program: &Program,
    id: TypeId,
    bytes: &[u8],
    at: usize,
    whole: Ghost<Tree>,
) -> (read: (Value, usize))
    requires
        program@.wf(),
        id.0 < program@.types.len(),
        at <= bytes@.len(),
        encodes(program@, id, whole@, bytes@.skip(at as int)),
    ensures
        read.0@ == whole@,
        read.1 == at + encoding(program@, id, whole@).len(),
        read.1 <= bytes@.len(),
    decreases weight(whole@), 2nat,
{
    proof {
        a_spine_has_two_ends(program@, id);
    }
    match shape(program, id) {
        Shape::Spine { nil, cons, recursive } => decode_spine(
            program,
            id,
            bytes,
            at,
            nil,
            cons,
            recursive,
            whole,
        ),
        Shape::Tagged => decode_tagged(program, id, bytes, at, whole),
    }
}

fn decode_spine(
    program: &Program,
    id: TypeId,
    bytes: &[u8],
    at: usize,
    nil: CtorId,
    cons: CtorId,
    recursive: usize,
    whole: Ghost<Tree>,
) -> (read: (Value, usize))
    requires
        program@.wf(),
        id.0 < program@.types.len(),
        program@.shape(id) == (Shape::Spine { nil, cons, recursive }),
        at <= bytes@.len(),
        encodes(program@, id, whole@, bytes@.skip(at as int)),
    ensures
        read.0@ == whole@,
        read.1 == at + encoding(program@, id, whole@).len(),
        read.1 <= bytes@.len(),
    decreases weight(whole@), 1nat,
{
    let ghost store = program@;
    let ghost back = recursive as int;
    let ghost rest = bytes@.skip(at as int);
    let ghost text = encoding(store, id, whole@);
    let ghost len = spine_len(whole@, cons, back);
    let ghost body = elements(store, whole@, cons, back);
    proof {
        a_spine_has_two_ends(store, id);
        a_spine_weighs_its_length(whole@, cons, back);
        a_number_reads_back(len as u64, rest);
        assert(text == bytes::unsigned_leb(len) + body);
        what_follows(bytes::unsigned_leb(len), body, bytes@, at as int);
    }
    let (count, start): (u64, usize) = match unleb128(bytes, at, 10) {
        Some(read) => read,
        None => {
            assert(false);
            (0, at)
        },
    };
    assert(count == len);
    assert(start == at + bytes::unsigned_leb(len).len());
    let ghost stop = start + body.len();
    let mut at: usize = start;
    let mut held: Vec<Vec<Value>> = Vec::new();
    let mut taken: u64 = 0;
    while taken < count
        invariant
            program@ == store,
            store.wf(),
            id.0 < store.types.len(),
            store.shape(id) == (Shape::Spine { nil, cons, recursive }),
            back == recursive,
            cons.0 < store.ctors.len(),
            store.fields(cons)[back] == id,
            recursive < store.fields(cons).len(),
            typed(store, id, whole@),
            weight(whole@) <= u64::MAX,
            count == spine_len(whole@, cons, back),
            taken <= count,
            held@.len() == taken,
            forall|j: int| 0 <= j < taken ==> #[trigger] is_element(whole@, back, j, held@[j]@),
            at <= bytes@.len(),
            elements(store, nth(whole@, back, taken as nat), cons, back).is_prefix_of(
                bytes@.skip(at as int),
            ),
            at + elements(store, nth(whole@, back, taken as nat), cons, back).len() == stop,
        decreases count - taken,
    {
        let ghost here = nth(whole@, back, taken as nat);
        let ghost own = fields_encoding(store, store.fields(cons), here.fields, back);
        let ghost more = elements(store, nth(whole@, back, taken as nat + 1), cons, back);
        proof {
            a_spine_goes_on(store, id, whole@, taken as nat);
            assert(here.ctor == cons);
            assert(elements(store, here, cons, back) == own + more);
            what_follows(own, more, bytes@, at as int);
        }
        let (element, end) = decode_fields(program, cons, bytes, at, recursive, nil, Ghost(here));
        held.push(element);
        at = end;
        proof {
            assert forall|j: int| 0 <= j < taken + 1 implies #[trigger] is_element(
                whole@,
                back,
                j,
                held@[j]@,
            ) by {
                if j == taken {
                    assert(held@[j]@ == element@);
                }
            }
        }
        taken = taken + 1;
    }
    // Built from the end, so each element holds the rest of the value.
    let none: Vec<Value> = Vec::new();
    let mut value = Value(nil, none);
    proof {
        a_spine_goes_on(store, id, whole@, count as nat);
        let last = nth(whole@, back, count as nat);
        assert(last.ctor == nil);
        assert(value@.fields =~= last.fields);
        assert(elements(store, last, cons, back) =~= seq![]);
    }
    while held.len() > 0
        invariant
            store.wf(),
            id.0 < store.types.len(),
            store.shape(id) == (Shape::Spine { nil, cons, recursive }),
            back == recursive,
            store.fields(cons)[back] == id,
            recursive < store.fields(cons).len(),
            typed(store, id, whole@),
            held@.len() <= spine_len(whole@, cons, back),
            forall|j: int|
                0 <= j < held@.len() ==> #[trigger] is_element(whole@, back, j, held@[j]@),
            value@ == nth(whole@, back, held@.len()),
        decreases held@.len(),
    {
        let ghost all = held@;
        let ghost left = (held@.len() - 1) as nat;
        let ghost here = nth(whole@, back, left);
        proof {
            a_spine_goes_on(store, id, whole@, left);
            assert(here.ctor == cons);
            assert(is_element(whole@, back, left as int, all[left as int]@));
        }
        match held.pop() {
            Some(element) => {
                let mut element: Vec<Value> = element;
                let ghost before = element@;
                let ghost tail = value@;
                element.set(recursive, value);
                value = Value(cons, element);
                proof {
                    trees_are_each(element@);
                    assert forall|i: int| 0 <= i < here.fields.len() implies value@.fields[i]
                        == here.fields[i] by {
                        if i == back {
                            assert(element@[i]@ == tail);
                        } else {
                            assert(element@[i] == before[i]);
                        }
                    }
                    assert(value@.fields =~= here.fields);
                    assert(value@ =~= here);
                    assert forall|j: int| 0 <= j < held@.len() implies #[trigger] is_element(
                        whole@,
                        back,
                        j,
                        held@[j]@,
                    ) by {
                        assert(held@[j] == all[j]);
                    }
                }
            },
            None => {
                assert(false);
            },
        }
    }
    (value, at)
}

/// Whether `values` are the fields of the element at `at`, but for the rest
/// of the spine.
pub open spec fn is_element(whole: Tree, recursive: int, at: int, values: Seq<Value>) -> bool {
    let here = nth(whole, recursive, at as nat);
    &&& values.len() == here.fields.len()
    &&& forall|i: int|
        0 <= i < values.len() && i != recursive ==> (#[trigger] values[i])@ == here.fields[i]
}

fn decode_tagged(
    program: &Program,
    id: TypeId,
    bytes: &[u8],
    at: usize,
    whole: Ghost<Tree>,
) -> (read: (Value, usize))
    requires
        program@.wf(),
        id.0 < program@.types.len(),
        program@.shape(id) is Tagged,
        at <= bytes@.len(),
        encodes(program@, id, whole@, bytes@.skip(at as int)),
    ensures
        read.0@ == whole@,
        read.1 == at + encoding(program@, id, whole@).len(),
        read.1 <= bytes@.len(),
    decreases weight(whole@), 1nat,
{
    let ghost store = program@;
    let ghost rest = bytes@.skip(at as int);
    let ghost ctor = whole@.ctor;
    let ghost fields = fields_encoding(
        store,
        store.fields(ctor),
        whole@.fields,
        whole@.fields.len() as int,
    );
    proof {
        assert(store.type_fits(id.0 as int));
        assert(store.ctor_fits(ctor.0 as int));
    }
    let mut found: u32 = 0;
    let mut start: usize = at;
    if program.type_(id).ctors.len() > 1 {
        let ghost tag = store.tag(ctor) as u64;
        proof {
            a_number_reads_back(tag, rest);
            assert(encoding(store, id, whole@) == bytes::unsigned_leb(tag as nat) + fields);
            what_follows(bytes::unsigned_leb(tag as nat), fields, bytes@, at as int);
        }
        match unleb128(bytes, at, 10) {
            Some((value, end)) => {
                assert(value == tag);
                found = value as u32;
                start = end;
            },
            None => {
                assert(false);
            },
        }
    } else {
        assert(encoding(store, id, whole@) =~= fields);
    }
    let read_ctor = program.ctor_at(id, found);
    assert(read_ctor == ctor);
    let skip: usize = program.fields(read_ctor).len();
    let (values, end) = decode_fields(program, read_ctor, bytes, start, skip, read_ctor, whole);
    let value = Value(read_ctor, values);
    proof {
        trees_are_each(values@);
        assert(value@.fields =~= whole@.fields) by {
            assert forall|i: int| 0 <= i < values@.len() implies value@.fields[i]
                == whole@.fields[i] by {
                assert(values@[i]@ == whole@.fields[i]);
            }
        }
    }
    (value, end)
}

/// Whether there is a number of 64 bits at the front of `bytes`.
pub(crate) fn is_readable(bytes: &[u8]) -> (readable: bool)
    ensures
        readable == reads(bytes@),
{
    assert(bytes@.skip(0) =~= bytes@);
    unleb128(bytes, 0, 10).is_some()
}

/// A number that bytes begin with is the number they read as.
pub proof fn a_number_reads_back(value: u64, rest: Seq<u8>)
    ensures
        bytes::unsigned_leb(value as nat).is_prefix_of(rest) ==> number_at(rest, 10) == Some(
            (value as nat, bytes::unsigned_leb(value as nat).len()),
        ),
{
    let text = bytes::unsigned_leb(value as nat);
    if text.is_prefix_of(rest) {
        bytes::unsigned_leb_reads_back(value as nat, rest.skip(text.len() as int));
        assert(text + rest.skip(text.len() as int) =~= rest);
        a_number_is_short(value);
    }
}

/// Bytes begin with one value of a type at most: where two values of a type
/// are both encoded at the front of them, they are one value.
pub proof fn an_encoding_is_of_one_value(
    store: Store,
    id: TypeId,
    left: Tree,
    right: Tree,
    bytes: Seq<u8>,
    at: int,
)
    requires
        store.wf(),
        id.0 < store.types.len(),
        0 <= at <= bytes.len(),
        typed(store, id, left),
        typed(store, id, right),
        encoding(store, id, left).is_prefix_of(bytes.skip(at)),
        encoding(store, id, right).is_prefix_of(bytes.skip(at)),
    ensures
        left == right,
    decreases weight(left), 2nat,
{
    let rest = bytes.skip(at);
    assert(store.type_fits(id.0 as int));
    a_spine_has_two_ends(store, id);
    match store.shape(id) {
        Shape::Spine { nil, cons, recursive } => {
            let back = recursive as int;
            let one = spine_len(left, cons, back);
            let other = spine_len(right, cons, back);
            let ones = elements(store, left, cons, back);
            let others = elements(store, right, cons, back);
            what_follows(bytes::unsigned_leb(one), ones, bytes, at);
            what_follows(bytes::unsigned_leb(other), others, bytes, at);
            leading_numbers_agree(one, other, rest);
            elements_are_of_one_spine(
                store,
                id,
                left,
                right,
                bytes,
                at + bytes::unsigned_leb(one).len(),
            );
        },
        Shape::Tagged => {
            assert(store.ctor_fits(left.ctor.0 as int));
            assert(store.ctor_fits(right.ctor.0 as int));
            let ones = fields_encoding(
                store,
                store.fields(left.ctor),
                left.fields,
                left.fields.len() as int,
            );
            let others = fields_encoding(
                store,
                store.fields(right.ctor),
                right.fields,
                right.fields.len() as int,
            );
            let mut from = at;
            if store.type_(id).ctors.len > 1 {
                let one = store.tag(left.ctor) as nat;
                let other = store.tag(right.ctor) as nat;
                what_follows(bytes::unsigned_leb(one), ones, bytes, at);
                what_follows(bytes::unsigned_leb(other), others, bytes, at);
                leading_numbers_agree(one, other, rest);
                from = at + bytes::unsigned_leb(one).len();
            } else {
                assert(encoding(store, id, left) =~= ones);
                assert(encoding(store, id, right) =~= others);
            }
            assert(left.ctor == right.ctor);
            fields_are_of_one_value(
                store,
                left.ctor,
                left.fields,
                right.fields,
                left.fields.len() as int,
                bytes,
                from,
            );
            assert(left.fields =~= right.fields);
        },
    }
}

proof fn leading_numbers_agree(left: nat, right: nat, bytes: Seq<u8>)
    requires
        bytes::unsigned_leb(left).is_prefix_of(bytes),
        bytes::unsigned_leb(right).is_prefix_of(bytes),
    ensures
        left == right,
{
    let one = bytes::unsigned_leb(left);
    let other = bytes::unsigned_leb(right);
    bytes::unsigned_leb_reads_back(left, bytes.skip(one.len() as int));
    bytes::unsigned_leb_reads_back(right, bytes.skip(other.len() as int));
    assert(one + bytes.skip(one.len() as int) =~= bytes);
    assert(other + bytes.skip(other.len() as int) =~= bytes);
}

proof fn elements_are_of_one_spine(
    store: Store,
    id: TypeId,
    left: Tree,
    right: Tree,
    bytes: Seq<u8>,
    at: int,
)
    requires
        store.wf(),
        id.0 < store.types.len(),
        store.shape(id) is Spine,
        0 <= at <= bytes.len(),
        typed(store, id, left),
        typed(store, id, right),
        spine_len(left, store.shape(id)->cons, store.shape(id)->recursive as int) == spine_len(
            right,
            store.shape(id)->cons,
            store.shape(id)->recursive as int,
        ),
        elements(
            store,
            left,
            store.shape(id)->cons,
            store.shape(id)->recursive as int,
        ).is_prefix_of(bytes.skip(at)),
        elements(
            store,
            right,
            store.shape(id)->cons,
            store.shape(id)->recursive as int,
        ).is_prefix_of(bytes.skip(at)),
    ensures
        left == right,
    decreases weight(left), 1nat,
{
    let nil = store.shape(id)->nil;
    let cons = store.shape(id)->cons;
    let back = store.shape(id)->recursive as int;
    a_spine_has_two_ends(store, id);
    if left.ctor == cons {
        assert(right.ctor == cons);
        let types = store.fields(cons);
        let ones = fields_encoding(store, types, left.fields, back);
        let others = fields_encoding(store, types, right.fields, back);
        what_follows(ones, elements(store, left.fields[back], cons, back), bytes, at);
        what_follows(others, elements(store, right.fields[back], cons, back), bytes, at);
        fields_are_of_one_value(store, cons, left.fields, right.fields, back, bytes, at);
        fields_are_typed(store, types, left.fields, back);
        fields_are_typed(store, types, right.fields, back);
        fields_weigh_less(left.fields, back);
        elements_are_of_one_spine(
            store,
            id,
            left.fields[back],
            right.fields[back],
            bytes,
            at + ones.len(),
        );
        assert(left.fields =~= right.fields);
    } else {
        assert(store.builds(id, left.ctor));
        assert(store.builds(id, right.ctor));
        assert(right.ctor != cons);
        assert(left.fields =~= right.fields);
    }
}

proof fn fields_are_of_one_value(
    store: Store,
    ctor: CtorId,
    left: Seq<Tree>,
    right: Seq<Tree>,
    skip: int,
    bytes: Seq<u8>,
    at: int,
)
    requires
        store.wf(),
        ctor.0 < store.ctors.len(),
        left.len() == right.len() <= store.fields(ctor).len(),
        0 <= at <= bytes.len(),
        all_typed(store, store.fields(ctor), left),
        all_typed(store, store.fields(ctor), right),
        fields_encoding(store, store.fields(ctor), left, skip).is_prefix_of(bytes.skip(at)),
        fields_encoding(store, store.fields(ctor), right, skip).is_prefix_of(bytes.skip(at)),
    ensures
        forall|i: int| 0 <= i < left.len() && i != skip ==> #[trigger] left[i] == right[i],
        fields_encoding(store, store.fields(ctor), left, skip) == fields_encoding(
            store,
            store.fields(ctor),
            right,
            skip,
        ),
    decreases weights(left), 3nat,
{
    if left.len() > 0 {
        let types = store.fields(ctor);
        let last = left.len() - 1;
        let one = if last == skip {
            seq![]
        } else {
            encoding(store, types[last], left.last())
        };
        let other = if last == skip {
            seq![]
        } else {
            encoding(store, types[last], right.last())
        };
        let ones = fields_encoding(store, types, left.drop_last(), skip);
        let others = fields_encoding(store, types, right.drop_last(), skip);
        what_follows(ones, one, bytes, at);
        what_follows(others, other, bytes, at);
        assert(weight(left.last()) >= 1);
        fields_are_of_one_value(
            store,
            ctor,
            left.drop_last(),
            right.drop_last(),
            skip,
            bytes,
            at,
        );
        assert(store.ctor_fits(ctor.0 as int));
        assert(types[last] == store.types_pool[store.ctor(ctor).fields.start + last]);
        if last != skip {
            an_encoding_is_of_one_value(
                store,
                types[last],
                left.last(),
                right.last(),
                bytes,
                at + ones.len(),
            );
        }
        assert forall|i: int| 0 <= i < left.len() && i != skip implies #[trigger] left[i]
            == right[i] by {
            if i < last {
                assert(left.drop_last()[i] == right.drop_last()[i]);
            }
        }
    }
}

/// Read one value back, answering it and how many bytes it took.
///
/// This builds the value in full, so a chain as long as its own magnitude
/// costs that much: a number is better read with [`as_number`] and a run of
/// bytes with [`as_bytes`].
pub fn decode(program: &Program, id: TypeId, bytes: &[u8]) -> (read: (Value, usize))
    requires
        program@.wf(),
        id.0 < program@.types.len(),
        exists|tree: Tree| #[trigger] encodes(program@, id, tree, bytes@),
    ensures
        encodes(program@, id, read.0@, bytes@),
        read.1 == encoding(program@, id, read.0@).len(),
        forall|tree: Tree| #[trigger]
            encodes(program@, id, tree, bytes@) ==> read.0@ == tree,
{
    let ghost whole = choose|tree: Tree| encodes(program@, id, tree, bytes@);
    assert(bytes@.skip(0) =~= bytes@);
    let read = decode_at(program, id, bytes, 0, Ghost(whole));
    proof {
        assert forall|tree: Tree| #[trigger] encodes(program@, id, tree, bytes@) implies read.0@
            == tree by {
            an_encoding_is_of_one_value(program@, id, whole, tree, bytes@, 0);
        }
    }
    read
}

/// A spine-shaped value whose elements carry nothing, which is a number.
/// Reading it costs nothing, where [`decode`] would build the whole chain.
pub fn as_number(program: &Program, id: TypeId, bytes: &[u8]) -> (number: Option<u64>)
    requires
        program@.wf(),
        id.0 < program@.types.len(),
        program@.is_number(id) ==> reads(bytes@),
    ensures
        number is Some <==> program@.is_number(id),
        number matches Some(value) ==> value == front(bytes@).0,
{
    proof {
        a_spine_has_two_ends(program@, id);
    }
    let cons = match shape(program, id) {
        Shape::Spine { cons, .. } => cons,
        Shape::Tagged => {
            return None;
        },
    };
    if program.fields(cons).len() != 1 {
        return None;
    }
    assert(bytes@.skip(0) =~= bytes@);
    match unleb128(bytes, 0, 10) {
        Some((value, _)) => Some(value),
        None => None,
    }
}

/// The elements of a spine-shaped value, when each of them encoded to one
/// byte.
///
/// The run is then the value itself, so a target can lift it into static
/// memory as it stands rather than walking it element by element.
pub fn as_bytes<'a>(program: &Program, id: TypeId, bytes: &'a [u8]) -> (run: Option<&'a [u8]>)
    requires
        program@.wf(),
        id.0 < program@.types.len(),
        program@.shape(id) is Spine ==> reads(bytes@),
    ensures
        run is Some <==> program@.shape(id) is Spine && {
            let (count, took) = front(bytes@);
            bytes@.len() - took == count
        },
        run matches Some(elements) ==> elements@ == bytes@.skip(front(bytes@).1 as int),
{
    match shape(program, id) {
        Shape::Spine { .. } => {},
        Shape::Tagged => {
            return None;
        },
    }
    assert(bytes@.skip(0) =~= bytes@);
    match unleb128(bytes, 0, 10) {
        Some((count, at)) => {
            if (bytes.len() - at) as u64 == count {
                Some(slice_subrange(bytes, at, bytes.len()))
            } else {
                None
            }
        },
        None => None,
    }
}

/// A number, as the chain of constructors it stands for.
pub open spec fn number_tree(store: Store, id: TypeId, value: nat) -> Tree
    decreases value,
{
    if value == 0 {
        Tree { ctor: store.shape(id)->nil, fields: seq![] }
    } else {
        Tree {
            ctor: store.shape(id)->cons,
            fields: seq![number_tree(store, id, (value - 1) as nat)],
        }
    }
}

/// The bytes a run of them is encoded as, after the count.
pub open spec fn payload(run: Seq<u8>) -> Seq<u8>
    decreases run.len(),
{
    if run.len() == 0 {
        seq![]
    } else {
        bytes::unsigned_leb(run[0] as nat) + payload(run.drop_first())
    }
}

/// A run of bytes, encoded: the count, then each of them.
pub open spec fn run_encoding(run: Seq<u8>) -> Seq<u8> {
    bytes::unsigned_leb(run.len()) + payload(run)
}

/// A run of bytes, as the chain of constructors it stands for.
pub open spec fn run_tree(store: Store, id: TypeId, run: Seq<u8>) -> Tree
    decreases run.len(),
{
    if run.len() == 0 {
        Tree { ctor: store.shape(id)->nil, fields: seq![] }
    } else {
        let cons = store.shape(id)->cons;
        let back = store.shape(id)->recursive as int;
        let element = number_tree(store, store.fields(cons)[1 - back], run[0] as nat);
        let rest = run_tree(store, id, run.drop_first());
        Tree {
            ctor: cons,
            fields: if back == 0 {
                seq![rest, element]
            } else {
                seq![element, rest]
            },
        }
    }
}

/// All that is encoded of a number is its count.
pub proof fn a_number_is_its_count(store: Store, id: TypeId, value: nat)
    requires
        store.wf(),
        id.0 < store.types.len(),
        store.is_number(id),
    ensures
        typed(store, id, number_tree(store, id, value)),
        weight(number_tree(store, id, value)) == value + 1,
        spine_len(number_tree(store, id, value), store.shape(id)->cons, 0) == value,
        encoding(store, id, number_tree(store, id, value)) == bytes::unsigned_leb(value),
    decreases value,
{
    let whole = number_tree(store, id, value);
    let cons = store.shape(id)->cons;
    let nil = store.shape(id)->nil;
    a_spine_has_two_ends(store, id);
    assert(store.shape(id)->recursive == 0);
    if value > 0 {
        let rest = number_tree(store, id, (value - 1) as nat);
        a_number_is_its_count(store, id, (value - 1) as nat);
        assert(whole.fields == seq![rest]);
        assert(whole.fields.drop_last() =~= seq![]);
        assert(whole.fields.last() == rest);
        assert(weights(whole.fields.drop_last()) == 0);
        assert(fields_encoding(store, store.fields(cons), whole.fields.drop_last(), 0) =~= seq![]);
        assert(fields_encoding(store, store.fields(cons), whole.fields, 0) =~= seq![]);
        assert(elements(store, whole, cons, 0) =~= elements(store, rest, cons, 0));
        assert(encoding(store, id, rest) == bytes::unsigned_leb((value - 1) as nat) + elements(
            store,
            rest,
            cons,
            0,
        ));
        assert(elements(store, rest, cons, 0).len() == 0);
        assert(elements(store, whole, cons, 0) =~= seq![]);
        assert(all_typed(store, store.fields(cons), whole.fields.drop_last()));
    } else {
        assert(whole.fields =~= seq![]);
        assert(spine_len(whole, cons, 0) == 0);
        assert(elements(store, whole, cons, 0) =~= seq![]);
    }
    assert(encoding(store, id, whole) =~= bytes::unsigned_leb(value));
}

/// A run of bytes is encoded as its count, then each of them.
pub proof fn a_run_is_its_elements(store: Store, id: TypeId, run: Seq<u8>)
    requires
        store.wf(),
        id.0 < store.types.len(),
        store.is_run(id),
    ensures
        typed(store, id, run_tree(store, id, run)),
        weight(run_tree(store, id, run)) <= 1 + 257 * run.len(),
        spine_len(
            run_tree(store, id, run),
            store.shape(id)->cons,
            store.shape(id)->recursive as int,
        ) == run.len(),
        elements(
            store,
            run_tree(store, id, run),
            store.shape(id)->cons,
            store.shape(id)->recursive as int,
        ) == payload(run),
        encoding(store, id, run_tree(store, id, run)) == run_encoding(run),
    decreases run.len(),
{
    let whole = run_tree(store, id, run);
    let cons = store.shape(id)->cons;
    let back = store.shape(id)->recursive as int;
    a_spine_has_two_ends(store, id);
    if run.len() > 0 {
        let types = store.fields(cons);
        let of = types[1 - back];
        let element = number_tree(store, of, run[0] as nat);
        let rest = run_tree(store, id, run.drop_first());
        assert(store.ctor_fits(cons.0 as int));
        assert(types[1 - back] == store.types_pool[store.ctor(cons).fields.start + 1 - back]);
        a_number_is_its_count(store, of, run[0] as nat);
        a_run_is_its_elements(store, id, run.drop_first());
        let fields = whole.fields;
        let first = fields.drop_last();
        let none = first.drop_last();
        assert(fields[back] == rest);
        assert(fields[1 - back] == element);
        assert(none =~= seq![]);
        assert(weights(none) == 0);
        assert(weights(first) == weight(fields[0]));
        assert(weights(fields) == weight(fields[0]) + weight(fields[1]));
        assert(all_typed(store, types, none));
        assert(all_typed(store, types, first));
        assert(all_typed(store, types, fields));
        assert(fields_encoding(store, types, none, back) =~= seq![]);
        assert(fields_encoding(store, types, first, back) =~= if back == 0 {
            seq![]
        } else {
            bytes::unsigned_leb(run[0] as nat)
        });
        assert(fields_encoding(store, types, fields, back) =~= bytes::unsigned_leb(run[0] as nat));
        assert(elements(store, whole, cons, back) =~= payload(run));
    } else {
        assert(whole.fields =~= seq![]);
    }
}

/// A run of ASCII is its own bytes after the count, and no other run is: one
/// byte past it takes two bytes.
pub proof fn an_ascii_run_is_its_own_bytes(run: Seq<u8>)
    ensures
        payload(run).len() >= run.len(),
        payload(run).len() == run.len() <==> forall|i: int| 0 <= i < run.len() ==> run[i] < 128,
        payload(run).len() == run.len() ==> payload(run) == run,
    decreases run.len(),
{
    if run.len() > 0 {
        an_ascii_run_is_its_own_bytes(run.drop_first());
        let rest = run.drop_first();
        bytes::unsigned_leb_is_never_empty(run[0] as nat);
        if run[0] < 128 {
            if forall|i: int| 0 <= i < rest.len() ==> rest[i] < 128 {
                assert forall|i: int| 0 <= i < run.len() implies run[i] < 128 by {
                    if i > 0 {
                        assert(rest[i - 1] == run[i]);
                    }
                }
                assert(payload(run) =~= run);
            } else {
                let bad = choose|i: int| 0 <= i < rest.len() && !(rest[i] < 128);
                assert(run[bad + 1] == rest[bad]);
            }
        } else {
            bytes::unsigned_leb_is_never_empty((run[0] as nat) / 128);
            assert(bytes::unsigned_leb(run[0] as nat).len() >= 2);
        }
    }
}

/// What is at the front of an encoded run is how long it is, and the rest is
/// its elements: so [`as_bytes`] lifts a run exactly where it is ASCII.
pub proof fn a_run_begins_with_its_length(run: Seq<u8>)
    requires
        run.len() <= u64::MAX,
    ensures
        reads(run_encoding(run)),
        front(run_encoding(run)) == (run.len(), bytes::unsigned_leb(run.len()).len()),
        run_encoding(run).skip(front(run_encoding(run)).1 as int) == payload(run),
{
    let count = bytes::unsigned_leb(run.len());
    a_number_reads_back(run.len() as u64, run_encoding(run));
    assert(count.is_prefix_of(run_encoding(run)));
    assert(run_encoding(run).skip(count.len() as int) =~= payload(run));
}

/// Write a number straight out, without building the chain of constructors
/// it stands for.
pub(crate) fn write_number(value: u64, out: &mut Vec<u8>)
    ensures
        final(out)@ == old(out)@ + bytes::unsigned_leb(value as nat),
{
    leb128(value, out);
}

/// The same for a run of bytes: the count, then each of them.
pub(crate) fn write_bytes(run: &[u8], out: &mut Vec<u8>)
    ensures
        final(out)@ == old(out)@ + run_encoding(run@),
{
    leb128(run.len() as u64, out);
    let ghost whole = old(out)@ + run_encoding(run@);
    let mut at: usize = 0;
    assert(run@.skip(0) =~= run@);
    assert(out@ + payload(run@) =~= whole);
    while at < run.len()
        invariant
            at <= run@.len(),
            out@ + payload(run@.skip(at as int)) == whole,
        decreases run@.len() - at,
    {
        let ghost before = out@;
        let ghost rest = run@.skip(at as int);
        leb128(run[at] as u64, out);
        at = at + 1;
        assert(rest.drop_first() =~= run@.skip(at as int));
        assert(out@ + payload(run@.skip(at as int)) =~= before + payload(rest));
    }
    assert(out@ =~= whole);
}

impl Program {
    /// Hold a number, without building the chain of constructors it stands
    /// for.
    pub fn intern_number(&mut self, id: TypeId, value: u64) -> (known: ConstId)
        requires
            old(self)@.wf(),
            id.0 < old(self)@.types.len(),
            old(self)@.is_number(id),
            old(self)@.room(10),
        ensures
            final(self)@ == old(self)@.with_const(bytes::unsigned_leb(value as nat)),
            final(self)@.wf(),
            known.0 == old(self)@.consts.len(),
            final(self)@.known_bytes(known) == encoding(
                old(self)@,
                id,
                number_tree(old(self)@, id, value as nat),
            ),
    {
        proof {
            a_number_is_short(value);
            a_number_is_its_count(self@, id, value as nat);
        }
        let mut bytes: Vec<u8> = Vec::new();
        write_number(value, &mut bytes);
        assert(bytes@ =~= bytes::unsigned_leb(value as nat));
        self.hold(bytes.as_slice())
    }

    /// Hold a run of bytes, without building the chain of constructors it
    /// stands for.
    pub fn intern_bytes(&mut self, id: TypeId, run: &[u8]) -> (known: ConstId)
        requires
            old(self)@.wf(),
            id.0 < old(self)@.types.len(),
            old(self)@.is_run(id),
            old(self)@.room(run_encoding(run@).len()),
        ensures
            final(self)@ == old(self)@.with_const(run_encoding(run@)),
            final(self)@.wf(),
            known.0 == old(self)@.consts.len(),
            final(self)@.known_bytes(known) == encoding(
                old(self)@,
                id,
                run_tree(old(self)@, id, run@),
            ),
    {
        proof {
            a_run_is_its_elements(self@, id, run@);
        }
        let mut bytes: Vec<u8> = Vec::new();
        write_bytes(run, &mut bytes);
        assert(bytes@ =~= run_encoding(run@));
        self.hold(bytes.as_slice())
    }
}

} // verus!
