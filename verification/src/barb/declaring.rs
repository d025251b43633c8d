//! What is declared is what was written.

use super::builder::Declared;
use super::ir::{CtorId, Store, TypeId};
use super::parse;
use super::syntax::{CtorForm, TypeForm};
use super::telling;
use crate::pool;
use vstd::prelude::*;

verus! {

/// Whether no two types have one name.
pub open spec fn are_told_apart(types: Seq<TypeForm>) -> bool {
    forall|i: int, j: int|
        0 <= i < j < types.len() ==> (#[trigger] types[i]).name != (#[trigger] types[j]).name
}

/// Whether a constructor is what was written: by its name, of its type, and
/// with a field of the type that each name it was written with names.
pub open spec fn is_as_written(
    store: Store,
    types: Seq<TypeForm>,
    ctor: CtorId,
    owner: int,
    form: CtorForm,
) -> bool {
    let held = store.ctor(ctor);
    &&& ctor.0 < store.ctors.len()
    &&& held.owner.0 == owner
    &&& held.name.0 < store.names.len()
    &&& store.name(held.name) == form.name
    &&& held.fields.within(store.types_pool.len())
    &&& store.fields(ctor).len() == form.fields.len()
    &&& forall|k: int|
        0 <= k < form.fields.len() ==> {
            let field = #[trigger] store.fields(ctor)[k];
            &&& field.0 < types.len()
            &&& types[field.0 as int].name == form.fields[k]
        }
}

/// Whether a type has the constructors it was written with, in order.
pub open spec fn has_what_was_written(store: Store, types: Seq<TypeForm>, at: int) -> bool {
    let held = store.types[at].ctors;
    &&& held.len == types[at].ctors.len()
    &&& held.within(store.ctors.len())
    &&& forall|c: int|
        0 <= c < types[at].ctors.len() ==> is_as_written(
            store,
            types,
            CtorId((held.start + c) as u32),
            at,
            #[trigger] types[at].ctors[c],
        )
}

/// Whether there is a type for each that was written, by its name.
pub open spec fn are_named(store: Store, types: Seq<TypeForm>) -> bool {
    &&& store.names.fits()
    &&& store.types.len() == types.len()
    &&& types.len() <= u32::MAX
    &&& forall|i: int|
        0 <= i < types.len() ==> (#[trigger] store.types[i]).name.0 < store.names.len()
            && store.name(store.types[i].name) == types[i].name
}

/// Whether a program has all the constructors another does, and its types by
/// the same names.
spec fn has_more(store: Store, before: Store) -> bool {
    &&& store.names.fits()
    &&& store.names.holds(before.names)
    &&& before.ctors.is_prefix_of(store.ctors)
    &&& before.types_pool.is_prefix_of(store.types_pool)
    &&& store.types.len() == before.types.len()
    &&& forall|i: int|
        0 <= i < store.types.len() ==> (#[trigger] store.types[i]).name == before.types[i].name
}

proof fn having_more_chains(first: Store, second: Store, third: Store)
    requires
        has_more(second, first),
        has_more(third, second),
    ensures
        has_more(third, first),
{
    pool::holding_names_chains(first.names, second.names, third.names);
    assert forall|i: int| 0 <= i < first.ctors.len() implies first.ctors[i] == third.ctors[i] by {
        assert(first.ctors[i] == second.ctors[i]);
    }
    assert forall|i: int| 0 <= i < first.types_pool.len() implies first.types_pool[i]
        == third.types_pool[i] by {
        assert(first.types_pool[i] == second.types_pool[i]);
    }
    assert forall|i: int| 0 <= i < third.types.len() implies (#[trigger] third.types[i]).name
        == first.types[i].name by {
        assert(third.types[i].name == second.types[i].name);
    }
}

proof fn what_was_written_stays(
    store: Store,
    before: Store,
    types: Seq<TypeForm>,
    ctor: CtorId,
    owner: int,
    form: CtorForm,
)
    requires
        has_more(store, before),
        is_as_written(before, types, ctor, owner, form),
    ensures
        is_as_written(store, types, ctor, owner, form),
{
    let held = before.ctor(ctor);
    assert(store.ctors[ctor.0 as int] == before.ctors[ctor.0 as int]);
    assert(store.names.bytes(held.name.0 as int) == before.names.bytes(held.name.0 as int));
    assert(store.fields(ctor) =~= before.fields(ctor)) by {
        assert forall|k: int| 0 <= k < held.fields.len implies #[trigger] store.fields(ctor)[k]
            == before.fields(ctor)[k] by {
            let at = held.fields.start + k;
            assert(store.types_pool[at] == before.types_pool[at]);
        }
    }
}

proof fn names_of_types_stay(store: Store, before: Store, types: Seq<TypeForm>)
    requires
        has_more(store, before),
        are_named(before, types),
    ensures
        are_named(store, types),
{
    assert forall|i: int| 0 <= i < types.len() implies (#[trigger] store.types[i]).name.0
        < store.names.len() && store.name(store.types[i].name) == types[i].name by {
        let symbol = before.types[i].name.0 as int;
        assert(store.types[i].name == before.types[i].name);
        assert(store.names.bytes(symbol) == before.names.bytes(symbol));
    }
}

proof fn types_are_declared(types: Seq<TypeForm>, count: nat)
    requires
        count <= types.len(),
    ensures
        parse::types_declared(Store::nothing(), types, count) matches Ok(store) ==> {
            &&& are_named(store, types.take(count as int))
            &&& store.ctors.len() == 0
            &&& store.types_pool.len() == 0
            &&& store.functions.len() == 0
        },
    decreases count,
{
    let list = types.take(count as int);
    if count == 0 {
        assert(Store::nothing().names.fits()) by {
            vstd::utf8::encode_utf8_valid_utf8(seq![]);
            assert(vstd::utf8::encode_utf8(seq![]) =~= seq![]);
        }
    } else {
        let fewer = (count - 1) as nat;
        types_are_declared(types, fewer);
        if let Ok(mid) = parse::types_declared(Store::nothing(), types, fewer) {
            let name = types[count - 1].name;
            if mid.room(parse::length(name) + 1) {
                pool::naming_keeps_names(mid.names, name);
                let store = mid.with_type(name);
                assert forall|i: int| 0 <= i < list.len() implies (
                #[trigger] store.types[i]).name.0 < store.names.len() && store.name(
                    store.types[i].name,
                ) == list[i].name by {
                    if i < fewer {
                        assert(store.types[i] == mid.types[i]);
                        let symbol = mid.types[i].name.0 as int;
                        assert(store.names.bytes(symbol) == mid.names.bytes(symbol));
                        assert(types.take(fewer as int)[i] == list[i]);
                    }
                }
            }
        }
    }
}

proof fn a_name_is_of_a_type(types: Seq<TypeForm>, name: Seq<char>, count: nat)
    requires
        count <= types.len() <= u32::MAX,
    ensures
        parse::type_named(types, name, count) matches Some(id) ==> id.0 < count
            && types[id.0 as int].name == name,
        parse::type_named(types, name, count) is None ==> forall|i: int|
            0 <= i < count ==> (#[trigger] types[i]).name != name,
    decreases count,
{
    if count > 0 {
        a_name_is_of_a_type(types, name, (count - 1) as nat);
    }
}

proof fn fields_are_of_types(types: Seq<TypeForm>, fields: Seq<Seq<char>>, count: nat)
    requires
        count <= fields.len(),
        types.len() <= u32::MAX,
    ensures
        parse::fields_found(types, fields, count) matches Ok(found) ==> {
            &&& found.len() == count
            &&& forall|k: int|
                0 <= k < count ==> (#[trigger] found[k]).0 < types.len()
                    && types[found[k].0 as int].name == fields[k]
        },
    decreases count,
{
    if count > 0 {
        fields_are_of_types(types, fields, (count - 1) as nat);
        a_name_is_of_a_type(types, fields[count - 1], types.len());
    }
}

/// Constructors of one type are added, in order, and nothing else changes.
proof fn constructors_are_declared(
    store: Store,
    types: Seq<TypeForm>,
    id: TypeId,
    ctors: Seq<CtorForm>,
    count: nat,
)
    requires
        store.names.fits(),
        id.0 < store.types.len(),
        types.len() <= u32::MAX,
        store.ctors.len() <= u32::MAX,
        count <= ctors.len(),
    ensures
        parse::ctors_declared(store, types, id, ctors, count) matches Ok(after) ==> {
            let held = after.types[id.0 as int].ctors;
            &&& has_more(after, store)
            &&& after.functions == store.functions
            &&& after.ctors.len() == store.ctors.len() + count
            &&& after.ctors.len() <= u32::MAX
            &&& held.start == store.ctors.len()
            &&& held.len == count
            &&& forall|i: int|
                0 <= i < after.types.len() && i != id.0 ==> #[trigger] after.types[i]
                    == store.types[i]
            &&& forall|c: int|
                0 <= c < count ==> is_as_written(
                    after,
                    types,
                    CtorId((held.start + c) as u32),
                    id.0 as int,
                    #[trigger] ctors[c],
                )
        },
    decreases count,
{
    if count == 0 {
        let after = store.with_ctors_next(id);
        assert(has_more(after, store));
    } else {
        let fewer = (count - 1) as nat;
        constructors_are_declared(store, types, id, ctors, fewer);
        if let Ok(mid) = parse::ctors_declared(store, types, id, ctors, fewer) {
            let form = ctors[count - 1];
            fields_are_of_types(types, form.fields, form.fields.len());
            if let Ok(fields) = parse::fields_found(types, form.fields, form.fields.len()) {
                if mid.room(parse::length(form.name) + fields.len() + 1) {
                    let after = mid.with_ctor(id, Declared { name: form.name, fields });
                    pool::naming_keeps_names(mid.names, form.name);
                    assert(has_more(after, mid));
                    having_more_chains(store, mid, after);
                    let held = after.types[id.0 as int].ctors;
                    let new = CtorId((held.start + fewer) as u32);
                    assert(after.fields(new) =~= fields);
                    assert forall|c: int| 0 <= c < count implies is_as_written(
                        after,
                        types,
                        CtorId((held.start + c) as u32),
                        id.0 as int,
                        #[trigger] ctors[c],
                    ) by {
                        if c < fewer {
                            what_was_written_stays(
                                after,
                                mid,
                                types,
                                CtorId((held.start + c) as u32),
                                id.0 as int,
                                ctors[c],
                            );
                        }
                    }
                }
            }
        }
    }
}

proof fn definitions_are_declared(store: Store, types: Seq<TypeForm>, count: nat)
    requires
        are_named(store, types),
        are_told_apart(types),
        store.ctors.len() == 0,
        count <= types.len(),
    ensures
        parse::types_defined(store, types, count) matches Ok(after) ==> {
            &&& are_named(after, types)
            &&& after.functions == store.functions
            &&& after.ctors.len() <= u32::MAX
            &&& forall|i: int| 0 <= i < count ==> #[trigger] has_what_was_written(after, types, i)
        },
    decreases count,
{
    if count > 0 {
        let fewer = (count - 1) as nat;
        definitions_are_declared(store, types, fewer);
        if let Ok(mid) = parse::types_defined(store, types, fewer) {
            let form = types[count - 1];
            a_name_is_of_a_type(types, form.name, types.len());
            let id = parse::type_named(types, form.name, types.len())->Some_0;
            assert(id.0 == fewer) by {
                if id.0 < fewer {
                    assert(types[id.0 as int].name != types[fewer as int].name);
                }
            }
            constructors_are_declared(mid, types, id, form.ctors, form.ctors.len());
            if let Ok(after) = parse::ctors_declared(mid, types, id, form.ctors, form.ctors.len()) {
                names_of_types_stay(after, mid, types);
                assert forall|i: int| 0 <= i < count implies #[trigger] has_what_was_written(
                    after,
                    types,
                    i,
                ) by {
                    if i < fewer {
                        assert(has_what_was_written(mid, types, i));
                        assert(after.types[i] == mid.types[i]);
                        let held = mid.types[i].ctors;
                        assert forall|c: int| 0 <= c < types[i].ctors.len() implies is_as_written(
                            after,
                            types,
                            CtorId((held.start + c) as u32),
                            i,
                            #[trigger] types[i].ctors[c],
                        ) by {
                            what_was_written_stays(
                                after,
                                mid,
                                types,
                                CtorId((held.start + c) as u32),
                                i,
                                types[i].ctors[c],
                            );
                        }
                    }
                }
            }
        }
    }
}

/// What is declared is what was written, where no name is written twice: each
/// type by its name; its constructors by theirs, in order; and each field of
/// the type that it names.
pub proof fn what_is_declared_is_as_written(types: Seq<TypeForm>, store: Store)
    requires
        parse::declared(types) == Ok::<_, Seq<char>>(store),
        are_told_apart(types),
    ensures
        are_named(store, types),
        forall|i: int| 0 <= i < types.len() ==> #[trigger] has_what_was_written(store, types, i),
{
    types_are_declared(types, types.len());
    assert(types.take(types.len() as int) =~= types);
    let reserved = parse::types_declared(Store::nothing(), types, types.len())->Ok_0;
    definitions_are_declared(reserved, types, types.len());
}

/// Whether every constructor is of a type there is, and has a name.
pub open spec fn is_sound(store: Store) -> bool {
    &&& store.names.fits()
    &&& store.ctors.len() <= u32::MAX
    &&& forall|i: int|
        0 <= i < store.ctors.len() ==> (#[trigger] store.ctors[i]).owner.0 < store.types.len()
            && store.ctors[i].name.0 < store.names.len()
}

proof fn constructors_are_sound(
    store: Store,
    types: Seq<TypeForm>,
    id: TypeId,
    ctors: Seq<CtorForm>,
    count: nat,
)
    requires
        is_sound(store),
        id.0 < store.types.len(),
    ensures
        parse::ctors_declared(store, types, id, ctors, count) matches Ok(after) ==> is_sound(after)
            && after.types.len() == store.types.len(),
    decreases count,
{
    if count > 0 {
        let fewer = (count - 1) as nat;
        constructors_are_sound(store, types, id, ctors, fewer);
        if let Ok(mid) = parse::ctors_declared(store, types, id, ctors, fewer) {
            let form = ctors[count - 1];
            if let Ok(fields) = parse::fields_found(types, form.fields, form.fields.len()) {
                if mid.room(parse::length(form.name) + fields.len() + 1) {
                    pool::naming_keeps_names(mid.names, form.name);
                    let after = mid.with_ctor(id, Declared { name: form.name, fields });
                    assert forall|i: int| 0 <= i < after.ctors.len() implies (
                    #[trigger] after.ctors[i]).owner.0 < after.types.len()
                        && after.ctors[i].name.0 < after.names.len() by {
                        if i < mid.ctors.len() {
                            assert(after.ctors[i] == mid.ctors[i]);
                        }
                    }
                }
            }
        }
    }
}

proof fn definitions_are_sound(store: Store, types: Seq<TypeForm>, count: nat)
    requires
        is_sound(store),
        store.types.len() == types.len(),
        types.len() <= u32::MAX,
        count <= types.len(),
    ensures
        parse::types_defined(store, types, count) matches Ok(after) ==> is_sound(after)
            && after.types.len() == types.len(),
    decreases count,
{
    if count > 0 {
        let fewer = (count - 1) as nat;
        definitions_are_sound(store, types, fewer);
        if let Ok(mid) = parse::types_defined(store, types, fewer) {
            let form = types[count - 1];
            a_name_is_of_a_type(types, form.name, types.len());
            let id = parse::type_named(types, form.name, types.len())->Some_0;
            constructors_are_sound(mid, types, id, form.ctors, form.ctors.len());
        }
    }
}

pub(super) proof fn what_is_declared_is_sound(types: Seq<TypeForm>)
    ensures
        parse::declared(types) matches Ok(store) ==> is_sound(store),
{
    types_are_declared(types, types.len());
    assert(types.take(types.len() as int) =~= types);
    if let Ok(reserved) = parse::types_declared(Store::nothing(), types, types.len()) {
        definitions_are_sound(reserved, types, types.len());
    }
}

/// Whether a constructor is written by a name.
pub open spec fn is_written(types: Seq<TypeForm>, name: Seq<char>) -> bool {
    exists|i: int, c: int|
        0 <= i < types.len() && 0 <= c < types[i].ctors.len() && (
        #[trigger] types[i].ctors[c]).name == name
}

/// The constructors that are known are those that were written, where no
/// type's name is written twice.
pub proof fn what_is_known_is_what_was_written(
    types: Seq<TypeForm>,
    store: Store,
    name: Seq<char>,
)
    requires
        parse::declared(types) == Ok::<_, Seq<char>>(store),
        are_told_apart(types),
    ensures
        telling::is_known(store, store.ctors.len(), name) <==> is_written(types, name),
{
    what_is_declared_is_as_written(types, store);
    what_is_declared_is_sound(types);
    if telling::is_known(store, store.ctors.len(), name) {
        let i = choose|i: int|
            0 <= i < store.ctors.len() && #[trigger] store.is_listed(CtorId(i as u32))
                && store.name(store.ctors[i].name) == name;
        let owner = store.ctors[i].owner.0 as int;
        assert(has_what_was_written(store, types, owner));
        let c = i - store.types[owner].ctors.start;
        assert(is_as_written(store, types, CtorId(i as u32), owner, types[owner].ctors[c]));
        assert(types[owner].ctors[c].name == name);
    }
    if is_written(types, name) {
        let (i, c) = choose|i: int, c: int|
            0 <= i < types.len() && 0 <= c < types[i].ctors.len() && (
            #[trigger] types[i].ctors[c]).name == name;
        assert(has_what_was_written(store, types, i));
        let ctor = CtorId((store.types[i].ctors.start + c) as u32);
        assert(is_as_written(store, types, ctor, i, types[i].ctors[c]));
        assert(store.is_listed(CtorId(ctor.0 as int as u32)));
    }
}

} // verus!
