//! What the text of a program says.
//!
//! A term that is shown binds names and reads them, as one that is written
//! does: nothing here counts locals. What a program is shown as stands for the
//! program when every name that is read is the name of the local that the
//! program reads there, and no name is bound twice over.

use super::constant;
use super::ir::{Arm, Atom, Expr, ExprId, FnId, Range, Store, TypeId};
use super::pretty;
use crate::targets::bytes;
use crate::text;
use vstd::prelude::*;

verus! {

/// A term, with names for locals.
pub enum Shown {
    Reads(Seq<char>),
    Applies(Seq<char>, Seq<Seq<char>>),
    Known(Seq<char>),
    /// A name, what it is bound to, and what follows.
    Binds(Seq<char>, Box<Shown>, Box<Shown>),
    Takes(Seq<char>, Seq<ShownArm>),
}

/// A constructor, the names its fields take, and what follows.
pub struct ShownArm {
    pub ctor: Seq<char>,
    pub fields: Seq<Seq<char>>,
    pub body: Shown,
}

/// A name, with what it is applied to in parentheses.
pub open spec fn with_args(name: Seq<char>, args: Seq<Seq<char>>) -> Seq<char> {
    if args.len() == 0 {
        name
    } else {
        name + "("@ + text::joined(args, ", "@) + ")"@
    }
}

/// How a term is laid out, `depth` steps in: a line for each name that is
/// bound, and the arms of a match two steps further in.
pub open spec fn laid_out(shown: Shown, depth: nat) -> Seq<char>
    decreases shown, 0nat,
{
    let pad = pretty::indent(depth);
    match shown {
        Shown::Reads(name) => pad + name + "\n"@,
        Shown::Applies(name, args) => pad + with_args(name, args) + "\n"@,
        Shown::Known(value) => pad + value + "\n"@,
        Shown::Binds(name, value, body) => pad + "let "@ + name + " = "@ + text::trimmed(
            laid_out(*value, 0),
        ) + "\n"@ + laid_out(*body, depth),
        Shown::Takes(name, arms) => pad + "match "@ + name + " {\n"@ + arms_laid_out(arms, depth)
            + pad + "}\n"@,
    }
}

/// Arms, one after the other.
pub open spec fn arms_laid_out(arms: Seq<ShownArm>, depth: nat) -> Seq<char>
    decreases arms, arms.len(),
{
    if arms.len() == 0 {
        seq![]
    } else {
        let last = arms[arms.len() - 1];
        arms_laid_out(arms.drop_last(), depth) + pretty::indent(depth) + "  "@ + with_args(
            last.ctor,
            last.fields,
        ) + " =>\n"@ + laid_out(last.body, depth + 2)
    }
}

/// Whether atoms are shown as the names of the locals they are.
pub open spec fn name_atoms(
    names: Seq<Seq<char>>,
    atoms: Seq<Atom>,
    bound: Seq<Seq<char>>,
) -> bool {
    &&& names.len() == atoms.len()
    &&& forall|i: int|
        0 <= i < atoms.len() && atoms[i].0.0 < bound.len() ==> #[trigger] names[i]
            == bound[atoms[i].0.0 as int]
}

/// Whether names are new, and no two of them alike.
pub open spec fn are_new(names: Seq<Seq<char>>, bound: Seq<Seq<char>>) -> bool {
    (bound + names).no_duplicates()
}

/// Whether a known value is shown as what it stands for: a number in decimal,
/// and a run of text in quotes.
pub open spec fn shows_known(store: Store, id: TypeId, held: Seq<u8>, value: Seq<char>) -> bool {
    &&& forall|number: u64|
        store.is_number(id) && held == #[trigger] bytes::unsigned_leb(number as nat)
            ==> text::read_decimal(value) == number && value == text::decimal(number as nat)
    &&& forall|run: Seq<u8>|
        store.shape(id) is Spine && !store.is_number(id) && run.len() <= u64::MAX && held
            == #[trigger] bytes::sized(run) && vstd::utf8::valid_utf8(run) ==> value
            == text::quotation(vstd::utf8::decode_utf8(run))
}

impl Store {
    /// Whether a term is shown, where the locals there are have the names in
    /// `bound`.
    pub open spec fn is_shown(self, expr: ExprId, shown: Shown, bound: Seq<Seq<char>>) -> bool
        decreases expr.0,
    {
        match self.expr(expr) {
            Expr::Atom(atom) => shown matches Shown::Reads(name) && (atom.0.0 < bound.len() ==> name
                == bound[atom.0.0 as int]),
            Expr::Con(ctor, args) => shown matches Shown::Applies(name, names) && name == self.name(
                self.ctor(ctor).name,
            ) && name_atoms(names, args.read(self.atoms), bound),
            Expr::Call(function, args) => shown matches Shown::Applies(name, names) && name
                == self.name(self.function(function).name) && name_atoms(
                names,
                args.read(self.atoms),
                bound,
            ),
            Expr::Static(id, value) => shown matches Shown::Known(held) && shows_known(
                self,
                id,
                self.known_bytes(value),
                held,
            ),
            Expr::Let(value, body) => shown matches Shown::Binds(name, one, other) && value.0
                < expr.0 && body.0 < expr.0 && are_new(seq![name], bound) && self.is_shown(
                value,
                *one,
                bound,
            ) && self.is_shown(body, *other, bound.push(name)),
            Expr::Match(scrutinee, arms) => {
                let list = arms.read(self.arms);
                shown matches Shown::Takes(name, held) && held.len() == list.len() && (
                scrutinee.0.0 < bound.len() ==> name == bound[scrutinee.0.0 as int]) && forall|
                    i: int,
                |
                    0 <= i < list.len() ==> (#[trigger] list[i]).body.0 < expr.0 && self.arm_begins(
                        list[i],
                        held[i],
                        bound,
                    ) && self.is_shown(list[i].body, held[i].body, bound + held[i].fields)
            },
        }
    }

    /// Whether an arm names its constructor, and a new local for each field.
    pub open spec fn arm_begins(self, arm: Arm, shown: ShownArm, bound: Seq<Seq<char>>) -> bool {
        &&& shown.ctor == self.name(self.ctor(arm.ctor).name)
        &&& shown.fields.len() == self.fields(arm.ctor).len()
        &&& are_new(shown.fields, bound)
    }
}

/// The names of the first locals.
pub open spec fn names_to(level: nat) -> Seq<Seq<char>> {
    Seq::new(level, |i: int| pretty::local_text(i as nat))
}

/// A step inwards is two spaces.
pub proof fn a_step_inwards_is_two_spaces(depth: nat)
    ensures
        pretty::indent(depth).len() == 2 * depth,
        forall|i: int| 0 <= i < 2 * depth ==> #[trigger] pretty::indent(depth)[i] == ' ',
    decreases depth,
{
    reveal_strlit("  ");
    if depth > 0 {
        a_step_inwards_is_two_spaces((depth - 1) as nat);
    }
}

/// A local is a `v` and the number of the locals there were before it.
pub proof fn a_local_says_its_level(level: nat)
    ensures
        pretty::local_text(level).len() > 1,
        pretty::local_text(level)[0] == 'v',
        text::read_decimal(pretty::local_text(level).skip(1)) == level,
{
    reveal_strlit("v");
    text::decimal_reads_back(level);
    assert(pretty::local_text(level).skip(1) =~= text::decimal(level));
}

/// No two locals share a name.
pub proof fn locals_have_names_of_their_own(level: nat)
    ensures
        names_to(level).no_duplicates(),
{
    let names = names_to(level);
    assert forall|i: int, j: int| 0 <= i < names.len() && 0 <= j < names.len() && i != j implies
        names[i] != names[j] by {
        let (one, other) = (text::decimal(i as nat), text::decimal(j as nat));
        text::decimal_reads_back(i as nat);
        text::decimal_reads_back(j as nat);
        assert(names[i].skip("v"@.len() as int) =~= one);
        assert(names[j].skip("v"@.len() as int) =~= other);
    }
}

proof fn more_names(level: nat, fields: nat)
    ensures
        names_to(level) + Seq::new(fields, |i: int| pretty::local_text((level + i) as nat))
            == names_to(level + fields),
        are_new(
            Seq::new(fields, |i: int| pretty::local_text((level + i) as nat)),
            names_to(level),
        ),
{
    let more = Seq::new(fields, |i: int| pretty::local_text((level + i) as nat));
    assert(names_to(level) + more =~= names_to(level + fields));
    locals_have_names_of_their_own(level + fields);
}

proof fn a_known_value_is_shown(store: Store, id: TypeId, held: Seq<u8>, value: Seq<char>)
    requires
        ({
            let (count, took) = constant::front(held);
            let run = held.skip(took as int);
            value == if store.is_number(id) && constant::reads(held) {
                text::decimal(count)
            } else if store.shape(id) is Spine && constant::reads(held) && held.len() - took
                == count && vstd::utf8::valid_utf8(run) {
                text::quotation(vstd::utf8::decode_utf8(run))
            } else if store.shape(id) is Spine {
                "<"@ + text::decimal(held.len()) + " bytes>"@
            } else {
                "<"@ + store.name_of_type(id) + ">"@
            }
        }),
    ensures
        shows_known(store, id, held, value),
{
    assert forall|number: u64|
        store.is_number(id) && held == #[trigger] bytes::unsigned_leb(
            number as nat,
        ) implies text::read_decimal(value) == number && value == text::decimal(number as nat) by {
        let none = Seq::<u8>::empty();
        constant::a_number_is_short(number);
        bytes::unsigned_leb_reads_back(number as nat, none);
        assert(bytes::unsigned_leb(number as nat) + none =~= held);
        text::decimal_reads_back(number as nat);
    }
    assert forall|run: Seq<u8>|
        store.shape(id) is Spine && !store.is_number(id) && run.len() <= u64::MAX && held
            == #[trigger] bytes::sized(run) && vstd::utf8::valid_utf8(run) implies value
        == text::quotation(vstd::utf8::decode_utf8(run)) by {
        constant::a_number_is_short(run.len() as u64);
        bytes::unsigned_leb_reads_back(run.len(), run);
        let took = bytes::unsigned_leb(run.len()).len();
        assert(held.skip(took as int) =~= run);
    }
}

proof fn atoms_are_named(store: Store, atoms: Seq<Atom>, level: nat)
    ensures
        name_atoms(store.atom_texts(atoms), atoms, names_to(level)),
{
}

/// The text of a term says what the term is: it lays out a term with names,
/// each of which is bound where it is read, to what the program binds there.
pub proof fn a_term_is_shown(store: Store, expr: ExprId, level: nat, depth: nat) -> (shown: Shown)
    requires
        store.wf(),
        expr.0 < store.exprs.len(),
    ensures
        store.expr_text(expr, level, depth) == laid_out(shown, depth),
        store.is_shown(expr, shown, names_to(level)),
    decreases expr.0, 1nat, 0nat,
{
    let bound = names_to(level);
    assert(store.expr_fits(expr.0 as int, store.exprs[expr.0 as int]));
    match store.expr(expr) {
        Expr::Atom(atom) => Shown::Reads(pretty::local_text(atom.0.0 as nat)),
        Expr::Con(ctor, args) => {
            let atoms = args.read(store.atoms);
            atoms_are_named(store, atoms, level);
            Shown::Applies(store.name(store.ctor(ctor).name), store.atom_texts(atoms))
        },
        Expr::Call(function, args) => {
            let atoms = args.read(store.atoms);
            atoms_are_named(store, atoms, level);
            Shown::Applies(store.name(store.function(function).name), store.atom_texts(atoms))
        },
        Expr::Static(id, value) => {
            a_known_value_is_shown(
                store,
                id,
                store.known_bytes(value),
                store.known_text(id, value),
            );
            Shown::Known(store.known_text(id, value))
        },
        Expr::Let(value, body) => {
            let name = pretty::local_text(level);
            let one = a_term_is_shown(store, value, level, 0);
            let other = a_term_is_shown(store, body, level + 1, depth);
            more_names(level, 1);
            assert(Seq::new(1, |i: int| pretty::local_text((level + i) as nat)) =~= seq![name]);
            assert(bound + seq![name] =~= bound.push(name));
            Shown::Binds(name, Box::new(one), Box::new(other))
        },
        Expr::Match(scrutinee, arms) => {
            let held = arms_are_shown(store, expr, arms, level, depth, arms.len as nat);
            let list = arms.read(store.arms);
            assert forall|i: int| 0 <= i < list.len() implies (#[trigger] list[i]).body.0 < expr.0
                && store.arm_begins(list[i], held[i], bound) && store.is_shown(
                list[i].body,
                held[i].body,
                bound + held[i].fields,
            ) by {
                assert(list[i] == store.arms[arms.start + i]);
                assert(is_arm_shown(store, expr, arms, held, level, i));
            }
            Shown::Takes(pretty::local_text(scrutinee.0.0 as nat), held)
        },
    }
}

spec fn is_arm_shown(
    store: Store,
    expr: ExprId,
    arms: Range,
    held: Seq<ShownArm>,
    level: nat,
    i: int,
) -> bool {
    let arm = store.arms[arms.start + i];
    &&& arm.body.0 < expr.0
    &&& store.arm_begins(arm, held[i], names_to(level))
    &&& store.is_shown(arm.body, held[i].body, names_to(level) + held[i].fields)
}

proof fn arms_are_shown(
    store: Store,
    expr: ExprId,
    arms: Range,
    level: nat,
    depth: nat,
    count: nat,
) -> (held: Seq<ShownArm>)
    requires
        store.wf(),
        expr.0 < store.exprs.len(),
        store.expr(expr) matches Expr::Match(_, all) && all == arms,
        count <= arms.len,
    ensures
        held.len() == count,
        store.arms_text(expr, arms, level, depth, count) == arms_laid_out(held, depth),
        forall|i: int| 0 <= i < count ==> #[trigger] is_arm_shown(store, expr, arms, held, level, i),
    decreases expr.0, 0nat, count,
{
    assert(store.expr_fits(expr.0 as int, store.exprs[expr.0 as int]));
    if count == 0 {
        seq![]
    } else {
        let fewer = (count - 1) as nat;
        let before = arms_are_shown(store, expr, arms, level, depth, fewer);
        let arm = store.arms[arms.start + fewer];
        let fields = store.ctor(arm.ctor).fields.len as nat;
        assert(store.ctor_fits(arm.ctor.0 as int));
        let names = Seq::new(fields, |i: int| pretty::local_text((level + i) as nat));
        let body = a_term_is_shown(store, arm.body, level + fields, depth + 2);
        more_names(level, fields);
        let last = ShownArm { ctor: store.name(store.ctor(arm.ctor).name), fields: names, body };
        let held = before.push(last);
        assert(held.drop_last() =~= before);
        assert forall|i: int| 0 <= i < count implies #[trigger] is_arm_shown(
            store,
            expr,
            arms,
            held,
            level,
            i,
        ) by {
            if i < fewer {
                assert(is_arm_shown(store, expr, arms, before, level, i));
                assert(held[i] == before[i]);
            }
        }
        held
    }
}

/// What a function takes: a name and a type for each of its parameters.
pub struct ShownParam {
    pub name: Seq<char>,
    pub of: Seq<char>,
}

/// A parameter, as it is laid out.
pub open spec fn params_laid_out(params: Seq<ShownParam>) -> Seq<Seq<char>> {
    Seq::new(params.len(), |i: int| params[i].name + ": "@ + params[i].of)
}

/// The text of a function says what it takes, each of its parameters by a name
/// of its own and of the type it is of, what it answers, and what it runs, in
/// which those names are the parameters.
pub proof fn a_function_is_shown(store: Store, f: FnId) -> (shown: (Seq<ShownParam>, Shown))
    requires
        store.wf(),
        f.0 < store.functions.len(),
    ensures
        ({
            let (params, body) = shown;
            let names = Seq::new(params.len(), |i: int| params[i].name);
            let head = store.name(store.function(f).name) + "("@ + text::joined(
                params_laid_out(params),
                ", "@,
            ) + ") -> "@ + store.name(store.type_(store.function(f).result).name);
            &&& params.len() == store.params(f).len()
            &&& names.no_duplicates()
            &&& forall|i: int|
                0 <= i < params.len() ==> (#[trigger] params[i]).of == store.name(
                    store.type_(store.params(f)[i]).name,
                )
            &&& store.function(f).defined ==> store.function_text(f) == head + " =\n"@ + laid_out(
                body,
                1,
            ) && store.is_shown(store.function(f).body, body, names)
            &&& !store.function(f).defined ==> store.function_text(f) == head + "\n"@
        }),
{
    let function = store.function(f);
    assert(store.function_fits(f.0 as int));
    let count = function.params.len as nat;
    let params = Seq::new(
        count,
        |i: int|
            ShownParam {
                name: pretty::local_text(i as nat),
                of: store.name(store.type_(store.params(f)[i]).name),
            },
    );
    assert(Seq::new(params.len(), |i: int| params[i].name) =~= names_to(count));
    locals_have_names_of_their_own(count);
    assert(params_laid_out(params) =~= store.param_texts(store.params(f)));
    let body = if function.defined {
        a_term_is_shown(store, function.body, count, 1)
    } else {
        Shown::Known(seq![])
    };
    (params, body)
}

/// The text of a type says its name, then each of its constructors in tag
/// order with the types of its fields in theirs.
pub proof fn a_type_is_shown(store: Store, id: TypeId) -> (ctors: Seq<(Seq<char>, Seq<Seq<char>>)>)
    requires
        store.wf(),
        id.0 < store.types.len(),
    ensures
        store.type_text(id) == store.name(store.type_(id).name) + " = "@ + text::joined(
            Seq::new(ctors.len(), |i: int| with_args(ctors[i].0, ctors[i].1)),
            " | "@,
        ) + "\n"@,
        ctors.len() == store.type_(id).ctors.len,
        forall|tag: int|
            0 <= tag < ctors.len() ==> (#[trigger] ctors[tag]).0 == store.name(
                store.ctor(store.ctor_at(id, tag as nat)).name,
            ) && ctors[tag].1.len() == store.fields(store.ctor_at(id, tag as nat)).len(),
        forall|tag: int, i: int|
            0 <= tag < ctors.len() && 0 <= i < ctors[tag].1.len() ==> #[trigger] ctors[tag].1[i]
                == store.name(
                store.type_(store.fields(store.ctor_at(id, tag as nat))[i]).name,
            ),
{
    assert(store.type_fits(id.0 as int));
    let held = store.ctors_of(id);
    let ctors = Seq::new(
        held.len(),
        |i: int|
            (
                store.name(held[i].name),
                store.names_of_types(held[i].fields.read(store.types_pool)),
            ),
    );
    assert(Seq::new(ctors.len(), |i: int| with_args(ctors[i].0, ctors[i].1))
        =~= store.ctor_texts(held));
    assert forall|tag: int| 0 <= tag < ctors.len() implies (#[trigger] ctors[tag]).0 == store.name(
        store.ctor(store.ctor_at(id, tag as nat)).name,
    ) && ctors[tag].1.len() == store.fields(store.ctor_at(id, tag as nat)).len() by {
        assert(held[tag] == store.ctor(store.ctor_at(id, tag as nat)));
    }
    assert forall|tag: int, i: int|
        0 <= tag < ctors.len() && 0 <= i < ctors[tag].1.len() implies #[trigger] ctors[tag].1[i]
        == store.name(store.type_(store.fields(store.ctor_at(id, tag as nat))[i]).name) by {
        assert(held[tag] == store.ctor(store.ctor_at(id, tag as nat)));
    }
    ctors
}

/// Texts, one right after the other.
pub open spec fn end_to_end(texts: Seq<Seq<char>>) -> Seq<char> {
    texts.flatten()
}

proof fn one_more_end(texts: Seq<Seq<char>>, last: Seq<char>)
    ensures
        end_to_end(texts.push(last)) == end_to_end(texts) + last,
{
    texts.push(last).lemma_flatten_and_flatten_alt_are_equivalent();
    texts.lemma_flatten_and_flatten_alt_are_equivalent();
    assert(texts.push(last).drop_last() =~= texts);
}

/// The text of a program is that of each of its types, then that of each of
/// its functions with an empty line before it, in order and none left out.
pub proof fn a_program_is_shown(store: Store)
    ensures
        store.text() == end_to_end(
            Seq::new(store.types.len(), |i: int| store.type_text(TypeId(i as u32))),
        ) + end_to_end(
            Seq::new(
                store.functions.len(),
                |i: int| seq!['\n'] + store.function_text(FnId(i as u32)),
            ),
        ),
{
    types_are_shown(store, store.types.len());
    functions_are_shown(store, store.functions.len());
}

proof fn types_are_shown(store: Store, count: nat)
    ensures
        store.types_text(count) == end_to_end(
            Seq::new(count, |i: int| store.type_text(TypeId(i as u32))),
        ),
    decreases count,
{
    let all = Seq::new(count, |i: int| store.type_text(TypeId(i as u32)));
    if count == 0 {
        assert(all =~= seq![]);
        all.lemma_flatten_and_flatten_alt_are_equivalent();
        assert(end_to_end(all) =~= seq![]);
    } else {
        let fewer = (count - 1) as nat;
        types_are_shown(store, fewer);
        let rest = Seq::new(fewer, |i: int| store.type_text(TypeId(i as u32)));
        assert(all =~= rest.push(store.type_text(TypeId(fewer as u32))));
        one_more_end(rest, store.type_text(TypeId(fewer as u32)));
    }
}

proof fn functions_are_shown(store: Store, count: nat)
    ensures
        store.functions_text(count) == end_to_end(
            Seq::new(count, |i: int| seq!['\n'] + store.function_text(FnId(i as u32))),
        ),
    decreases count,
{
    let all = Seq::new(count, |i: int| seq!['\n'] + store.function_text(FnId(i as u32)));
    if count == 0 {
        assert(all =~= seq![]);
        all.lemma_flatten_and_flatten_alt_are_equivalent();
        assert(end_to_end(all) =~= seq![]);
    } else {
        let fewer = (count - 1) as nat;
        functions_are_shown(store, fewer);
        let rest = Seq::new(fewer, |i: int| seq!['\n'] + store.function_text(FnId(i as u32)));
        let last = seq!['\n'] + store.function_text(FnId(fewer as u32));
        reveal_strlit("\n");
        assert("\n"@ =~= seq!['\n']);
        assert(all =~= rest.push(last));
        one_more_end(rest, last);
        assert(store.functions_text(count) =~= store.functions_text(fewer) + last);
    }
}

} // verus!
