pub mod barb;
pub mod ir;
pub mod pool;
pub mod targets;
pub mod text;

use barb::builder;
use barb::builder::{Declared, Draft as Scope};
use ir::builder::Draft;
use ir::{Class, DataId, Exit, FunctionId, Op, Origin, Parts, PlatformId, Program, Range, ValueId};
use targets::{Artifact, Target};
use vstd::prelude::*;

verus! {

/// What the greeting says.
pub open spec fn message() -> Seq<u8> {
    vstd::utf8::encode_utf8("Hello, World!\n"@)
}

/// A program that writes the message out and leaves with nought.
pub open spec fn greeting() -> Parts {
    let declared = Parts::nothing().with_function(
        "main"@,
        seq![],
        seq![Class::Word],
    ).with_datum(Origin::Data, message()).with_platform(
        "write"@,
        seq![Class::Address, Class::Word],
        seq![],
    );
    let written = Draft::opened(declared, declared.function(FunctionId(0)).params).push(
        Op::AddressOf(DataId(0)),
        seq![Class::Address],
    ).push(
        Op::Constant { class: Class::Word, value: message().len() as u64 },
        seq![Class::Word],
    ).hold(seq![ValueId(0), ValueId(1)]).push(
        Op::PlatformCall { platform: PlatformId(0), args: Range { start: 2, len: 2 } },
        seq![],
    ).push(Op::Constant { class: Class::Word, value: 0 }, seq![Class::Word]);
    written.hold(seq![ValueId(2)]).as_body(FunctionId(0), written.leaving(Exit::Return, 1))
}

/// The greeting's fourteen bytes.
pub proof fn the_message_is_short()
    ensures
        message().len() == 14,
        vstd::utf8::encode_utf8("main"@).len() == 4,
        vstd::utf8::encode_utf8("write"@).len() == 5,
{
    reveal_strlit("Hello, World!\n");
    reveal_strlit("main");
    reveal_strlit("write");
    vstd::utf8::is_ascii_chars_encode_utf8("Hello, World!\n"@);
    vstd::utf8::is_ascii_chars_encode_utf8("main"@);
    vstd::utf8::is_ascii_chars_encode_utf8("write"@);
}

pub fn hello_world() -> (program: Program)
    ensures
        program@ == greeting(),
        program@.wf(),
{
    proof {
        the_message_is_short();
    }
    let (mut program, main) = Program::new("main");
    let message = program.intern("Hello, World!\n".as_bytes());
    let params: [Class; 2] = [Class::Address, Class::Word];
    let answers: [Class; 0] = [];
    assert(params@ =~= seq![Class::Address, Class::Word]);
    assert(answers@ =~= seq![]);
    let write = program.platform("write", &params, &answers);

    let mut b = program.begin(main);
    let buf = b.address_of(message);
    let len = b.data_len(message);
    let args: [ValueId; 2] = [buf, len];
    assert(args@ =~= seq![ValueId(0), ValueId(1)]);
    b.platform_call(write, &args);

    let status = b.constant(Class::Word, 0);
    let left: [ValueId; 1] = [status];
    assert(left@ =~= seq![ValueId(2)]);
    let end = b.ret(&left);
    b.end(main, end)
}

/// What the greeting's pools hold.
#[verifier::spinoff_prover]
proof fn the_greeting_is_small()
    ensures
        ({
            let g = greeting();
            let region = g.region(g.function(FunctionId(0)).body);
            let write = Op::PlatformCall {
                platform: PlatformId(0),
                args: Range { start: 2, len: 2 },
            };
            &&& g.region_ops(g.function(FunctionId(0)).body) == seq![
                Op::AddressOf(DataId(0)),
                Op::Constant { class: Class::Word, value: 14 },
                write,
                Op::Constant { class: Class::Word, value: 0 },
            ]
            &&& g.region_results(g.function(FunctionId(0)).body).map_values(
                |r: Range| g.values(r),
            ) == seq![seq![ValueId(0)], seq![ValueId(1)], seq![], seq![ValueId(2)]]
            &&& g.values(Range { start: 2, len: 2 }) == seq![ValueId(0), ValueId(1)]
            &&& g.values(region.terminator.values) == seq![ValueId(2)]
            &&& region.terminator.exit == Exit::Return
            &&& g.values(g.function(FunctionId(0)).params) == Seq::<ValueId>::empty()
            &&& g.datum_bytes(DataId(0)) == message()
            &&& g.datum(DataId(0)).len == 14
            &&& g.is_write(PlatformId(0))
        }),
{
    the_message_is_short();
    let named = Parts::nothing().with_function("main"@, seq![], seq![Class::Word]);
    let told = named.with_datum(Origin::Data, message());
    let declared = told.with_platform("write"@, seq![Class::Address, Class::Word], seq![]);
    let none = Parts::nothing().names;
    assert(none.fits()) by {
        vstd::utf8::encode_utf8_valid_utf8(seq![]);
        assert(vstd::utf8::encode_utf8(seq![]) =~= seq![]);
    }
    pool::naming_keeps_names(none, "main"@);
    pool::naming_keeps_names(told.names, "write"@);
    assert(declared.operands =~= seq![]);
    let start = Draft::opened(declared, declared.function(FunctionId(0)).params);
    let one = start.push(Op::AddressOf(DataId(0)), seq![Class::Address]);
    assert(one.program.operands =~= seq![ValueId(0)]);
    let two = one.push(
        Op::Constant { class: Class::Word, value: message().len() as u64 },
        seq![Class::Word],
    );
    assert(two.program.operands =~= seq![ValueId(0), ValueId(1)]);
    let held = two.hold(seq![ValueId(0), ValueId(1)]);
    assert(held.program.operands =~= seq![ValueId(0), ValueId(1), ValueId(0), ValueId(1)]);
    let write = Op::PlatformCall { platform: PlatformId(0), args: Range { start: 2, len: 2 } };
    let three = held.push(write, seq![]);
    assert(three.program.operands =~= held.program.operands);
    let four = three.push(Op::Constant { class: Class::Word, value: 0 }, seq![Class::Word]);
    assert(four.program.classes.len() == 3);
    assert(four.program.operands =~= held.program.operands.push(ValueId(2)));
    let last = four.hold(seq![ValueId(2)]);
    assert(last.program.operands =~= four.program.operands.push(ValueId(2)));
    let g = greeting();
    assert(g == last.as_body(FunctionId(0), four.leaving(Exit::Return, 1)));
    let body = g.function(FunctionId(0)).body;
    assert(g.region_ops(body) =~= seq![
        Op::AddressOf(DataId(0)),
        Op::Constant { class: Class::Word, value: 14 },
        write,
        Op::Constant { class: Class::Word, value: 0 },
    ]);
    assert(g.values(Range { start: 0, len: 1 }) =~= seq![ValueId(0)]);
    assert(g.values(Range { start: 1, len: 1 }) =~= seq![ValueId(1)]);
    assert(g.values(Range { start: 4, len: 0 }) =~= seq![]);
    assert(g.values(Range { start: 4, len: 1 }) =~= seq![ValueId(2)]);
    assert(g.values(Range { start: 5, len: 1 }) =~= seq![ValueId(2)]);
    assert(g.values(Range { start: 2, len: 2 }) =~= seq![ValueId(0), ValueId(1)]);
    assert(g.values(g.function(FunctionId(0)).params) =~= seq![]);
    assert(g.region_results(body) =~= seq![
        Range { start: 0, len: 1 },
        Range { start: 1, len: 1 },
        Range { start: 4, len: 0 },
        Range { start: 4, len: 1 },
    ]);
    assert(g.region_results(body).map_values(|r: Range| g.values(r)) =~= seq![
        seq![ValueId(0)],
        seq![ValueId(1)],
        seq![],
        seq![ValueId(2)],
    ]);
    assert(g.datum_bytes(DataId(0)) =~= message());
}

/// The greeting is written, from wherever it is, and then the program leaves
/// with nought: a run that is followed up to that write comes to it, and one
/// that is not comes to the end.
pub proof fn the_greeting_is_written(host: ir::machine::Host, fuel: nat)
    requires
        host.places.dom().contains(DataId(0)),
        host.size > 14,
    ensures
        greeting().datum_bytes(DataId(0)) == message(),
        ({
            let asked = seq![host.places[DataId(0)], message().len()];
            greeting().function_runs(host, FunctionId(0), seq![], fuel) == Some(
                if (host.watch)(PlatformId(0), asked) {
                    ir::machine::Left::Asks(PlatformId(0), asked)
                } else {
                    ir::machine::Left::Answers(seq![0nat])
                },
            )
        }),
        greeting().is_write(PlatformId(0)),
{
    let g = greeting();
    the_greeting_is_small();
    the_message_is_short();
    let body = g.function(FunctionId(0)).body;
    let ops = g.region_ops(body);
    let results = g.region_results(body);
    let each = results.map_values(|r: Range| g.values(r));
    assert(each[0] == g.values(results[0]) && each[1] == g.values(results[1]));
    assert(each[2] == g.values(results[2]) && each[3] == g.values(results[3]));
    let held = Map::<ValueId, nat>::empty();
    let place = host.places[DataId(0)];
    let one = held.insert(ValueId(0), place);
    let two = one.insert(ValueId(1), 14);
    let four = two.insert(ValueId(2), 0);
    reveal_with_fuel(ir::machine::defined, 2);
    vstd::arithmetic::div_mod::lemma_small_mod(14, host.size);
    vstd::arithmetic::div_mod::lemma_small_mod(0, host.size);
    assert(ops.take(1).last() == ops[0] && results.take(1).last() == results[0]);
    assert(ops.take(2).last() == ops[1] && results.take(2).last() == results[1]);
    assert(ops.take(3).last() == ops[2] && results.take(3).last() == results[2]);
    assert(ir::machine::defined(held, seq![ValueId(0)], seq![place]) == one);
    assert(ir::machine::defined(one, seq![ValueId(1)], seq![14nat]) == two);
    assert(ir::machine::defined(two, seq![ValueId(2)], seq![0nat]) == four);
    assert(g.op_runs(host, ops[0], g.values(results[0]), held, fuel) == Some(
        ir::machine::Step::Goes(one),
    ));
    assert(g.op_runs(host, ops[1], g.values(results[1]), one, fuel) == Some(
        ir::machine::Step::Goes(two),
    ));
    assert(g.op_runs(host, ops[3], g.values(results[3]), two, fuel) == Some(
        ir::machine::Step::Goes(four),
    ));
    assert(g.ops_run(host, ops.take(0), results.take(0), held, fuel) == Some(
        ir::machine::Step::Goes(held),
    ));
    assert(ops.take(1).drop_last() =~= ops.take(0) && results.take(1).drop_last()
        =~= results.take(0));
    assert(seq![ValueId(0)].drop_last() =~= seq![]);
    assert(seq![ValueId(1)].drop_last() =~= seq![]);
    assert(seq![ValueId(2)].drop_last() =~= seq![]);
    assert(g.ops_run(host, ops.take(1), results.take(1), held, fuel) == Some(
        ir::machine::Step::Goes(one),
    ));
    assert(ops.take(2).drop_last() =~= ops.take(1) && results.take(2).drop_last()
        =~= results.take(1));
    assert(g.ops_run(host, ops.take(2), results.take(2), held, fuel) == Some(
        ir::machine::Step::Goes(two),
    ));
    assert(ops.take(3).drop_last() =~= ops.take(2) && results.take(3).drop_last()
        =~= results.take(2));
    let asked = seq![place, 14nat];
    assert(ir::machine::read(two, seq![ValueId(0), ValueId(1)]) == Some(asked)) by {
        assert(Seq::new(2, |i: int| two[seq![ValueId(0), ValueId(1)][i]]) =~= asked);
    }
    let asks = ir::machine::Step::Leaves(ir::machine::Left::Asks(PlatformId(0), asked));
    assert(g.op_runs(host, ops[2], g.values(results[2]), two, fuel) == Some(
        if (host.watch)(PlatformId(0), asked) {
            asks
        } else {
            ir::machine::Step::Goes(two)
        },
    ));
    assert(ops.drop_last() =~= ops.take(3) && results.drop_last() =~= results.take(3));
    if !(host.watch)(PlatformId(0), asked) {
        assert(g.ops_run(host, ops.take(3), results.take(3), held, fuel) == Some(
            ir::machine::Step::Goes(two),
        ));
        assert(g.ops_run(host, ops, results, held, fuel) == Some(ir::machine::Step::Goes(four)));
        assert(ir::machine::read(four, seq![ValueId(2)]) == Some(seq![0nat])) by {
            assert(Seq::new(1, |i: int| four[seq![ValueId(2)][i]]) =~= seq![0nat]);
        }
    } else {
        assert(g.ops_run(host, ops.take(3), results.take(3), held, fuel) == Some(
            ir::machine::Step::Leaves(ir::machine::Left::Asks(PlatformId(0), asked)),
        ));
    }
}

/// The types of `2 + 2`: `Nat` is the inductive type it is.
pub open spec fn naturals() -> barb::Store {
    barb::Store::nothing().with_type("Nat"@).with_ctors(
        barb::TypeId(0),
        seq![
            Declared { name: "Zero"@, fields: seq![] },
            Declared { name: "Succ"@, fields: seq![barb::TypeId(0)] },
        ],
    )
}

/// With addition, which recurses on its second argument:
///
/// ```text
/// add(a, b) = match b { Zero => a; Succ(k) => Succ(add(a, k)) }
/// ```
pub open spec fn with_addition(store: barb::Store) -> barb::Store {
    let number = barb::TypeId(0);
    let add = barb::FnId(0);
    let start = Scope::opened(store.with_function("add"@, seq![number, number], number), 2);
    let left = local(0);
    let nothing_left = start.inside(0);
    let between = start.after(nothing_left, left);
    let one_less = between.inside(1).call(add, seq![left, local(2)]).con(
        barb::CtorId(1),
        seq![local(3)],
    );
    let arms = seq![
        barb::Arm { ctor: barb::CtorId(0), body: nothing_left.closed(left).1 },
        barb::Arm { ctor: barb::CtorId(1), body: one_less.closed(local(4)).1 },
    ];
    between.after(one_less, local(4)).matching(local(1), arms).as_body(add, local(2))
}

/// `2 + 2`: the sum of a number known outright and itself.
pub open spec fn two_twice() -> barb::Store {
    let number = barb::TypeId(0);
    let main = barb::FnId(1);
    let declared = with_addition(naturals()).with_const(
        targets::bytes::unsigned_leb(2),
    ).with_function("main"@, seq![], number);
    Scope::opened(declared, 0).known(number, barb::ConstId(0)).call(
        barb::FnId(0),
        seq![local(0), local(0)],
    ).as_body(main, local(1)).with_entry(main)
}

pub open spec fn local(level: nat) -> barb::Atom {
    barb::Atom(barb::Local(level as u32))
}

/// The names of `2 + 2` are a few bytes each.
proof fn the_names_are_short()
    ensures
        vstd::utf8::encode_utf8("Nat"@).len() == 3,
        vstd::utf8::encode_utf8("Zero"@).len() == 4,
        vstd::utf8::encode_utf8("Succ"@).len() == 4,
        vstd::utf8::encode_utf8("add"@).len() == 3,
        vstd::utf8::encode_utf8("main"@).len() == 4,
{
    reveal_strlit("Nat");
    reveal_strlit("Zero");
    reveal_strlit("Succ");
    reveal_strlit("add");
    reveal_strlit("main");
    vstd::utf8::is_ascii_chars_encode_utf8("Nat"@);
    vstd::utf8::is_ascii_chars_encode_utf8("Zero"@);
    vstd::utf8::is_ascii_chars_encode_utf8("Succ"@);
    vstd::utf8::is_ascii_chars_encode_utf8("add"@);
    vstd::utf8::is_ascii_chars_encode_utf8("main"@);
}

/// `2 + 2`, written in barb.
///
/// `Nat` is the inductive type it is, so addition recurses on its second
/// argument and the literal is a known value. Nothing here says a number is
/// a word; the machine tier decides that when it lowers this.
pub fn two_and_two() -> (program: barb::Program)
    ensures
        program@ == two_twice(),
        program@.wf(),
        program@.entry is Some,
{
    proof {
        the_names_are_short();
    }
    let mut program = barb::Program::new();
    let number = program.declare_type("Nat");
    let none: [barb::TypeId; 0] = [];
    let one: [barb::TypeId; 1] = [number];
    let ctors: [(&str, &[barb::TypeId]); 2] = [("Zero", &none), ("Succ", &one)];
    proof {
        reveal_with_fuel(builder::cost, 3);
        assert(none@ =~= seq![]);
        assert(one@ =~= seq![barb::TypeId(0)]);
        assert(builder::declared(ctors@) =~= seq![
            Declared { name: "Zero"@, fields: seq![] },
            Declared { name: "Succ"@, fields: seq![barb::TypeId(0)] },
        ]);
    }
    program.define_type(number, &ctors);
    assert(program@ == naturals());
    let mut program = add_naturals(program);
    proof {
        the_naturals_are_small();
        let store = program@;
        let succ = store.fields(barb::CtorId(1));
        assert(succ =~= seq![number]);
        assert(store.fields(barb::CtorId(0)) =~= seq![]);
        assert(barb::constant::place(succ, number, 0) == 0);
        assert(barb::constant::place(succ, number, 1) == 1);
        assert(store.is_number(number));
        reveal_with_fuel(targets::bytes::unsigned_leb, 2);
        builder::naming_costs(store.names, "main"@);
    }
    let two = program.intern_number(number, 2);
    let main = program.declare("main", &none, number);
    let mut b = program.begin(main);
    let value = b.known(number, two);
    let both: [barb::Atom; 2] = [value, value];
    assert(both@ =~= seq![local(0), local(0)]);
    let sum = b.call(barb::FnId(0), &both);
    proof {
        builder::a_closed_scope_fits(b@, b@, sum);
    }
    let mut program = b.end(main, sum);
    program.set_entry(main);
    program
}

/// The naturals: one type, and a constructor for nought and for one more.
proof fn the_naturals_are_small()
    ensures
        naturals().types.len() == 1,
        naturals().type_(barb::TypeId(0)).ctors == (barb::Range { start: 0, len: 2 }),
        naturals().ctors.len() == 2,
        naturals().ctors[0].fields == (barb::Range { start: 0, len: 0 }),
        naturals().ctors[1].fields == (barb::Range { start: 0, len: 1 }),
        naturals().types_pool == seq![barb::TypeId(0)],
        naturals().functions.len() == 0,
        naturals().exprs.len() == 0,
        naturals().atoms.len() == 0,
        naturals().arms.len() == 0,
        naturals().consts.len() == 0,
        naturals().bytes.len() == 0,
        naturals().names.text.len() <= 11,
        naturals().names.symbols.len() <= 3,
{
    let id = barb::TypeId(0);
    let zero = Declared { name: "Zero"@, fields: seq![] };
    let succ = Declared { name: "Succ"@, fields: seq![id] };
    let all = seq![zero, succ];
    let none: Seq<Declared> = seq![];
    let reserved = barb::Store::nothing().with_type("Nat"@);
    the_names_are_short();
    assert(all.drop_last() =~= seq![zero]);
    assert(seq![zero].drop_last() =~= none);
    let first = reserved.with_ctors(id, none);
    let second = reserved.with_ctors(id, seq![zero]);
    assert(first == reserved.with_ctors_next(id));
    assert(second == first.with_ctor(id, zero));
    assert(naturals() == second.with_ctor(id, succ));
    assert(naturals().types_pool =~= seq![id]);
    builder::naming_costs(barb::Store::nothing().names, "Nat"@);
    builder::naming_costs(first.names, "Zero"@);
    builder::naming_costs(second.names, "Succ"@);
}

/// What addition's pools hold.
#[verifier::spinoff_prover]
proof fn addition_is_small()
    ensures
        ({
            let store = with_addition(naturals());
            let add = barb::FnId(0);
            &&& store.exprs == seq![
                barb::Expr::Atom(local(0)),
                barb::Expr::Call(add, barb::Range { start: 0, len: 2 }),
                barb::Expr::Con(barb::CtorId(1), barb::Range { start: 2, len: 1 }),
                barb::Expr::Let(barb::ExprId(1), barb::ExprId(2)),
                barb::Expr::Match(local(1), barb::Range { start: 0, len: 2 }),
            ]
            &&& store.atoms == seq![local(0), local(2), local(3)]
            &&& store.arms == seq![
                barb::Arm { ctor: barb::CtorId(0), body: barb::ExprId(0) },
                barb::Arm { ctor: barb::CtorId(1), body: barb::ExprId(3) },
            ]
            &&& store.functions.len() == 1
            &&& store.functions[0].body == barb::ExprId(4)
            &&& store.functions[0].defined
            &&& store.functions[0].result == barb::TypeId(0)
            &&& store.functions[0].params == (barb::Range { start: 1, len: 2 })
            &&& store.types_pool == seq![barb::TypeId(0), barb::TypeId(0), barb::TypeId(0)]
            &&& store.types == naturals().types
            &&& store.ctors == naturals().ctors
            &&& store.consts.len() == 0
            &&& store.bytes.len() == 0
        }),
{
    the_naturals_are_small();
    let number = barb::TypeId(0);
    let add = barb::FnId(0);
    let declared = naturals().with_function("add"@, seq![number, number], number);
    let start = Scope::opened(declared, 2);
    let left = local(0);
    let nothing_left = start.inside(0);
    assert(!nothing_left.answers_last(left));
    assert(nothing_left.closed(left) == (
        nothing_left.program.with_expr(barb::Expr::Atom(left)),
        barb::ExprId(0),
    ));
    let between = start.after(nothing_left, left);
    assert(between.program.exprs =~= seq![barb::Expr::Atom(left)]);
    let called = between.inside(1).call(add, seq![left, local(2)]);
    assert(called.program.atoms =~= seq![left, local(2)]);
    assert(called.pending =~= seq![barb::ExprId(1)]);
    let one_less = called.con(barb::CtorId(1), seq![local(3)]);
    assert(one_less.program.atoms =~= seq![left, local(2), local(3)]);
    assert(one_less.pending =~= seq![barb::ExprId(1), barb::ExprId(2)]);
    assert(one_less.answers_last(local(4)));
    assert(one_less.pending.drop_last() =~= seq![barb::ExprId(1)]);
    assert(seq![barb::ExprId(1)].drop_last() =~= Seq::<barb::ExprId>::empty());
    let wrapped = one_less.program.with_expr(
        barb::Expr::Let(barb::ExprId(1), barb::ExprId(2)),
    );
    assert(builder::wrapped(wrapped, seq![], barb::ExprId(3)) == (wrapped, barb::ExprId(3)));
    assert(one_less.closed(local(4)) == (wrapped, barb::ExprId(3)));
    let arms = seq![
        barb::Arm { ctor: barb::CtorId(0), body: barb::ExprId(0) },
        barb::Arm { ctor: barb::CtorId(1), body: barb::ExprId(3) },
    ];
    let matching = between.after(one_less, local(4)).matching(local(1), arms);
    assert(matching.pending =~= seq![barb::ExprId(4)]);
    assert(matching.answers_last(local(2)));
    assert(matching.pending.drop_last() =~= seq![]);
    assert(matching.closed(local(2)) == (matching.program, barb::ExprId(4)));
    let store = with_addition(naturals());
    assert(store == matching.as_body(add, local(2)));
    assert(store.arms =~= arms);
    assert(store.types_pool =~= seq![number, number, number]);
    assert(store.exprs =~= seq![
        barb::Expr::Atom(local(0)),
        barb::Expr::Call(add, barb::Range { start: 0, len: 2 }),
        barb::Expr::Con(barb::CtorId(1), barb::Range { start: 2, len: 1 }),
        barb::Expr::Let(barb::ExprId(1), barb::ExprId(2)),
        barb::Expr::Match(local(1), barb::Range { start: 0, len: 2 }),
    ]);
}

/// `2 + 2` is four.
#[verifier::rlimit(40)]
#[verifier::spinoff_prover]
pub proof fn two_and_two_are_four()
    requires
        two_twice().wf(),
    ensures
        two_twice().entry is Some,
        exists|fuel: nat| #[trigger]
            two_twice().meaning(
                two_twice().function(two_twice().entry->Some_0).body,
                seq![],
                fuel,
            ) == Some(
                barb::meaning::Outcome::Answers(
                    barb::constant::number_tree(two_twice(), barb::TypeId(0), 4),
                ),
            ),
{
    addition_is_small();
    the_naturals_are_small();
    let number = barb::TypeId(0);
    let (add, main) = (barb::FnId(0), barb::FnId(1));
    let adding = with_addition(naturals());
    let text = targets::bytes::unsigned_leb(2);
    reveal_with_fuel(targets::bytes::unsigned_leb, 2);
    assert(text.len() == 1);
    let declared = adding.with_const(text).with_function("main"@, seq![], number);
    let known = Scope::opened(declared, 0).known(number, barb::ConstId(0));
    let called = known.call(add, seq![local(0), local(0)]);
    assert(called.pending =~= seq![barb::ExprId(5), barb::ExprId(6)]);
    assert(called.answers_last(local(1)));
    assert(called.pending.drop_last() =~= seq![barb::ExprId(5)]);
    assert(seq![barb::ExprId(5)].drop_last() =~= Seq::<barb::ExprId>::empty());
    let wrapped = called.program.with_expr(
        barb::Expr::Let(barb::ExprId(5), barb::ExprId(6)),
    );
    assert(builder::wrapped(wrapped, seq![], barb::ExprId(7)) == (wrapped, barb::ExprId(7)));
    assert(called.closed(local(1)) == (wrapped, barb::ExprId(7)));
    let store = two_twice();
    assert(store == called.as_body(main, local(1)).with_entry(main));
    assert(store.exprs =~= adding.exprs + seq![
        barb::Expr::Static(number, barb::ConstId(0)),
        barb::Expr::Call(add, barb::Range { start: 3, len: 2 }),
        barb::Expr::Let(barb::ExprId(5), barb::ExprId(6)),
    ]);
    assert(store.atoms =~= adding.atoms + seq![local(0), local(0)]);
    assert(store.arms =~= adding.arms);
    assert(store.types_pool =~= adding.types_pool);
    assert(store.functions[0] == adding.functions[0]);
    let succ = store.fields(barb::CtorId(1));
    assert(succ =~= seq![number]);
    assert(store.fields(barb::CtorId(0)) =~= seq![]);
    assert(barb::constant::place(succ, number, 0) == 0);
    assert(barb::constant::place(succ, number, 1) == 1);
    assert(store.is_number(number));
    assert(store.params(add) =~= seq![number, number]);
    let arms = barb::Range { start: 0, len: 2 }.read(store.arms);
    assert(arms =~= store.arms);
    assert(barb::facts::arm_for(arms, barb::CtorId(0), 0) == 0);
    assert(barb::facts::arm_for(arms, barb::CtorId(1), 1) == 1);
    assert(barb::facts::arm_for(arms, barb::CtorId(1), 0) == 1);
    assert(barb::Range { start: 0, len: 2 }.read(store.atoms) =~= seq![local(0), local(2)]);
    assert(barb::Range { start: 2, len: 1 }.read(store.atoms) =~= seq![local(3)]);
    assert(barb::Range { start: 3, len: 2 }.read(store.atoms) =~= seq![local(0), local(0)]);
    assert(store.counts_down(add, arms[1], barb::CtorId(1), 1));
    assert(store.is_addition(add));
    barb::facts::addition_adds(store, add, 2, 2);
    let two = barb::constant::number_tree(store, number, 2);
    let four = barb::meaning::Outcome::Answers(barb::constant::number_tree(store, number, 4));
    let both = barb::facts::two_numbers(store, number, 2, 2);
    let fuel = choose|fuel: nat| #[trigger]
        store.meaning(store.function(add).body, both, fuel) == Some(four);
    barb::constant::a_number_is_its_count(store, number, 2);
    let bytes = store.known_bytes(barb::ConstId(0));
    assert(bytes =~= text);
    assert(barb::constant::encodes(store, number, two, bytes));
    let held = store.held(number, barb::ConstId(0));
    assert(barb::constant::encodes(store, number, held, bytes));
    assert(bytes.skip(0) =~= bytes);
    barb::constant::an_encoding_is_of_one_value(store, number, held, two, bytes, 0);
    let none = Seq::<barb::constant::Tree>::empty();
    let after = none.push(two);
    let atoms = seq![local(0), local(0)];
    assert(barb::meaning::bound(atoms, after) == Some(both)) by {
        assert(Seq::new(2, |i: int| after[atoms[i].0.0 as int]) =~= both);
    }
    assert(store.meaning(barb::ExprId(6), after, fuel + 1) == Some(four));
    assert(store.meaning(barb::ExprId(5), none, fuel + 1) == Some(
        barb::meaning::Outcome::Answers(two),
    ));
    assert(store.meaning(barb::ExprId(7), none, fuel + 2) == Some(four));
    assert(store.functions.len() == 2);
    assert(store.function(main).body == barb::ExprId(7));
    assert(store.meaning(store.function(store.entry->Some_0).body, seq![], fuel + 2) == Some(four));
}

/// An arm of addition, and what it answers: the left operand where there is
/// no field, and the constructor around the sum with the field where there is
/// one.
spec fn added(arm: Scope, ctor: barb::CtorId, fields: Seq<barb::Atom>) -> (Scope, barb::Atom) {
    if fields.len() == 0 {
        (arm, local(0))
    } else {
        let rest = arm.call(barb::FnId(0), seq![local(0), fields[0]]);
        (rest.con(ctor, seq![arm.next()]), rest.next())
    }
}

/// Write an arm of addition.
fn add_arm(b: &mut barb::Builder, ctor: barb::CtorId, fields: &[barb::Atom]) -> (sum: barb::Atom)
    requires
        old(b)@.wf(),
        old(b)@.room(10),
        fields@.len() <= 1,
        ctor.0 < old(b)@.program.ctors.len(),
        old(b)@.program.functions.len() > 0,
    ensures
        final(b)@.wf(),
        final(b)@.program.grows(old(b)@.program),
        (final(b)@, sum) == added(old(b)@, ctor, fields@),
{
    let left = barb::Atom(barb::Local(0));
    if fields.len() == 0 {
        return left;
    }
    let args: [barb::Atom; 2] = [left, fields[0]];
    assert(args@ =~= seq![local(0), fields@[0]]);
    let rest = b.call(barb::FnId(0), &args);
    let ghost mid = b@;
    let held: [barb::Atom; 1] = [rest];
    assert(held@ =~= seq![old(b)@.next()]);
    let more = b.con(ctor, &held);
    proof {
        builder::growth_chains(old(b)@.program, mid.program, b@.program);
    }
    more
}

/// Write addition.
fn add_naturals(program: barb::Program) -> (made: barb::Program)
    requires
        program@ == naturals(),
        program@.wf(),
    ensures
        made@ == with_addition(naturals()),
        made@.wf(),
        made@.room(1000),
        made@.types == naturals().types,
        made@.ctors == naturals().ctors,
        made@.types_pool == naturals().types_pool + seq![barb::TypeId(0), barb::TypeId(0)],
        made@.functions.len() == 1,
        made@.consts.len() == 0,
{
    proof {
        the_names_are_short();
        the_naturals_are_small();
    }
    let mut program: barb::Program = program;
    let number = barb::TypeId(0);
    let params: [barb::TypeId; 2] = [number, number];
    assert(params@ =~= seq![number, number]);
    let add = program.declare("add", &params, number);
    let mut b = program.begin(add);
    let ghost start = b@;
    let ghost between = start.after(start.inside(0), local(0));
    proof {
        builder::a_closed_scope_fits(start.inside(0), start.inside(0), local(0));
        builder::a_scope_outlives_growth(start, between.program);
        assert(start.program.arm_binds(number, 0) == 0);
        assert(start.program.arm_binds(number, 1) == 1);
        assert(start.binders(0) =~= seq![]);
        assert(start.binders(1) =~= seq![local(2)]);
        assert forall|
            walk: builder::Walk,
            c: &mut barb::Builder,
            ctor: barb::CtorId,
            fields: &[barb::Atom],
        |
            #[trigger] start.begins_walk(number, walk) && (forall|tag: int| #[trigger]
                walk.has(tag) ==> exists|d: &mut barb::Builder, taken: &[barb::Atom]| #[trigger]
                    add_arm.ensures((d, walk.arms[tag].ctor, taken), walk.results[tag])
                        && start.began_arm(number, walk, tag, d@, taken@) && final(d)@
                        == walk.inners[tag]) && start.begins_arm(
                number,
                walk,
                c@,
                ctor,
                fields@,
            ) implies #[trigger] add_arm.requires((c, ctor, fields)) by {
            if walk.arms.len() > 0 {
                assert(walk.has(0));
                assert(walk.states.last() == between);
            }
        }
        assert forall|
            walk: builder::Walk,
            c: &mut barb::Builder,
            ctor: barb::CtorId,
            fields: &[barb::Atom],
            result: barb::Atom,
        |
            #[trigger] start.begins_walk(number, walk) && (forall|tag: int| #[trigger]
                walk.has(tag) ==> exists|d: &mut barb::Builder, taken: &[barb::Atom]| #[trigger]
                    add_arm.ensures((d, walk.arms[tag].ctor, taken), walk.results[tag])
                        && start.began_arm(number, walk, tag, d@, taken@) && final(d)@
                        == walk.inners[tag]) && start.begins_arm(
                number,
                walk,
                c@,
                ctor,
                fields@,
            ) && #[trigger] add_arm.ensures((c, ctor, fields), result) implies final(c)@.ends_arm(
            c@,
            2,
        ) by {
            if walk.arms.len() > 0 {
                assert(walk.has(0));
                assert(walk.states.last() == between);
            }
        }
    }
    let chosen = b.match_(barb::Atom(barb::Local(1)), number, add_arm);
    proof {
        let walk = choose|walk: builder::Walk| #[trigger]
            start.begins_walk(number, walk) && (forall|tag: int| #[trigger]
                walk.has(tag) ==> exists|d: &mut barb::Builder, taken: &[barb::Atom]| #[trigger]
                    add_arm.ensures((d, walk.arms[tag].ctor, taken), walk.results[tag])
                        && start.began_arm(number, walk, tag, d@, taken@) && final(d)@
                        == walk.inners[tag]) && walk.arms.len() == 2 && b@
                == walk.states.last().matching(local(1), walk.arms);
        assert(walk.has(0));
        assert(walk.has(1));
        assert(walk.states[1] == between);
        let inner = between.inside(1).call(add, seq![local(0), local(2)]).con(
            barb::CtorId(1),
            seq![local(3)],
        );
        assert(walk.inners[1] == inner);
        assert(walk.results[1] == local(4));
        builder::a_closed_scope_fits(inner, inner, local(4));
        assert(walk.states[2] == between.after(inner, local(4)));
        assert(walk.arms =~= seq![
            barb::Arm { ctor: barb::CtorId(0), body: start.inside(0).closed(local(0)).1 },
            barb::Arm { ctor: barb::CtorId(1), body: inner.closed(local(4)).1 },
        ]);
        builder::a_closed_scope_fits(b@, b@, chosen);
        builder::naming_costs(naturals().names, "add"@);
    }
    b.end(add, chosen)
}

/// What a text says, lowered.
pub open spec fn understood(text: Seq<char>) -> Result<Parts, Seq<char>> {
    match barb::parse::parsed(text) {
        Ok(store) => if store.entry is None {
            Err("there is no `main` to start from"@)
        } else {
            ir::lower::lowered(store, store.facts())
        },
        Err(said) => Err(said),
    }
}

/// Read a program and lower it to the tier a target compiles: what it says,
/// then what each definition computes, then how to compute it.
///
/// Where it cannot, it names what it could not read, or what it read and
/// cannot represent. Where it can, what it made does what the text says, and
/// is in order.
pub fn read(text: &str) -> (made: Result<Program, String>)
    ensures
        match made {
            Ok(machine) => {
                &&& understood(text@) == Ok::<_, Seq<char>>(machine@)
                &&& machine@.wf()
                &&& machine@.agrees()
                &&& ir::faithful::is_faithful(barb::parse::parsed(text@)->Ok_0, machine@)
                &&& ir::faithful::can_start(barb::parse::parsed(text@)->Ok_0)
                    ==> machine@.orderly()
            },
            Err(said) => understood(text@) == Err::<Parts, _>(said@),
        },
{
    let program = match barb::parse(text) {
        Ok(program) => program,
        Err(said) => {
            return Err(said);
        },
    };
    if program.entry().is_none() {
        return Err("there is no `main` to start from".to_owned());
    }
    let facts = barb::recognise(&program);
    match ir::lower(&program, &facts) {
        Ok(machine) => {
            proof {
                ir::faithful::a_typed_program_is_lowered_faithfully(program@, machine@);
                if ir::faithful::can_start(program@) {
                    ir::fresh::what_is_lowered_is_in_order(program@, machine@);
                }
            }
            Ok(machine)
        },
        Err(said) => Err(said),
    }
}

/// The status to leave with after a program left with `code`, or did not
/// leave by itself: one wherever a byte does not hold the code.
pub fn status(code: Option<i32>) -> (status: u8)
    ensures
        status == match code {
            Some(code) => if 0 <= code <= 255 {
                code as int
            } else {
                1
            },
            None => 1,
        },
{
    match code {
        Some(code) if 0 <= code && code <= 255 => code as u8,
        _ => 1,
    }
}

/// The files a program becomes on a target that accepts it.
pub fn compile(target: Target, program: &Program) -> (artifacts: Vec<Artifact>)
    requires
        program@.wf(),
        target.image(program@) is Some,
    ensures
        artifacts@.len() == 1,
        Some(artifacts@[0].bytes@) == target.image(program@),
        artifacts@[0].extension@ == target.suffix(),
        artifacts@[0].executable == (target == Target::X86_64Linux),
{
    target.emit(program)
}

} // verus!
