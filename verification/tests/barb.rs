//! The core IR: how a known value is encoded, how a program is built, what
//! it reads as, and what is known of it.

use faun::barb::{
    as_bytes, as_number, decode, parse, recognise, shape, Arm, Atom, CtorId, Expr, FnId, Local,
    Operation, Program, Shape, TypeId, Value,
};

/// `Nat`, `U8`, and `List_U8`, which between them reach every case the
/// encoding has.
fn types() -> (Program, TypeId, TypeId, TypeId) {
    let mut program = Program::new();
    let nat = program.declare_type("Nat");
    program.define_type(nat, &[("Zero", &[]), ("Succ", &[nat])]);
    let byte = program.declare_type("U8");
    program.define_type(byte, &[("Zero", &[]), ("Succ", &[byte])]);
    let list = program.declare_type("List_U8");
    program.define_type(list, &[("Nil", &[]), ("Cons", &[byte, list])]);
    (program, nat, byte, list)
}

fn natural(program: &Program, id: TypeId, value: u64) -> Value {
    let mut term = Value(program.ctor_at(id, 0), Vec::new());
    for _ in 0..value {
        term = Value(program.ctor_at(id, 1), vec![term]);
    }
    term
}

fn list(program: &Program, list: TypeId, byte: TypeId, bytes: &[u8]) -> Value {
    let mut term = Value(program.ctor_at(list, 0), Vec::new());
    for value in bytes.iter().rev() {
        term = Value(
            program.ctor_at(list, 1),
            vec![natural(program, byte, u64::from(*value)), term],
        );
    }
    term
}

/// `add(a, b)` by recursion on the second argument, which is the shape every
/// numeric operation has before the machine tier recognises it.
fn addition(program: &mut Program, nat: TypeId) -> FnId {
    let add = program.declare("add", &[nat, nat], nat);
    program.define(add, |b, args| {
        let (left, right) = (args[0], args[1]);
        b.match_(right, nat, |b, ctor, fields| match fields {
            // Zero: the left operand, untouched.
            [] => left,
            // Succ(k): Succ(add(left, k)).
            [k] => {
                let rest = b.call(add, &[left, *k]);
                b.con(ctor, &[rest])
            }
            _ => unreachable!("Nat takes at most one field"),
        })
    });
    add
}

#[test]
fn barb_a_term_stays_small() {
    assert_eq!(size_of::<Expr>(), 16);
    assert_eq!(size_of::<Arm>(), 8);
    assert_eq!(size_of::<Atom>(), 4);
}

#[test]
fn tests_a_term_stays_small() {
    assert_eq!(size_of::<Expr>(), 16);
    assert_eq!(size_of::<Arm>(), 8);
    assert_eq!(size_of::<Atom>(), 4);
}

#[test]
fn barb_a_spine_is_recognised_and_a_branching_type_is_not() {
    let (mut program, nat, _, list) = types();
    assert!(matches!(shape(&program, nat), Shape::Spine { .. }));
    assert!(matches!(shape(&program, list), Shape::Spine { .. }));

    let tree = program.declare_type("Tree");
    program.define_type(tree, &[("Leaf", &[]), ("Node", &[tree, tree])]);
    assert_eq!(shape(&program, tree), Shape::Tagged, "two recursive fields");

    let extra = program.declare_type("Three");
    program.define_type(extra, &[("A", &[]), ("B", &[extra]), ("C", &[])]);
    assert_eq!(shape(&program, extra), Shape::Tagged, "a third constructor");
}

#[test]
fn tests_a_spine_is_recognised_and_a_branching_type_is_not() {
    let (mut program, nat, _, list) = types();
    assert!(matches!(shape(&program, nat), Shape::Spine { .. }));
    assert!(matches!(shape(&program, list), Shape::Spine { .. }));

    let tree = program.declare_type("Tree");
    program.define_type(tree, &[("Leaf", &[]), ("Node", &[tree, tree])]);
    assert_eq!(shape(&program, tree), Shape::Tagged, "two recursive fields");

    let extra = program.declare_type("Three");
    program.define_type(extra, &[("A", &[]), ("B", &[extra]), ("C", &[])]);
    assert_eq!(shape(&program, extra), Shape::Tagged, "a third constructor");
}

#[test]
fn barb_a_natural_costs_the_logarithm_of_its_value() {
    let (mut program, nat_id, _, _) = types();
    let thousand = natural(&program, nat_id, 1000);
    let id = program.intern(nat_id, &thousand);
    assert_eq!(
        program.known_bytes(id),
        [0xE8, 0x07],
        "1000, seven bits a byte"
    );
    assert_eq!(
        decode(&program, nat_id, program.known_bytes(id)).0,
        thousand
    );
}

#[test]
fn tests_a_natural_costs_the_logarithm_of_its_value() {
    let (mut program, nat_id, _, _) = types();
    let thousand = natural(&program, nat_id, 1000);
    let id = program.intern(nat_id, &thousand);
    assert_eq!(
        program.known_bytes(id),
        [0xE8, 0x07],
        "1000, seven bits a byte"
    );
    assert_eq!(
        decode(&program, nat_id, program.known_bytes(id)).0,
        thousand
    );
    assert_eq!(
        as_number(&program, nat_id, program.known_bytes(id)),
        Some(1000)
    );
}

/// The same bytes, without ever building the chain they stand for. `decode`
/// and the tree a caller hands `intern` both cost the magnitude; these do not.
#[test]
fn a_number_and_a_run_of_bytes_can_be_written_outright() {
    let (mut program, nat_id, byte, list_id) = types();
    let chain = natural(&program, nat_id, 1000);
    let chain = program.intern(nat_id, &chain);
    let direct = program.intern_number(nat_id, 1000);
    assert_eq!(program.known_bytes(chain), program.known_bytes(direct));

    let built = list(&program, list_id, byte, b"Hello");
    let chain = program.intern(list_id, &built);
    let direct = program.intern_bytes(list_id, b"Hello");
    assert_eq!(program.known_bytes(chain), program.known_bytes(direct));
}

#[test]
fn barb_an_ascii_string_is_its_own_bytes_after_the_count() {
    let (mut program, _, byte, list_id) = types();
    let hello = list(&program, list_id, byte, b"Hello");
    let id = program.intern(list_id, &hello);
    assert_eq!(program.known_bytes(id), b"\x05Hello");

    let lifted = as_bytes(&program, list_id, program.known_bytes(id));
    assert_eq!(lifted, Some(&b"Hello"[..]), "liftable as it stands");
    assert_eq!(decode(&program, list_id, program.known_bytes(id)).0, hello);
}

#[test]
fn tests_an_ascii_string_is_its_own_bytes_after_the_count() {
    let (mut program, _, byte, list_id) = types();
    let hello = list(&program, list_id, byte, b"Hello");
    let id = program.intern(list_id, &hello);
    assert_eq!(program.known_bytes(id), b"\x05Hello");

    let lifted = as_bytes(&program, list_id, program.known_bytes(id));
    assert_eq!(lifted, Some(&b"Hello"[..]), "liftable as it stands");
    assert_eq!(decode(&program, list_id, program.known_bytes(id)).0, hello);
}

/// A byte past 127 takes two bytes to encode, so the run is no longer the
/// value and a target has to decode it.
#[test]
fn barb_a_string_past_ascii_is_not_liftable() {
    let (mut program, _, byte, list_id) = types();
    let cafe = list(&program, list_id, byte, "café".as_bytes());
    let id = program.intern(list_id, &cafe);
    assert!(as_bytes(&program, list_id, program.known_bytes(id)).is_none());
    assert_eq!(decode(&program, list_id, program.known_bytes(id)).0, cafe);
}

#[test]
fn tests_a_string_past_ascii_is_not_liftable() {
    let (mut program, _, byte, list_id) = types();
    let cafe = list(&program, list_id, byte, "café".as_bytes());
    let id = program.intern(list_id, &cafe);
    assert!(as_bytes(&program, list_id, program.known_bytes(id)).is_none());
    assert_eq!(decode(&program, list_id, program.known_bytes(id)).0, cafe);
}

fn a_record_packs_into_a_list() {
    let (mut program, nat_id, _, _) = types();
    let point = program.declare_type("Point");
    program.define_type(point, &[("MkPoint", &[nat_id, nat_id])]);
    let points = program.declare_type("List_Point");
    program.define_type(points, &[("Nil", &[]), ("Cons", &[point, points])]);

    let at = |program: &Program, x, y| {
        Value(
            program.ctor_at(point, 0),
            vec![natural(program, nat_id, x), natural(program, nat_id, y)],
        )
    };
    let mut value = Value(program.ctor_at(points, 0), Vec::new());
    for (x, y) in [(3u64, 4u64), (1, 2)] {
        value = Value(program.ctor_at(points, 1), vec![at(&program, x, y), value]);
    }
    let id = program.intern(points, &value);
    assert_eq!(
        program.known_bytes(id),
        [2, 1, 2, 3, 4],
        "count, then packed pairs"
    );
    assert_eq!(decode(&program, points, program.known_bytes(id)).0, value);
}

#[test]
fn barb_a_record_costs_no_tag_and_packs_into_a_list() {
    a_record_packs_into_a_list();
}

#[test]
fn tests_a_record_costs_no_tag_and_packs_into_a_list() {
    a_record_packs_into_a_list();
}

#[test]
fn the_builder_writes_the_lets_itself() {
    let (mut program, nat, _, _) = types();
    let add = addition(&mut program, nat);

    // Two parameters, `k` in the recursive arm, and the call bound inside it.
    // Neither the constructor nor the match binds anything: each is the body
    // of its scope, so `close` used it rather than wrapping it in a `let`.
    assert_eq!(program.locals(add), 4);
    let Expr::Match(scrutinee, arms) = program.expr(program.function(add).body) else {
        panic!("the body is the match itself, with no `let` around it");
    };
    assert_eq!(scrutinee, Atom(Local(1)), "the second parameter");
    let arms = program.arms(arms).to_vec();
    assert_eq!(arms.len(), 2, "one arm per constructor, by construction");
    assert_eq!(
        program.expr(arms[0].body),
        Expr::Atom(Atom(Local(0))),
        "Zero answers the left operand"
    );
    let Expr::Let(call, tail) = program.expr(arms[1].body) else {
        panic!("the recursive arm binds its call");
    };
    assert!(matches!(program.expr(call), Expr::Call(..)));
    assert!(
        matches!(program.expr(tail), Expr::Con(..)),
        "no trailing atom"
    );
}

/// A value of a type that branches carries a tag, then its fields.
#[test]
fn a_branching_value_carries_its_tag() {
    let (mut program, nat_id, _, _) = types();
    let tree = program.declare_type("Tree");
    program.define_type(tree, &[("Leaf", &[nat_id]), ("Node", &[tree, tree])]);
    let leaf = |program: &Program, n| Value(program.ctor_at(tree, 0), vec![natural(program, nat_id, n)]);
    let value = Value(
        program.ctor_at(tree, 1),
        vec![leaf(&program, 5), leaf(&program, 200)],
    );
    let id = program.intern(tree, &value);
    assert_eq!(program.known_bytes(id), [1, 0, 5, 0, 0xC8, 0x01]);
    let (read, took) = decode(&program, tree, program.known_bytes(id));
    assert_eq!(read, value);
    assert_eq!(took, 6);
    assert_eq!(as_number(&program, tree, program.known_bytes(id)), None);
    assert_eq!(as_bytes(&program, tree, program.known_bytes(id)), None);
}

/// What is held first is held still after more is.
#[test]
fn a_known_value_is_kept() {
    let (mut program, nat_id, _, list_id) = types();
    let one = program.intern_number(nat_id, 300);
    let other = program.intern_bytes(list_id, b"hi");
    assert_eq!(program.known_bytes(one), [0xAC, 0x02]);
    assert_eq!(program.known_bytes(other), b"\x02hi");
}

/// Reading stops where the value does, whatever follows.
#[test]
fn a_value_is_read_off_the_front() {
    let (program, nat_id, _, _) = types();
    let (read, took) = decode(&program, nat_id, &[3, 99, 99]);
    assert_eq!(read, natural(&program, nat_id, 3));
    assert_eq!(took, 1);
}

#[test]
fn a_name_is_kept_once() {
    let (program, nat, byte, _) = types();
    assert_eq!(program.names_text(), "NatZeroSuccU8List_U8NilCons");
    assert_eq!(program.name(program.type_(nat).name), "Nat");
    assert_eq!(
        program.ctors(nat)[1].name,
        program.ctors(byte)[1].name,
        "two constructors of one name share its symbol"
    );
}

#[test]
fn a_constructor_is_found_by_its_tag() {
    let (program, _, _, list) = types();
    let cons = program.ctor_at(list, 1);
    assert_eq!(program.tag(cons), 1);
    assert_eq!(program.ctor(cons).owner, list);
    assert_eq!(program.fields(cons).len(), 2);
}

/// Addition is known for what it is, whichever argument it counts down, and
/// what only looks like it is not.
#[test]
fn addition_is_recognised() {
    let (mut program, nat, _, _) = types();
    let add = addition(&mut program, nat);
    assert_eq!(recognise(&program).operation(add), Some(Operation::Add));

    let facts = |text: &str| {
        let program = parse(text).expect("a program");
        recognise(&program).operation(FnId(0))
    };
    assert_eq!(
        facts("type Nat Zero Succ(Nat) add(Zero b) -> b add(Succ(a) b) -> Succ(add(a b))"),
        Some(Operation::Add)
    );
    assert_eq!(
        facts("type Nat Zero Succ(Nat) add(Zero b) -> b add(Succ(a) b) -> Succ(add(b a))"),
        None,
        "the one kept does not ride through untouched"
    );
    assert_eq!(
        facts("type Nat Zero Succ(Nat) add(Zero b) -> Succ(b) add(Succ(a) b) -> Succ(add(a b))"),
        None,
        "nothing left to add answers something else"
    );
    assert_eq!(
        facts("type Nat Zero Succ(Nat) add(Zero b) -> b add(Succ(a) b) -> add(a Succ(b))"),
        None,
        "nothing is counted up around the call"
    );
    assert_eq!(
        recognise(&program).operation(FnId(7)),
        None,
        "nothing is known of what is not there"
    );
}

#[test]
fn a_program_renders_as_it_reads() {
    let program = faun::two_and_two();
    assert_eq!(
        program.render(),
        "Nat = Zero | Succ(Nat)

add(v0: Nat, v1: Nat) -> Nat =
  match v1 {
    Zero =>
      v0
    Succ(v2) =>
      let v3 = add(v0, v2)
      Succ(v3)
  }

main() -> Nat =
  let v0 = 2
  add(v0, v0)
"
    );
}

/// A run of bytes renders as the text it is, what would not read as itself
/// escaped, and anything else as how much of it there is.
#[test]
fn a_known_run_renders_as_text() {
    let (mut program, _, byte, list_id) = types();
    let said = program.intern_bytes(list_id, b"say \"hi\"\n");
    let long = program.intern_bytes(list_id, "café".as_bytes());
    let pair = program.declare_type("Pair");
    program.define_type(pair, &[("MkPair", &[byte, byte])]);
    let both = Value(
        program.ctor_at(pair, 0),
        vec![natural(&program, byte, 1), natural(&program, byte, 2)],
    );
    let both = program.intern(pair, &both);
    let tell = program.declare("tell", &[], list_id);
    program.define(tell, |b, _| b.known(list_id, said));
    let more = program.declare("more", &[], list_id);
    program.define(more, |b, _| b.known(list_id, long));
    let two = program.declare("two", &[], pair);
    program.define(two, |b, _| b.known(pair, both));
    let text = program.render();
    assert!(text.contains("tell() -> List_U8 =\n  \"say \\\"hi\\\"\\n\"\n"), "{text}");
    assert!(text.contains("more() -> List_U8 =\n  <8 bytes>\n"), "{text}");
    assert!(text.contains("two() -> Pair =\n  <Pair>\n"), "{text}");
    assert!(text.contains("Pair = MkPair(U8, U8)\n"), "{text}");
}

/// What something else answers for renders as what it takes and answers.
#[test]
fn a_declaration_renders_without_a_body() {
    let program = parse("type Nat Zero Succ(Nat) main!(h) -> exit!(h Zero)").expect("a program");
    let text = program.render();
    assert!(text.ends_with("\nexit!(v0: Host, v1: Nat) -> Nothing\n"), "{text}");
    assert!(text.contains("main!(v0: Host) -> Nothing =\n  let v1 = Zero\n  exit!(v0, v1)\n"), "{text}");
}

fn refused(text: &str) -> String {
    match parse(text) {
        Ok(program) => panic!("read as\n{}", program.render()),
        Err(said) => said,
    }
}

const NAT: &str = "type Nat Zero Succ(Nat) ";

#[test]
fn constructors_may_be_set_apart() {
    let plain = parse("type Nat Zero Succ(Nat) one() -> Succ(Zero)").expect("a program");
    let apart = parse("type Nat = Zero | Succ(Nat)\n\none() -> Succ(Zero)").expect("a program");
    assert_eq!(plain, apart);
    assert_eq!(plain.entry(), None);
}

#[test]
fn a_comment_runs_to_the_end_of_its_line() {
    let plain = parse("type Nat Zero Succ(Nat)\none() -> Succ(Zero)").expect("a program");
    let noted =
        parse("type Nat#(a\n Zero # Zero)\n Succ(Nat)\none()->Succ(Zero)#").expect("a program");
    assert_eq!(plain, noted);
}

#[test]
fn steps_are_bound_in_order() {
    let program = parse(
        "type Nat Zero Succ(Nat)
         three() -> one = Succ(Zero)
                    two = Succ(one)
                    Succ(two)",
    )
    .expect("a program");
    assert!(program.render().ends_with(
        "three() -> Nat =\n  let v0 = Zero\n  let v1 = Succ(v0)\n  let v2 = Succ(v1)\n  Succ(v2)\n"
    ));
}

#[test]
fn what_cannot_be_read_is_named() {
    assert_eq!(refused("type Nat Zero,"), "expected a name, found `,`");
    assert_eq!(refused("type"), "the program ends early");
    assert_eq!(refused("type Nat Succ("), "the program ends early");
    assert_eq!(refused("f x"), "expected `(`, found Some(\"x\")");
    assert_eq!(refused("f"), "expected `(`, found None");
    assert_eq!(refused("f() = x"), "expected `->`, found Some(\"=\")");
    assert_eq!(refused("f(a)"), "expected `->`, found None");
    assert_eq!(refused("f() -> g("), "the program ends early");
    assert_eq!(refused("f() -> x = )"), "expected a name, found `)`");
    assert_eq!(refused("type Nat = Zero |"), "the program ends early");
}

#[test]
fn what_is_not_there_is_named() {
    assert_eq!(refused("type List Nil Cons(Elem List)"), "no type named `Elem`");
    assert_eq!(
        refused(&format!("{NAT} f(Pred(a)) -> a")),
        "no constructor named `Pred`"
    );
    assert_eq!(
        refused(&format!("{NAT} f(Zero) -> x f(Succ(a)) -> a")),
        "nothing named `x` is in scope"
    );
    assert_eq!(
        refused(&format!("{NAT} f(a) -> g(a)")),
        "nothing named `g` is in scope"
    );
    assert_eq!(
        refused(&format!("{NAT} f() -> Zero g() -> f")),
        "nothing named `f` is in scope"
    );
}

#[test]
fn what_does_not_fit_is_named() {
    assert_eq!(
        refused(&format!("{NAT} f() -> Succ(Zero Zero)")),
        "`Succ` takes 1 fields"
    );
    assert_eq!(refused(&format!("{NAT} f() -> Succ")), "`Succ` takes 1 fields");
    assert_eq!(
        refused(&format!("{NAT} f(Succ(a b)) -> a f(Zero) -> Zero")),
        "`Succ` takes 1 fields"
    );
    assert_eq!(
        refused(&format!("{NAT} f(Zero) -> Zero f(Succ(a)) -> a(Zero)")),
        "`a` is a value, not something to apply"
    );
    assert_eq!(
        refused(&format!("{NAT} f(Zero b) -> b f(Succ(a) b) -> f(a)")),
        "`f` takes 2 arguments"
    );
    assert_eq!(
        refused(&format!("{NAT} f(Zero) -> Zero f(Succ(a) b) -> a")),
        "`f` takes a different number each clause"
    );
    assert_eq!(
        refused(&format!("{NAT} f(Zero Zero) -> Zero f(a b) -> a")),
        "this matches on argument 0 and on argument 1; one at a time"
    );
    assert_eq!(
        refused(&format!("{NAT} f(Zero) -> Zero")),
        "no clause covers `Succ`"
    );
}

/// A name that is bound means what it is bound to, whatever else is called
/// that.
#[test]
fn a_bound_name_is_not_applied() {
    assert_eq!(
        refused(&format!("{NAT} f(Zero x) -> x() f(Succ(a) x) -> Succ(x)")),
        "no function named `x`"
    );
    assert_eq!(
        refused(&format!("{NAT} x(a) -> Succ(a) f(Zero x) -> x(Zero) f(Succ(a) x) -> Succ(x)")),
        "`x` is a value, not something to apply"
    );
    assert_eq!(refused(&format!("{NAT} f() -> Succ = Zero Succ()")), "`Succ` takes 1 fields");
}

/// A name that is handed nothing is what is called that, of the type it is
/// bound at.
#[test]
fn a_bound_name_handed_nothing_is_of_one_type() {
    parse(&format!("{NAT} x() -> Zero f(Zero x) -> x() f(Succ(a) x) -> Succ(x)"))
        .expect("a program");
    assert_eq!(
        refused(&format!(
            "{NAT} type Bool No Yes x() -> Yes f(Zero x) -> x() f(Succ(a) x) -> Succ(x)"
        )),
        "a value is used at two types"
    );
    assert_eq!(
        refused(&format!("{NAT} x(a) -> Succ(a) f(Zero x) -> x() f(Succ(a) x) -> Succ(x)")),
        "`x` takes 1 arguments"
    );
}

#[test]
fn a_value_has_one_type() {
    let two = "type Nat Zero Succ(Nat) type Bool No Yes ";
    assert_eq!(
        refused(&format!("{two} f() -> Succ(Yes)")),
        "a value is used at two types"
    );
    assert_eq!(
        refused(&format!("{two} f(Zero) -> Yes f(Succ(a)) -> a")),
        "a value is used at two types"
    );
    assert_eq!(
        refused(&format!("{two} id(a) -> id(a)")),
        "nothing says what type `id` works over"
    );
}

/// A constructor's name means the one declared last, so a match on the
/// earlier type has no name to match by.
#[test]
fn a_name_declared_twice_is_refused() {
    let text = "type Old Zero More(Old) type Nat Zero Succ(Nat)
                f(More(a)) -> a f(b) -> b";
    assert_eq!(refused(text), "`Zero` is declared twice");
}

/// A type's name means the one declared last. What an earlier one said of
/// itself stays, of a type that nothing names any more.
#[test]
fn a_type_declared_twice_is_the_later_one() {
    let program =
        parse("type Nat Nought type Nat Zero Succ(Nat) f() -> Succ(Zero)").expect("a program");
    assert_eq!(program.types().len(), 2);
    assert_eq!(program.ctors(TypeId(0)).len(), 0);
    assert_eq!(program.ctors(TypeId(1)).len(), 2);
    assert_eq!(program.ctor_at(TypeId(1), 0), CtorId(1));
    assert_eq!(program.ctor_at(TypeId(1), 1), CtorId(2));
    assert_eq!(program.ctor(CtorId(0)).owner, TypeId(1));
    assert_eq!(
        refused("type Nat Nought type Nat Zero Succ(Nat) f() -> Nought"),
        "nothing named `Nought` is in scope"
    );
    let lowered = faun::read("type Nat Nought type Nat Zero Succ(Nat) main() -> Zero");
    assert_eq!(
        lowered.map(|_| ()).unwrap_err(),
        "`Nat` has no representation in this tier yet"
    );
}

/// A type that is given constructors again has those, and the ones it had are
/// still there to name by what they are.
#[test]
fn a_type_may_be_defined_again() {
    let mut program = Program::new();
    let nat = program.declare_type("Nat");
    program.define_type(nat, &[("Nought", &[])]);
    program.define_type(nat, &[("Zero", &[]), ("Succ", &[nat])]);
    assert_eq!(program.ctors(nat).len(), 2);
    assert_eq!(program.ctor_at(nat, 0), CtorId(1));
    assert_eq!(program.tag(CtorId(2)), 1);
    assert_eq!(program.fields(CtorId(2)), &[nat]);
    assert_eq!(program.name(program.ctor(CtorId(0)).name), "Nought");
}

#[test]
fn a_pure_name_is_refused_an_effect() {
    assert_eq!(
        refused(&format!("{NAT} quietly(h) -> exit!(h Zero)")),
        "`quietly` is pure and calls `exit!`"
    );
    assert_eq!(
        refused(&format!("{NAT} quietly(h) -> a = exit!(h Zero) Zero")),
        "`quietly` is pure and calls `exit!`"
    );
}

/// A program may write an `exit!` of its own, and then nothing is declared
/// for it.
#[test]
fn an_exit_of_its_own_is_a_function() {
    let program = parse(&format!("{NAT} exit!(a) -> Succ(a) main!() -> exit!(Zero)"))
        .expect("a program");
    assert_eq!(program.types().len(), 1);
    assert_eq!(program.functions().len(), 2);
    assert_eq!(program.entry(), Some(FnId(1)));
}

#[test]
fn what_has_no_representation_is_named() {
    let said = |text: &str| match faun::read(text) {
        Ok(_) => panic!("it was lowered"),
        Err(said) => said,
    };
    assert_eq!(said(""), "there is no `main` to start from");
    assert_eq!(
        said("type Bool No Yes main() -> Yes"),
        "`Bool` has no representation in this tier yet"
    );
    assert_eq!(
        said("type Nat Zero Succ(Nat) type List Nil Cons(Nat List) main() -> Zero"),
        "`List` carries something per element, which has no representation in this tier yet"
    );
    assert_eq!(
        said("type Nat Zero Succ(Nat) main(n) -> Succ(n)"),
        "`main` takes something that nothing hands it"
    );
    assert_eq!(
        said("type Nat Zero Succ(Nat) type One Only f(Only) -> Zero main() -> f(Only)"),
        "a term reads something that is not bound to anything",
        "a match on what carries nothing"
    );
}

/// Every character that ends a word where one does.
#[test]
fn white_space_is_what_unicode_says() {
    for code in 0..=0x10_FFFF {
        if let Some(character) = char::from_u32(code) {
            assert_eq!(
                faun::text::is_whitespace(character),
                character.is_whitespace(),
                "{code:x}"
            );
        }
    }
}

/// Whatever is called later, a constructor keeps its fields and a function what
/// it takes, answers and runs.
#[test]
fn what_was_declared_stays() {
    let (mut program, nat, byte, list) = types();
    let add = addition(&mut program, nat);
    let body = program.functions()[add.0 as usize].body;

    let pair = program.declare_type("Pair");
    program.define_type(pair, &[("MkPair", &[byte, nat])]);
    let same = program.declare("same", &[list], list);
    program.define(same, |_, args| args[0]);
    program.set_entry(same);

    assert_eq!(program.fields(program.ctor_at(list, 1)), [byte, list]);
    assert_eq!(program.fields(program.ctor_at(nat, 1)), [nat]);
    assert_eq!(program.params(add), [nat, nat]);
    assert_eq!(program.functions()[add.0 as usize].body, body);
}

/// Bindings take locals in turn, and earlier ones stay what they were.
#[test]
fn bindings_take_locals_in_turn() {
    let (mut program, nat, _, _) = types();
    let f = program.declare("f", &[nat], nat);
    let zero = program.ctor_at(nat, 0);
    let succ = program.ctor_at(nat, 1);
    program.define(f, |b, args| {
        assert_eq!(args[0], Atom(Local(0)));
        let none = b.con(zero, &[]);
        assert_eq!(none, Atom(Local(1)));
        let one = b.con(succ, &[none]);
        assert_eq!(one, Atom(Local(2)));
        let again = b.call(f, &[one]);
        assert_eq!(again, Atom(Local(3)));
        again
    });
}
