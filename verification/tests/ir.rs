use std::mem::size_of;

use faun::ir::{validate, wrap, Binary, Class, Op, Origin, Program};

/// The mistake `Convert` exists to make visible: an entry that says it
/// leaves with a word, leaving with eight bits instead.
#[test]
fn a_width_that_changes_without_saying_so_is_rejected() {
    let (mut program, main) = Program::new("main");
    program.define(main, |b, _| {
        let byte = b.constant(Class::Fixed { bits: 8 }, 250);
        b.ret(&[byte])
    });

    let error = validate(&program).unwrap_err();
    assert!(error.contains("main returns"), "{error}");

    let (mut program, main) = Program::new("main");
    program.define(main, |b, _| {
        let byte = b.constant(Class::Fixed { bits: 8 }, 250);
        let word = b.convert(Class::Word, byte);
        b.ret(&[word])
    });
    assert!(validate(&program).is_ok());
}

#[test]
fn operands_of_one_operation_must_agree() {
    let (mut program, main) = Program::new("main");
    program.define(main, |b, _| {
        let byte = b.constant(Class::Fixed { bits: 8 }, 1);
        let word = b.constant(Class::Word, 1);
        let sum = b.binary(Binary::Add, byte, word);
        let sum = b.convert(Class::Word, sum);
        b.ret(&[sum])
    });

    let error = validate(&program).unwrap_err();
    assert!(error.contains("in one operation"), "{error}");
}

#[test]
fn an_instruction_stays_small() {
    assert!(size_of::<Op>() <= 24, "{} bytes", size_of::<Op>());
}

#[test]
fn a_complaint_names_the_function_and_the_classes() {
    let (mut program, main) = Program::new("main");
    program.define(main, |b, _| {
        let byte = b.constant(Class::Fixed { bits: 8 }, 1);
        let at = b.constant(Class::Address, 1);
        let sum = b.binary(Binary::Add, byte, at);
        b.ret(&[sum])
    });
    assert_eq!(
        validate(&program).unwrap_err(),
        "main: Fixed { bits: 8 } and Address in one operation"
    );

    let (mut program, main) = Program::new("start");
    program.define(main, |b, _| {
        let word = b.constant(Class::Word, 1);
        b.ret(&[word, word])
    });
    assert_eq!(
        validate(&program).unwrap_err(),
        "start returns [Word] but leaves with [Word, Word]"
    );
}

#[test]
fn a_disagreement_inside_a_loop_is_found() {
    let (mut program, main) = Program::new("main");
    program.define(main, |b, _| {
        let start = b.constant(Class::Word, 1);
        b.loop_(&[start], &[], |b, params| {
            let byte = b.constant(Class::Fixed { bits: 8 }, 1);
            b.if_(
                params[0],
                &[],
                |b| b.break_(&[]),
                |b| {
                    b.binary(Binary::Sub, params[0], byte);
                    b.continue_(&[params[0]])
                },
            );
            faun::ir::Terminator::unreachable()
        });
        b.ret(&[start])
    });
    assert_eq!(
        validate(&program).unwrap_err(),
        "main: Word and Fixed { bits: 8 } in one operation"
    );
}

#[test]
fn a_constant_wraps_at_its_class() {
    assert_eq!(wrap(Class::Fixed { bits: 8 }, 0x1FF), 0xFF);
    assert_eq!(wrap(Class::Fixed { bits: 0 }, 7), 0);
    assert_eq!(wrap(Class::Fixed { bits: 63 }, u64::MAX), u64::MAX / 2);
    assert_eq!(wrap(Class::Fixed { bits: 64 }, u64::MAX), u64::MAX);
    assert_eq!(wrap(Class::Word, u64::MAX), u64::MAX);
}

#[test]
fn a_signed_constant_is_a_spelling() {
    let (mut program, main) = Program::new("main");
    program.define(main, |b, _| {
        b.constant_signed(Class::Word, -1);
        b.constant(Class::Word, u64::MAX);
        b.constant_signed(Class::Fixed { bits: 8 }, -1);
        let status = b.constant_signed(Class::Word, 5);
        b.ret(&[status])
    });
    let body = program.functions()[0].body;
    assert_eq!(program.ops(body)[0], program.ops(body)[1]);
    assert_eq!(
        program.ops(body)[2],
        Op::Constant { class: Class::Fixed { bits: 8 }, value: 255 }
    );
    assert_eq!(program.ops(body)[3], Op::Constant { class: Class::Word, value: 5 });
}

#[test]
fn a_name_has_one_symbol() {
    let (mut program, main) = Program::new("main");
    let first = program.symbol("twice");
    let second = program.symbol("other");
    assert_eq!(program.symbol("twice"), first);
    assert_ne!(first, second);
    assert_eq!(program.name(first), "twice");
    assert_eq!(program.symbol("main"), program.functions()[main.index()].name);
}

#[test]
fn data_lie_end_to_end_in_two_regions() {
    let (mut program, _) = Program::new("main");
    let first = program.intern(b"abc");
    let second = program.global(&[0, 0]);
    let third = program.intern(b"de");
    assert_eq!(program.data(), b"abcde");
    assert_eq!(program.globals(), [0, 0]);
    assert_eq!(program.datum(first).start, 0);
    assert_eq!(program.datum(second).origin, Origin::Globals);
    assert_eq!((program.datum(third).start, program.datum(third).len), (3, 2));
}

#[test]
fn a_walk_pairs_instructions_with_what_they_define() {
    let (mut program, main) = Program::new("main");
    program.define(main, |b, _| {
        let one = b.constant(Class::Word, 1);
        let two = b.binary(Binary::Add, one, one);
        b.ret(&[two])
    });
    let body = program.functions()[0].body;
    let steps = program.walk(body);
    assert_eq!(steps.len(), 2);
    assert_eq!(steps[0].1, [faun::ir::ValueId(0)]);
    assert_eq!(steps[1].1, [faun::ir::ValueId(1)]);
    assert_eq!(program.values(program.region(body).terminator.values), steps[1].1);
    assert_eq!(program.class(steps[1].1[0]), Class::Word);
    assert_eq!(program.values_count(), 2);
}

/// Whatever is called later, what there was stays: names, data, the entry, what
/// a function runs, and the classes of its values.
#[test]
fn what_there_was_stays() {
    let (mut program, main) = Program::new("main");
    let symbol = program.symbol("kept");
    let datum = program.intern(b"abc");
    program.define(main, |b, _| {
        let one = b.constant(Class::Fixed { bits: 8 }, 1);
        let two = b.binary(Binary::Add, one, one);
        let word = b.convert(Class::Word, two);
        b.ret(&[word])
    });
    let body = program.functions()[0].body;
    let ops = program.ops(body).to_vec();

    program.global(&[9]);
    program.symbol("keptlonger");
    program.symbol("");
    program.platform("write", &[Class::Address, Class::Word], &[]);
    let other = program.declare("other", &[Class::Word], &[Class::Word]);
    program.define(other, |b, params| b.ret(&[params[0]]));
    program.intern(b"de");

    assert_eq!(program.entry(), main);
    assert_eq!(program.name(program.functions()[0].name), "main");
    assert_eq!(program.name(symbol), "kept");
    assert_eq!(program.symbol("kept"), symbol);
    assert_ne!(program.symbol("keptlonger"), symbol);
    let span = program.datum(datum);
    assert_eq!(
        program.data()[span.start as usize..][..span.len as usize],
        *b"abc"
    );
    assert_eq!(program.ops(body), ops);
    let steps = program.walk(body);
    assert_eq!(steps.len(), 3);
    assert_eq!(program.class(steps[0].1[0]), Class::Fixed { bits: 8 });
    assert_eq!(program.class(steps[1].1[0]), Class::Fixed { bits: 8 });
    assert_eq!(program.class(steps[2].1[0]), Class::Word);
}
