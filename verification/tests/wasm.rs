use faun::ir::{Binary, Builder, Class, Program, Relation, Terminator};
use faun::targets::wasm32_wasi::lower::{lower, IOVECS};
use faun::targets::wasm32_wasi::module::{
    pages, CODE, DATA, EXPORT, FUNCTION, IMPORT, MEMORY, TYPE,
};
use faun::targets::wasm32_wasi::Code;
use faun::targets::Target;

fn entry(build: impl FnOnce(&mut Builder) -> Terminator) -> Program {
    let (mut program, main) = Program::new("main");
    program.define(main, |b, _| build(b));
    program
}

fn imports(code: &Code) -> Vec<&'static str> {
    code.imports.iter().map(|import| import.name()).collect()
}

fn hello() -> Vec<u8> {
    faun::compile(Target::Wasm32Wasi, &faun::hello_world()).pop().unwrap().bytes
}

#[test]
fn hello_world_needs_no_exit_call() {
    let code = lower(&faun::hello_world());
    assert_eq!(imports(&code), ["fd_write"], "no proc_exit");
    assert_eq!(code.bodies[0].locals, 0, "constants need no locals");

    let expected: &[u8] = &[
        0x41, 0x01, // i32.const 1   (stdout)
        0x41, 0x08, // i32.const 8   (the one ciovec)
        0x41, 0x01, // i32.const 1   (vector count)
        0x41, 0x00, // i32.const 0   (where the byte count goes)
        0x10, 0x00, // call 0        (fd_write)
        0x1A, // drop
    ];
    assert_eq!(code.bodies[0].code, expected);
}

#[test]
fn the_vector_points_at_the_message() {
    let code = lower(&faun::hello_world());
    assert_eq!(code.data[0].offset, IOVECS);
    // Base 16 is the first byte past the vector itself, length 14.
    assert_eq!(code.data[0].bytes, [16, 0, 0, 0, 14, 0, 0, 0]);
    assert_eq!(code.data[1].bytes, b"Hello, World!\n");
}

#[test]
fn a_nonzero_status_has_to_be_called_in() {
    let program = entry(|b| {
        let status = b.constant(Class::Word, 3);
        b.ret(&[status])
    });
    let code = lower(&program);
    assert_eq!(imports(&code), ["proc_exit"]);
    // The only import, so `proc_exit` is function zero.
    assert_eq!(code.bodies[0].code, [0x41, 0x03, 0x10, 0x00]);
}

/// Structured control flow goes out as it came in: a `loop` inside a
/// `block`, with `br 0` going round and `br 1` leaving.
#[test]
fn a_loop_is_a_loop() {
    let program = entry(|b| {
        let start = b.constant(Class::Word, 1);
        b.loop_(&[start], &[], |b, params| {
            let zero = b.constant(Class::Word, 0);
            let done = b.compare(Relation::Equal, params[0], zero);
            b.if_(
                done,
                &[],
                |b| b.break_(&[]),
                |b| {
                    let one = b.constant(Class::Word, 1);
                    let next = b.binary(Binary::Sub, params[0], one);
                    b.continue_(&[next])
                },
            );
            Terminator::unreachable()
        });
        Terminator::unreachable()
    });

    let body = lower(&program).bodies[0].code.clone();
    assert!(body.starts_with(&[
        0x41, 0x01, // i32.const 1
        0x21, 0x00, // local.set 0   (the loop parameter)
        0x02, 0x40, // block
        0x03, 0x40, // loop
    ]));
    // Both branches sit inside the `if`, so label 0 is the if itself:
    // `br 1` goes round the loop and `br 2` leaves the block.
    assert!(body.windows(2).any(|w| w == [0x0C, 0x01]), "continue");
    assert!(body.windows(2).any(|w| w == [0x0C, 0x02]), "break");
}

#[test]
fn it_starts_with_the_wasm_preamble() {
    assert_eq!(&hello()[..8], b"\0asm\x01\0\0\0");
}

#[test]
fn sections_are_in_ascending_order() {
    let module = hello();
    let (mut ids, mut at) = (Vec::new(), 8);
    while at < module.len() {
        ids.push(module[at]);
        assert!(module[at + 1] < 0x80, "section {} is too long to skip", ids.len());
        at += 2 + usize::from(module[at + 1]);
    }
    assert_eq!(ids, [TYPE, IMPORT, FUNCTION, MEMORY, EXPORT, CODE, DATA]);
}

#[test]
fn one_page_holds_a_greeting() {
    assert_eq!(pages(&lower(&faun::hello_world())), 1);
}

#[test]
fn a_big_datum_takes_more_pages() {
    let (mut program, main) = Program::new("main");
    let data = program.intern(&vec![1; 65_536]);
    program.define(main, |b, _| {
        b.address_of(data);
        let status = b.constant(Class::Word, 0);
        b.ret(&[status])
    });
    assert_eq!(pages(&lower(&program)), 2);
}

#[test]
fn the_recorded_sizes_of_two_programs() {
    assert_eq!(hello().len(), 141);

    let program = entry(|b| {
        let two = b.constant(Class::Word, 2);
        let sum = b.binary(Binary::Add, two, two);
        b.ret(&[sum])
    });
    assert_eq!(faun::compile(Target::Wasm32Wasi, &program)[0].bytes.len(), 105);
}

#[test]
fn what_this_machine_lacks_is_refused() {
    let wide = entry(|b| {
        let big = b.constant(Class::Word, 1 << 32);
        b.ret(&[big])
    });
    assert!(!Target::Wasm32Wasi.accepts(&wide));

    let (mut unknown, main) = Program::new("main");
    let sing = unknown.platform("sing", &[], &[]);
    unknown.define(main, |b, _| {
        b.platform_call(sing, &[]);
        let status = b.constant(Class::Word, 0);
        b.ret(&[status])
    });
    for target in Target::all() {
        assert!(!target.accepts(&unknown), "{}", target.name());
        assert_eq!(target.lacks(&unknown), Some("sing".to_owned()));
        assert_eq!(target.lacks(&faun::hello_world()), None);
        assert_eq!(target.lacks(&wide), None);
    }
}
