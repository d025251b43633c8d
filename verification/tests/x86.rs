use faun::ir::{Binary, Class, FunctionId, Program, Terminator};
use faun::targets::x86_64_linux::elf::{EHDR_LEN, LOAD_ADDR, PHDR_LEN};
use faun::targets::x86_64_linux::encode::{Encoder, Reg};
use faun::targets::x86_64_linux::lower::{lower, Plan};
use faun::targets::Target;

fn encoded(build: impl FnOnce(&mut Encoder)) -> Vec<u8> {
    let mut encoder = Encoder::default();
    build(&mut encoder);
    encoder.finish()
}

fn hello() -> Vec<u8> {
    faun::compile(Target::X86_64Linux, &faun::hello_world()).pop().unwrap().bytes
}

#[test]
fn each_form_encodes_to_its_documented_bytes() {
    assert_eq!(encoded(|a| a.xor_self(Reg::Rdi)), [0x31, 0xFF]);
    assert_eq!(encoded(|a| a.pop(Reg::Rdx)), [0x5A]);
    assert_eq!(encoded(|a| a.push_imm8(-5)), [0x6A, 0xFB]);
    assert_eq!(encoded(|a| a.mov_reg(Reg::Rdi, Reg::Rax, false)), [0x89, 0xC7]);
    assert_eq!(encoded(|a| a.mov_reg(Reg::Rdx, Reg::Rax, true)), [0x48, 0x89, 0xC2]);
    assert_eq!(
        encoded(|a| a.mov_sext_imm32(Reg::Rdi, -1)),
        [0x48, 0xC7, 0xC7, 0xFF, 0xFF, 0xFF, 0xFF]
    );
    assert_eq!(
        encoded(|a| a.mov_imm64(Reg::Rdx, 0x7FFF_FFFF_FFFF_FFFF)),
        [0x48, 0xBA, 0xFF, 0xFF, 0xFF, 0xFF, 0xFF, 0xFF, 0xFF, 0x7F]
    );
}

#[test]
fn high_registers_carry_rex_b() {
    assert_eq!(encoded(|a| a.pop(Reg::R11)), [0x41, 0x5B]);
    assert_eq!(encoded(|a| a.xor_self(Reg::R11)), [0x45, 0x31, 0xDB]);
}

#[test]
fn a_patched_jump_counts_from_its_end() {
    let mut encoder = Encoder::default();
    let hole = encoder.jump();
    encoder.syscall();
    assert!(encoder.patch(hole, 0));
    assert_eq!(encoder.finish(), [0xE9, 0xFB, 0xFF, 0xFF, 0xFF, 0x0F, 0x05]);
}

#[test]
fn the_header_describes_a_loadable_executable() {
    let image = hello();

    assert_eq!(&image[..4], b"\x7FELF");
    assert_eq!(&image[16..18], &2u16.to_le_bytes()); // ET_EXEC
    assert_eq!(&image[18..20], &0x3Eu16.to_le_bytes()); // EM_X86_64
    assert_eq!(&image[54..56], &56u16.to_le_bytes()); // e_phentsize
    assert_eq!(&image[56..58], &1u16.to_le_bytes()); // e_phnum

    // The segment covers the file exactly, so no byte is wasted.
    let filesz = u64::from_le_bytes(image[96..104].try_into().unwrap());
    assert_eq!(usize::try_from(filesz).unwrap(), image.len());
}

/// `lea rsi, [rip + d]` has its displacement eight bytes into the code, and
/// it leads from its own end to the message placed after the code.
#[test]
fn the_message_is_as_far_away_as_the_code_says() {
    let image = hello();

    let entry = u64::from_le_bytes(image[24..32].try_into().unwrap());
    assert_eq!(entry, u64::from(LOAD_ADDR) + u64::from(EHDR_LEN + PHDR_LEN));

    let text = usize::from(EHDR_LEN + PHDR_LEN);
    let away = i32::from_le_bytes(image[text + 8..text + 12].try_into().unwrap());
    let offset = text + 12 + usize::try_from(away).unwrap();
    assert_eq!(&image[offset..], b"Hello, World!\n");
}

#[test]
fn hello_world_uses_the_short_encodings() {
    let code = lower(&faun::hello_world());
    let expected: &[u8] = &[
        0x6A, 0x01, // push 1
        0x58, // pop rax          (sys_write)
        0x89, 0xC7, // mov edi, eax     (stdout, rax is already 1)
        0x48, 0x8D, 0x35, // lea rsi, [rip+d] (the message,
        0x00, 0x00, 0x00, 0x00, //                   distance filled in later)
        0x6A, 0x0E, // push 14
        0x5A, // pop rdx          (message length)
        0x0F, 0x05, // syscall
        0x6A, 0x3C, // push 60
        0x58, // pop rax          (sys_exit)
        0x31, 0xFF, // xor edi, edi     (status 0)
        0x0F, 0x05, // syscall
    ];
    assert_eq!(code.bytes, expected);
    assert_eq!(code.relocs.len(), 1);
    assert_eq!(code.relocs[0].offset, 8);
}

/// A program of nothing but constants needs no frame, which is what keeps
/// hello world at the size it is.
#[test]
fn constants_never_reach_the_stack() {
    assert_eq!(Plan::new(&faun::hello_world(), FunctionId(0)).frame(), Some(0));
}

#[test]
fn a_loop_jumps_backwards_to_its_own_head() {
    let (mut program, main) = Program::new("main");
    program.define(main, |b, _| {
        let start = b.constant(Class::Word, 1);
        b.loop_(&[start], &[], |b, params| {
            let one = b.constant(Class::Word, 1);
            let next = b.binary(Binary::Sub, params[0], one);
            b.continue_(&[next])
        });
        Terminator::unreachable()
    });

    let bytes = lower(&program).bytes;
    // The last five bytes are `jmp rel32` back to the loop head, which is
    // behind us, so the displacement is negative.
    let (jump, displacement) = bytes.split_at(bytes.len() - 4);
    assert_eq!(jump.last(), Some(&0xE9));
    let displacement = i32::from_le_bytes(displacement.try_into().unwrap());
    assert!(displacement < 0, "a loop must branch backwards");
}

#[test]
fn a_syscall_invalidates_the_registers_it_clobbers() {
    let (mut program, main) = Program::new("main");
    let data = program.intern(b"x".as_slice());
    let write = program.platform("write", &[Class::Address, Class::Word], &[]);
    let exit = program.platform("exit", &[Class::Word], &[]);
    program.define(main, |b, _| {
        let buf = b.address_of(data);
        let len = b.constant(Class::Word, 1);
        b.platform_call(write, &[buf, len]);
        // Exit with the status stdout had, so the two registers that both
        // held 1 across the syscall can be told apart.
        let status = b.constant(Class::Word, 1);
        b.platform_call(exit, &[status]);
        Terminator::unreachable()
    });

    let bytes = lower(&program).bytes;
    assert!(bytes.ends_with(&[
        0x6A, 0x3C, 0x58, // push 60; pop rax -- the syscall destroyed rax
        0x0F, 0x05, //       nothing for rdi  -- it survived still holding 1
    ]));
}

#[test]
fn a_constant_takes_the_shortest_form_there_is() {
    let (mut program, main) = Program::new("main");
    let exit = program.platform("exit", &[Class::Word], &[]);
    program.define(main, |b, _| {
        for value in [0, 5, 200, u64::MAX, u64::MAX - 200, 1 << 40] {
            let status = b.constant(Class::Word, value);
            b.platform_call(exit, &[status]);
        }
        Terminator::unreachable()
    });
    let code = lower(&program).bytes;
    let mut expected = Vec::new();
    for load in [
        vec![0x31, 0xFF],
        vec![0x6A, 0x05, 0x5F],
        vec![0xBF, 0xC8, 0, 0, 0],
        vec![0x6A, 0xFF, 0x5F],
        vec![0x48, 0xC7, 0xC7, 0x37, 0xFF, 0xFF, 0xFF],
        vec![0x48, 0xBF, 0, 0, 0, 0, 0, 1, 0, 0],
    ] {
        expected.extend([0x6A, 0x3C, 0x58]);
        expected.extend(load);
        expected.extend([0x0F, 0x05]);
    }
    assert_eq!(code, expected);
}

#[test]
fn the_recorded_sizes_of_the_smallest_executables() {
    let (mut program, main) = Program::new("main");
    program.define(main, |b, _| {
        let status = b.constant(Class::Word, 0);
        b.ret(&[status])
    });
    // 120 bytes of header, then `push 60; pop rax; xor edi, edi; syscall`.
    assert_eq!(faun::compile(Target::X86_64Linux, &program)[0].bytes.len(), 127);
    assert_eq!(hello().len(), 158);
}
