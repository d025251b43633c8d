//! Compile for each target, then actually run the result, on a small model
//! of each machine.

use std::collections::HashMap;

use faun::ir::Class::Word;
use faun::ir::{Binary, Class, Offset, Program, Relation, Width};
use faun::targets::Target;

/// What a program left with, and what it printed on the way.
struct Outcome {
    status: u64,
    output: Vec<u8>,
}

/// More steps than any program here takes.
const PATIENCE: usize = 2_000_000;

fn le(bytes: &[u8], at: usize, count: usize) -> u64 {
    (0..count).fold(0, |sum, i| sum | u64::from(bytes[at + i]) << (8 * i))
}

// x86-64: the instructions a program of ours is made of, and three system
// calls.

const STACK: usize = 0x20_0000;
const BREAK: u64 = 0x30_0000;

struct X86 {
    memory: Vec<u8>,
    regs: [u64; 16],
    zero: bool,
    carry: bool,
    at: usize,
    heap: u64,
    output: Vec<u8>,
}

impl X86 {
    fn load(file: &[u8]) -> Self {
        let mut memory = vec![0; 0x40_0000];
        let base = usize::try_from(le(file, 80, 8)).unwrap();
        memory[base..base + file.len()].copy_from_slice(file);
        let mut regs = [0; 16];
        regs[4] = u64::try_from(STACK).unwrap();
        Self {
            memory,
            regs,
            zero: false,
            carry: false,
            at: usize::try_from(le(file, 24, 8)).unwrap(),
            heap: BREAK,
            output: Vec::new(),
        }
    }

    fn byte(&mut self) -> u8 {
        self.at += 1;
        self.memory[self.at - 1]
    }

    fn imm32(&mut self) -> u64 {
        self.at += 4;
        let low = u32::try_from(le(&self.memory, self.at - 4, 4)).unwrap();
        i64::from(low.cast_signed()).cast_unsigned()
    }

    fn read(&self, at: u64) -> u64 {
        le(&self.memory, usize::try_from(at).unwrap(), 8)
    }

    fn write(&mut self, at: u64, value: u64) {
        let at = usize::try_from(at).unwrap();
        self.memory[at..at + 8].copy_from_slice(&value.to_le_bytes());
    }

    fn push(&mut self, value: u64) {
        self.regs[4] -= 8;
        self.write(self.regs[4], value);
    }

    fn pop(&mut self) -> u64 {
        self.regs[4] += 8;
        self.read(self.regs[4] - 8)
    }

    /// The register a `ModRM` byte names, and the address it does, where it
    /// does not name a second register.
    fn operands(&mut self, rex: u8) -> (usize, Result<usize, u64>) {
        let modrm = self.byte();
        let reg = usize::from((modrm >> 3 & 7) | (rex & 4) << 1);
        let rm = usize::from((modrm & 7) | (rex & 1) << 3);
        match (modrm >> 6, modrm & 7) {
            (3, _) => (reg, Ok(rm)),
            (0, 5) => {
                let away = self.imm32();
                (reg, Err(u64::try_from(self.at).unwrap().wrapping_add(away)))
            }
            (2, 4) => {
                assert_eq!(self.byte(), 0x24);
                let away = self.imm32();
                (reg, Err(self.regs[4].wrapping_add(away)))
            }
            (2, _) => {
                let away = self.imm32();
                (reg, Err(self.regs[rm].wrapping_add(away)))
            }
            other => panic!("operands {other:?}"),
        }
    }

    fn holds(&self, cc: u8) -> bool {
        match cc {
            2 => self.carry,
            4 => self.zero,
            other => panic!("condition {other}"),
        }
    }

    fn keep(&mut self, reg: usize, wide: bool, value: u64) {
        self.regs[reg] = if wide { value } else { value & 0xFFFF_FFFF };
    }

    /// One instruction, and the status where it was the last.
    fn step(&mut self) -> Option<u64> {
        let mut opcode = self.byte();
        let mut rex = 0;
        if opcode >> 4 == 4 {
            rex = opcode & 15;
            opcode = self.byte();
        }
        let wide = rex & 8 != 0;
        match opcode {
            0x01 | 0x21 | 0x29 | 0x31 | 0x39 | 0x85 => {
                let (reg, Ok(rm)) = self.operands(rex) else {
                    panic!("a memory operand")
                };
                let (left, right) = (self.regs[rm], self.regs[reg]);
                let value = match opcode {
                    0x01 => left.wrapping_add(right),
                    0x21 | 0x85 => left & right,
                    0x31 => left ^ right,
                    _ => left.wrapping_sub(right),
                };
                self.zero = value == 0;
                self.carry = left < right;
                if opcode != 0x39 && opcode != 0x85 {
                    self.keep(rm, wide, value);
                }
            }
            0x58..=0x5F => {
                let reg = usize::from((opcode & 7) | (rex & 1) << 3);
                self.regs[reg] = self.pop();
            }
            0x6A => {
                let value = i64::from(self.byte().cast_signed()).cast_unsigned();
                self.push(value);
            }
            0x81 => {
                let modrm = self.byte();
                let size = self.imm32();
                self.regs[4] = match modrm {
                    0xEC => self.regs[4].wrapping_sub(size),
                    0xC4 => self.regs[4].wrapping_add(size),
                    other => panic!("frame {other:x}"),
                };
            }
            0x88 => {
                let (reg, Err(at)) = self.operands(rex) else {
                    panic!("a register operand")
                };
                self.memory[usize::try_from(at).unwrap()] = self.regs[reg].to_le_bytes()[0];
            }
            0x89 => {
                let (reg, rm) = self.operands(rex);
                let value = self.regs[reg];
                match rm {
                    Ok(rm) => self.keep(rm, wide, value),
                    Err(at) => self.write(at, value),
                }
            }
            0x8B => {
                let (reg, Err(at)) = self.operands(rex) else {
                    panic!("a register operand")
                };
                self.regs[reg] = self.read(at);
            }
            0x8D => {
                let (reg, Err(at)) = self.operands(rex) else {
                    panic!("a register operand")
                };
                assert!(wide, "an address is 64 bits");
                self.regs[reg] = at;
            }
            0xB8..=0xBF => {
                let reg = usize::from((opcode & 7) | (rex & 1) << 3);
                if wide {
                    self.at += 8;
                    self.regs[reg] = le(&self.memory, self.at - 8, 8);
                } else {
                    self.at += 4;
                    self.regs[reg] = le(&self.memory, self.at - 4, 4);
                }
            }
            0xC3 => self.at = usize::try_from(self.pop()).unwrap(),
            0xC7 => {
                let modrm = self.byte();
                let reg = usize::from((modrm & 7) | (rex & 1) << 3);
                let value = self.imm32();
                self.keep(reg, wide, value);
            }
            0xE8 | 0xE9 => {
                let away = self.imm32();
                let here = u64::try_from(self.at).unwrap();
                if opcode == 0xE8 {
                    self.push(here);
                }
                self.at = usize::try_from(here.wrapping_add(away)).unwrap();
            }
            0x0F => return self.long(rex),
            other => panic!("opcode {other:x}"),
        }
        None
    }

    /// The two-byte opcodes.
    fn long(&mut self, rex: u8) -> Option<u64> {
        match self.byte() {
            0x05 => return self.system(),
            0xB6 => match self.operands(rex) {
                (reg, Ok(rm)) => self.regs[reg] = self.regs[rm] & 0xFF,
                (reg, Err(at)) => {
                    self.regs[reg] = u64::from(self.memory[usize::try_from(at).unwrap()]);
                }
            },
            set @ 0x90..=0x9F => {
                let (_, Ok(rm)) = self.operands(rex) else {
                    panic!("a memory operand")
                };
                self.regs[rm] = self.regs[rm] & !0xFF | u64::from(self.holds(set & 15));
            }
            jump @ 0x80..=0x8F => {
                let away = self.imm32();
                if self.holds(jump & 15) {
                    let here = u64::try_from(self.at).unwrap();
                    self.at = usize::try_from(here.wrapping_add(away)).unwrap();
                }
            }
            other => panic!("opcode 0f {other:x}"),
        }
        None
    }

    fn system(&mut self) -> Option<u64> {
        match self.regs[0] {
            1 => {
                assert_eq!(self.regs[7], 1, "standard output");
                let from = usize::try_from(self.regs[6]).unwrap();
                let count = usize::try_from(self.regs[2]).unwrap();
                let text = self.memory[from..from + count].to_vec();
                self.output.extend(text);
                self.regs[0] = self.regs[2];
            }
            12 => {
                if self.regs[7] >= BREAK {
                    self.heap = self.regs[7];
                }
                self.regs[0] = self.heap;
            }
            60 => return Some(self.regs[7] & 0xFF),
            other => panic!("system call {other}"),
        }
        // What the kernel leaves in these is nobody's business.
        self.regs[1] = 0xDEAD;
        self.regs[11] = 0xBEEF;
        None
    }
}

fn run_x86(file: &[u8]) -> Outcome {
    let mut machine = X86::load(file);
    for _ in 0..PATIENCE {
        if let Some(status) = machine.step() {
            return Outcome { status, output: machine.output };
        }
    }
    panic!("the program went on too long");
}

// 6502: the instructions a program of ours is made of, and the simulator's
// two hooks.

struct Mos {
    memory: Vec<u8>,
    a: u8,
    x: u8,
    y: u8,
    stack: u8,
    zero: bool,
    carry: bool,
    at: u16,
    arguments: u8,
    output: Vec<u8>,
}

impl Mos {
    fn load(file: &[u8]) -> Self {
        assert_eq!(&file[..5], b"sim65");
        let mut memory = vec![0xEA; 0x1_0000];
        let base = usize::try_from(le(file, 8, 2)).unwrap();
        memory[base..base + file.len() - 12].copy_from_slice(&file[12..]);
        Self {
            memory,
            a: 0,
            x: 0,
            y: 0,
            stack: 0,
            zero: false,
            carry: false,
            at: u16::try_from(le(file, 10, 2)).unwrap(),
            arguments: file[7],
            output: Vec::new(),
        }
    }

    fn byte(&mut self) -> u8 {
        self.at += 1;
        self.memory[usize::from(self.at - 1)]
    }

    fn word(&mut self) -> u16 {
        u16::from_le_bytes([self.byte(), self.byte()])
    }

    fn zp(&mut self) -> usize {
        usize::from(self.byte())
    }

    fn pair(&self, at: usize) -> u16 {
        u16::from_le_bytes([self.memory[at], self.memory[at + 1]])
    }

    fn indirect(&mut self) -> usize {
        let pair = self.zp();
        usize::from(self.pair(pair).wrapping_add(u16::from(self.y)))
    }

    fn give_a(&mut self, value: u8) {
        self.a = value;
        self.zero = value == 0;
    }

    fn add(&mut self, value: u8) {
        let sum = u16::from(self.a) + u16::from(value) + u16::from(self.carry);
        self.carry = sum > 0xFF;
        self.give_a(sum.to_le_bytes()[0]);
    }

    fn compare(&mut self, value: u8) {
        self.carry = self.a >= value;
        self.zero = self.a == value;
    }

    fn push(&mut self, value: u8) {
        self.memory[0x100 + usize::from(self.stack)] = value;
        self.stack = self.stack.wrapping_sub(1);
    }

    fn pop(&mut self) -> u8 {
        self.stack = self.stack.wrapping_add(1);
        self.memory[0x100 + usize::from(self.stack)]
    }

    fn back(&mut self) {
        let at = u16::from_le_bytes([self.pop(), self.pop()]);
        self.at = at.wrapping_add(1);
    }

    /// A word off the stack the hooks take their arguments on.
    fn argument(&mut self) -> u16 {
        let pair = usize::from(self.arguments);
        let top = self.pair(pair);
        let value = self.pair(usize::from(top));
        self.memory[pair..pair + 2].copy_from_slice(&top.wrapping_add(2).to_le_bytes());
        value
    }

    fn branch(&mut self, taken: bool) {
        let away = i16::from(self.byte().cast_signed());
        if taken {
            self.at = self.at.wrapping_add_signed(away);
        }
    }

    /// One instruction, and the status where it was the last.
    fn step(&mut self) -> Option<u64> {
        match self.at {
            0xFFF7 => {
                let count = usize::from(u16::from_le_bytes([self.a, self.x]));
                let from = usize::from(self.argument());
                assert_eq!(self.argument(), 1, "standard output");
                let text = self.memory[from..from + count].to_vec();
                self.output.extend(text);
                self.back();
                return None;
            }
            0xFFF9 => return Some(u64::from(self.a)),
            _ => {}
        }
        match self.byte() {
            0x05 => {
                let at = self.zp();
                self.give_a(self.a | self.memory[at]);
            }
            0x18 => self.carry = false,
            0x20 => {
                let to = self.word();
                let [low, high] = (self.at - 1).to_le_bytes();
                self.push(high);
                self.push(low);
                self.at = to;
            }
            0x29 => {
                let value = self.byte();
                self.give_a(self.a & value);
            }
            0x38 => self.carry = true,
            0x4C => self.at = self.word(),
            0x60 => self.back(),
            0x65 => {
                let at = self.zp();
                self.add(self.memory[at]);
            }
            0x69 => {
                let value = self.byte();
                self.add(value);
            }
            0x85 => {
                let at = self.zp();
                self.memory[at] = self.a;
            }
            0x90 => self.branch(!self.carry),
            0x91 => {
                let at = self.indirect();
                self.memory[at] = self.a;
            }
            0x9A => self.stack = self.x,
            0xA0 => self.y = self.byte(),
            0xA2 => self.x = self.byte(),
            0xA5 => {
                let at = self.zp();
                self.give_a(self.memory[at]);
            }
            0xA6 => {
                let at = self.zp();
                self.x = self.memory[at];
            }
            0xA9 => {
                let value = self.byte();
                self.give_a(value);
            }
            0xB0 => self.branch(self.carry),
            0xB1 => {
                let at = self.indirect();
                self.give_a(self.memory[at]);
            }
            0xC5 => {
                let at = self.zp();
                self.compare(self.memory[at]);
            }
            0xC8 => self.y = self.y.wrapping_add(1),
            0xD0 => self.branch(!self.zero),
            0xE5 => {
                let at = self.zp();
                self.add(!self.memory[at]);
            }
            0xE9 => {
                let value = self.byte();
                self.add(!value);
            }
            0xF0 => self.branch(self.zero),
            other => panic!("opcode {other:x}"),
        }
        None
    }
}

fn run_mos(file: &[u8]) -> Outcome {
    let mut machine = Mos::load(file);
    for _ in 0..PATIENCE {
        if let Some(status) = machine.step() {
            return Outcome { status, output: machine.output };
        }
    }
    panic!("the program went on too long");
}

// wasm: the sections and instructions a module of ours is made of, and two
// WASI functions.

struct Reader<'a> {
    bytes: &'a [u8],
    at: usize,
}

impl<'a> Reader<'a> {
    fn byte(&mut self) -> u8 {
        self.at += 1;
        self.bytes[self.at - 1]
    }

    fn uleb(&mut self) -> usize {
        let (mut value, mut shift) = (0, 0);
        loop {
            let byte = self.byte();
            value |= usize::from(byte & 0x7F) << shift;
            shift += 7;
            if byte < 0x80 {
                return value;
            }
        }
    }

    fn sleb(&mut self) -> u32 {
        let (mut value, mut shift) = (0i64, 0);
        loop {
            let byte = self.byte();
            value |= i64::from(byte & 0x7F) << shift;
            shift += 7;
            if byte < 0x80 {
                if byte & 0x40 != 0 {
                    value -= 1 << shift;
                }
                return i32::try_from(value).unwrap().cast_unsigned();
            }
        }
    }

    fn sized(&mut self) -> &'a [u8] {
        let count = self.uleb();
        self.at += count;
        &self.bytes[self.at - count..self.at]
    }
}

struct Wasm<'a> {
    /// Parameters and results, by type.
    types: Vec<(usize, usize)>,
    imports: Vec<&'a [u8]>,
    /// The type of each function, imports first.
    functions: Vec<usize>,
    bodies: Vec<&'a [u8]>,
    start: usize,
    memory: Vec<u8>,
    output: Vec<u8>,
    fuel: usize,
}

/// How a run of instructions ended.
enum Ending {
    /// At its `end`, or at the `else` it holds.
    Through,
    /// Leaving as many labels as are counted, and one more.
    Branch(usize),
    Return,
    Exit(u32),
}

impl<'a> Wasm<'a> {
    fn load(file: &'a [u8]) -> Self {
        assert_eq!(&file[..8], b"\0asm\x01\0\0\0");
        let mut module = Self {
            types: Vec::new(),
            imports: Vec::new(),
            functions: Vec::new(),
            bodies: Vec::new(),
            start: usize::MAX,
            memory: Vec::new(),
            output: Vec::new(),
            fuel: PATIENCE,
        };
        let mut sections: HashMap<u8, &[u8]> = HashMap::new();
        let mut r = Reader { bytes: file, at: 8 };
        while r.at < file.len() {
            let id = r.byte();
            sections.insert(id, r.sized());
        }
        let section = |id| Reader { bytes: sections.get(&id).copied().unwrap_or(&[0]), at: 0 };

        let mut r = section(1);
        for _ in 0..r.uleb() {
            assert_eq!(r.byte(), 0x60);
            let params = r.sized().len();
            let results = r.sized().len();
            module.types.push((params, results));
        }
        let mut r = section(2);
        for _ in 0..r.uleb() {
            assert_eq!(r.sized(), b"wasi_snapshot_preview1");
            module.imports.push(r.sized());
            assert_eq!(r.byte(), 0);
            module.functions.push(r.uleb());
        }
        let mut r = section(3);
        for _ in 0..r.uleb() {
            module.functions.push(r.uleb());
        }
        let mut r = section(5);
        for _ in 0..r.uleb() {
            assert_eq!(r.byte(), 0);
            module.memory = vec![0; 65_536 * r.uleb()];
        }
        let mut r = section(7);
        for _ in 0..r.uleb() {
            let name = r.sized();
            let kind = r.byte();
            let index = r.uleb();
            if name == b"_start" {
                assert_eq!(kind, 0);
                module.start = index;
            }
        }
        let mut r = section(10);
        for _ in 0..r.uleb() {
            module.bodies.push(r.sized());
        }
        let mut r = section(11);
        for _ in 0..r.uleb() {
            assert_eq!((r.uleb(), r.byte()), (0, 0x41));
            let at = usize::try_from(r.sleb()).unwrap();
            assert_eq!(r.byte(), 0x0B);
            let bytes = r.sized();
            module.memory[at..at + bytes.len()].copy_from_slice(bytes);
        }
        module
    }

    fn word(&self, at: u32) -> u32 {
        u32::try_from(le(&self.memory, usize::try_from(at).unwrap(), 4)).unwrap()
    }

    fn call(&mut self, index: usize, stack: &mut Vec<u32>) -> Ending {
        let (params, results) = self.types[self.functions[index]];
        let mut locals = stack.split_off(stack.len() - params);
        if index < self.imports.len() {
            if self.imports[index] == b"proc_exit" {
                return Ending::Exit(locals[0]);
            }
            assert_eq!(self.imports[index], b"fd_write");
            assert_eq!((locals[0], locals[2]), (1, 1));
            let from = usize::try_from(self.word(locals[1])).unwrap();
            let count = self.word(locals[1] + 4);
            let text = self.memory[from..from + usize::try_from(count).unwrap()].to_vec();
            self.output.extend(text);
            stack.push(0);
            return Ending::Through;
        }
        let body = self.bodies[index - self.imports.len()];
        let mut r = Reader { bytes: body, at: 0 };
        for _ in 0..r.uleb() {
            let count = r.uleb();
            assert_eq!(r.byte(), 0x7F);
            locals.extend(std::iter::repeat_n(0, count));
        }
        let mut own = Vec::new();
        match self.run(&mut r, &mut locals, &mut own) {
            Ending::Exit(status) => Ending::Exit(status),
            Ending::Branch(_) => panic!("a branch out of a function"),
            _ => {
                stack.extend(own.split_off(own.len() - results));
                Ending::Through
            }
        }
    }

    /// Past the matching `end`, or past the `else` before it.
    fn skip(r: &mut Reader, stop_at_else: bool) {
        let mut depth = 0;
        loop {
            match r.byte() {
                0x02 | 0x03 | 0x04 => {
                    r.byte();
                    depth += 1;
                }
                0x05 if depth == 0 && stop_at_else => return,
                0x0B if depth == 0 => return,
                0x0B => depth -= 1,
                0x0C | 0x10 | 0x20 | 0x21 | 0x40 => {
                    r.uleb();
                }
                0x28 | 0x2D | 0x36 | 0x3A => {
                    r.uleb();
                    r.uleb();
                }
                0x41 => {
                    r.sleb();
                }
                _ => {}
            }
        }
    }

    fn run(&mut self, r: &mut Reader<'a>, locals: &mut [u32], stack: &mut Vec<u32>) -> Ending {
        loop {
            self.fuel -= 1;
            match r.byte() {
                0x00 => panic!("reached what is unreachable"),
                opcode @ (0x02 | 0x03) => {
                    assert_eq!(r.byte(), 0x40);
                    let head = r.at;
                    loop {
                        match self.run(r, locals, stack) {
                            Ending::Through => break,
                            Ending::Branch(0) if opcode == 0x03 => r.at = head,
                            Ending::Branch(0) => {
                                r.at = head;
                                Self::skip(r, false);
                                break;
                            }
                            Ending::Branch(label) => return Ending::Branch(label - 1),
                            other => return other,
                        }
                    }
                }
                0x04 => {
                    assert_eq!(r.byte(), 0x40);
                    let head = r.at;
                    let ending = if stack.pop().unwrap() != 0 {
                        self.run(r, locals, stack)
                    } else {
                        Self::skip(r, true);
                        self.run(r, locals, stack)
                    };
                    match ending {
                        Ending::Through | Ending::Branch(0) => {
                            r.at = head;
                            Self::skip(r, false);
                        }
                        Ending::Branch(label) => return Ending::Branch(label - 1),
                        other => return other,
                    }
                }
                0x05 | 0x0B => return Ending::Through,
                0x0C => return Ending::Branch(r.uleb()),
                0x0F => return Ending::Return,
                0x10 => {
                    let index = r.uleb();
                    if let Ending::Exit(status) = self.call(index, stack) {
                        return Ending::Exit(status);
                    }
                }
                0x1A => {
                    stack.pop().unwrap();
                }
                0x20 => stack.push(locals[r.uleb()]),
                0x21 => locals[r.uleb()] = stack.pop().unwrap(),
                opcode @ (0x28 | 0x2D) => {
                    r.uleb();
                    let at = stack.pop().unwrap() + u32::try_from(r.uleb()).unwrap();
                    stack.push(if opcode == 0x28 {
                        self.word(at)
                    } else {
                        u32::from(self.memory[usize::try_from(at).unwrap()])
                    });
                }
                opcode @ (0x36 | 0x3A) => {
                    r.uleb();
                    let value = stack.pop().unwrap();
                    let at = usize::try_from(stack.pop().unwrap()).unwrap() + r.uleb();
                    let count = if opcode == 0x36 { 4 } else { 1 };
                    self.memory[at..at + count].copy_from_slice(&value.to_le_bytes()[..count]);
                }
                0x40 => {
                    assert_eq!(r.uleb(), 0);
                    let pages = usize::try_from(stack.pop().unwrap()).unwrap();
                    stack.push(u32::try_from(self.memory.len() / 65_536).unwrap());
                    self.memory.resize(self.memory.len() + 65_536 * pages, 0);
                }
                0x41 => stack.push(r.sleb()),
                opcode => {
                    let right = stack.pop().unwrap();
                    let left = stack.pop().unwrap();
                    stack.push(match opcode {
                        0x46 => u32::from(left == right),
                        0x49 => u32::from(left < right),
                        0x6A => left.wrapping_add(right),
                        0x6B => left.wrapping_sub(right),
                        0x71 => left & right,
                        0x74 => left << (right & 31),
                        0x76 => left >> (right & 31),
                        other => panic!("opcode {other:x}"),
                    });
                }
            }
        }
    }
}

fn run_wasm(file: &[u8]) -> Outcome {
    let mut module = Wasm::load(file);
    let mut stack = Vec::new();
    let status = match module.call(module.start, &mut stack) {
        Ending::Exit(status) => status,
        _ => 0,
    };
    assert!(stack.is_empty());
    Outcome { status: u64::from(status), output: module.output }
}

/// Compile and execute. Every program is validated first, since a class
/// disagreement is the kind of thing a target miscompiles in silence.
fn execute(target: Target, program: &Program) -> Outcome {
    faun::ir::validate(program).expect("a well-formed program");
    assert!(target.accepts(program), "{} takes the program", target.name());
    let artifacts = faun::compile(target, program);
    assert_eq!(artifacts.len(), 1);
    let file = &artifacts[0].bytes;
    match target {
        Target::X86_64Linux => run_x86(file),
        Target::Wasm32Wasi => run_wasm(file),
        Target::Mos6502Sim65 => run_mos(file),
    }
}

/// The exit status a program leaves with, which is what `main` returns.
fn status(target: Target, program: &Program) -> u64 {
    execute(target, program).status
}

/// What a program that leaves with nought printed.
fn run(target: Target, program: &Program) -> String {
    let outcome = execute(target, program);
    assert_eq!(outcome.status, 0);
    String::from_utf8(outcome.output).unwrap()
}

#[test]
fn every_target_adds_two_and_two() {
    for target in Target::all() {
        assert_eq!(status(target, &two_and_two()), 4, "{}", target.name());
    }
}

#[test]
fn the_x86_64_linux_executable_prints_hello_world() {
    let output = run(Target::X86_64Linux, &faun::hello_world());
    assert_eq!(output, "Hello, World!\n");
}

#[test]
fn the_mos6502_image_prints_hello_world() {
    let output = run(Target::Mos6502Sim65, &faun::hello_world());
    assert_eq!(output, "Hello, World!\n");
}

#[test]
fn every_target_counts_in_a_global() {
    for target in Target::all() {
        assert_eq!(status(target, &counts_in_a_global()), 3, "{}", target.name());
    }
}

#[test]
fn every_target_wraps_a_fixed_width() {
    for target in Target::all() {
        assert_eq!(status(target, &wraps_at_eight_bits()), 4, "{}", target.name());
    }
}

#[test]
fn the_mos6502_image_runs_every_program() {
    assert_eq!(status(Target::Mos6502Sim65, &empty()), 0);
    assert_eq!(status(Target::Mos6502Sim65, &less(7, 9)), 1);
    assert_eq!(status(Target::Mos6502Sim65, &less(9, 7)), 0);
    assert_eq!(status(Target::Mos6502Sim65, &calls_a_function()), 42);
    assert_eq!(status(Target::Mos6502Sim65, &recurses()), 6);
    assert_eq!(
        run(Target::Mos6502Sim65, &countdown(3)),
        "tick\n".repeat(3)
    );
    assert_eq!(status(Target::Mos6502Sim65, &uses_the_heap()), 42);
    assert_eq!(status(Target::Mos6502Sim65, &stores_a_byte()), 8);
    assert_eq!(run(Target::Mos6502Sim65, &writes_from_the_heap()), "hi\n");
    assert_eq!(status(Target::Mos6502Sim65, &values_survive_a_call()), 45);
}

#[test]
fn every_target_hands_back_what_a_call_would_destroy() {
    for target in Target::all() {
        assert_eq!(status(target, &values_survive_a_call()), 45, "{}", target.name());
    }
}

#[test]
fn every_target_writes_from_the_heap() {
    for target in Target::all() {
        assert_eq!(run(target, &writes_from_the_heap()), "hi\n", "{}", target.name());
    }
}

#[test]
fn the_wasm32_wasi_module_prints_hello_world() {
    let output = run(Target::Wasm32Wasi, &faun::hello_world());
    assert_eq!(output, "Hello, World!\n");
}

#[test]
fn the_smallest_x86_64_linux_executable_is_headers_and_an_exit() {
    // 120 bytes of header, then `push 60; pop rax; xor edi, edi; syscall`.
    let output = run(Target::X86_64Linux, &empty());
    assert_eq!(output, "");
}

#[test]
fn the_smallest_wasm32_wasi_module_imports_nothing() {
    // Type, function, export, code. No imports, no memory, no data.
    let output = run(Target::Wasm32Wasi, &empty());
    assert_eq!(output, "");
}

#[test]
fn the_x86_64_linux_executable_uses_the_heap() {
    assert_eq!(status(Target::X86_64Linux, &uses_the_heap()), 42);
    assert_eq!(status(Target::X86_64Linux, &stores_a_byte()), 8);
}

#[test]
fn the_wasm32_wasi_module_uses_the_heap() {
    assert_eq!(status(Target::Wasm32Wasi, &uses_the_heap()), 42);
    assert_eq!(status(Target::Wasm32Wasi, &stores_a_byte()), 8);
}

/// A call and a return, on each target's own calling convention.
#[test]
fn the_x86_64_linux_executable_calls_a_function() {
    assert_eq!(status(Target::X86_64Linux, &calls_a_function()), 42);
    assert_eq!(status(Target::X86_64Linux, &recurses()), 6);
}

#[test]
fn the_wasm32_wasi_module_calls_a_function() {
    assert_eq!(status(Target::Wasm32Wasi, &calls_a_function()), 42);
    assert_eq!(status(Target::Wasm32Wasi, &recurses()), 6);
}

#[test]
fn the_x86_64_linux_executable_compares() {
    assert_eq!(status(Target::X86_64Linux, &less(7, 9)), 1);
    assert_eq!(status(Target::X86_64Linux, &less(9, 7)), 0);
}

#[test]
fn the_wasm32_wasi_module_compares() {
    assert_eq!(status(Target::Wasm32Wasi, &less(7, 9)), 1);
    assert_eq!(status(Target::Wasm32Wasi, &less(9, 7)), 0);
}

/// The IR's loop has to survive into both targets, which have nothing in
/// common about how they branch. Running it is the only proof that counts.
#[test]
fn the_x86_64_linux_executable_counts_down() {
    assert_eq!(
        run(Target::X86_64Linux, &countdown(3)),
        "tick\n".repeat(3)
    );
    assert_eq!(run(Target::X86_64Linux, &countdown(0)), "");
}

#[test]
fn the_wasm32_wasi_module_counts_down() {
    assert_eq!(run(Target::Wasm32Wasi, &countdown(3)), "tick\n".repeat(3));
    assert_eq!(run(Target::Wasm32Wasi, &countdown(0)), "");
}

/// The whole way down: `2 + 2` written in barb, lowered through the machine
/// tier, compiled, and run. `Nat` is inductive all the way to the lowering,
/// which is where it becomes a word.
#[test]
fn every_target_runs_two_and_two_from_barb() {
    let barb = faun::two_and_two();
    let facts = faun::barb::recognise(&barb);
    let machine = faun::ir::lower(&barb, &facts).expect("a representable program");

    // `add` was recognised, so it is an instruction rather than a function:
    // what is left is the entry alone.
    assert_eq!(machine.functions().len(), 1, "only the entry survives");
    for target in Target::all() {
        assert_eq!(status(target, &machine), 4, "{}", target.name());
    }
}

/// The same program again, written out rather than built, and run.
#[test]
fn every_target_runs_two_and_two_from_text() {
    let machine = faun::read(
        "type Nat Zero Succ(Nat)

         add(a Zero) -> a
         add(a Succ(k)) -> Succ(add(a k))

         main!(h) -> exit!(h add(Succ(Succ(Zero)) Succ(Succ(Zero))))",
    )
    .expect("a program");
    for target in Target::all() {
        assert_eq!(status(target, &machine), 4, "{}", target.name());
    }
}

/// The one effect there is: a program that leaves with a status it worked
/// out, through a platform routine it declared and a host it was handed.
#[test]
fn every_target_exits_with_what_it_was_told() {
    let machine = faun::read(
        "type Nat Zero Succ(Nat)

         main!(h) -> exit!(h Succ(Succ(Succ(Zero))))",
    )
    .expect("a program");
    for target in Target::all() {
        assert_eq!(status(target, &machine), 3, "{}", target.name());
    }
}

/// A pure name may not do observable work.
#[test]
fn a_pure_name_cannot_call_an_effect() {
    let refused = faun::read(
        "type Nat Zero Succ(Nat)

         quietly(h) -> exit!(h Zero)

         main!(h) -> quietly(h)",
    )
    .unwrap_err();
    assert!(
        refused.contains("`quietly` is pure and calls `exit!`"),
        "{refused}"
    );
}

#[test]
fn a_target_is_found_by_its_name_and_by_no_other() {
    for target in Target::all() {
        assert_eq!(Target::from_name(target.name()), Some(target));
    }
    assert_eq!(Target::from_name("z80"), None);
    assert_eq!(
        Target::unknown("z80"),
        "unknown target `z80`, expected: x86_64-linux, wasm32-wasi, mos6502-sim65"
    );
    assert_eq!(Target::host("x86_64", "linux"), Some(Target::X86_64Linux));
    assert_eq!(Target::host("x86_64", "windows"), None);
    assert_eq!(Target::host("aarch64", "linux"), None);
}

#[test]
fn a_status_is_a_byte() {
    assert_eq!(faun::status(Some(0)), 0);
    assert_eq!(faun::status(Some(255)), 255);
    assert_eq!(faun::status(Some(256)), 1);
    assert_eq!(faun::status(Some(-1)), 1);
    assert_eq!(faun::status(None), 1);
}

/// What is not recognised as addition is still computed: a match, a call, and
/// counting down, on every target.
#[test]
fn every_target_runs_what_a_program_computes() {
    let machine = faun::read(
        "type Nat Zero Succ(Nat)

         double(Zero) -> Zero
         double(Succ(k)) -> Succ(Succ(double(k)))

         main!(h) -> three = Succ(Succ(Succ(Zero)))
                     six = double(three)
                     exit!(h double(six))",
    )
    .expect("a program");
    assert_eq!(machine.functions().len(), 2);
    for target in Target::all() {
        assert_eq!(status(target, &machine), 12, "{}", target.name());
    }
}

/// A program that never leaves by itself answers what its entry does.
#[test]
fn every_target_answers_what_the_entry_does() {
    let machine =
        faun::read("type Nat Zero Succ(Nat) main() -> Succ(Succ(Zero))").expect("a program");
    for target in Target::all() {
        assert_eq!(status(target, &machine), 2, "{}", target.name());
    }
}

/// `for (i = 0; i < limit; i++) acc += i;`, answering `acc`'s low byte.
fn summing_loop(limit: u64) -> Program {
    let (mut program, main) = Program::new("main");
    program.define(main, |b, _| {
        let zero = b.constant(Word, 0);
        let start = b.constant(Word, 0);
        let total = b.loop_(&[start, zero], &[Word], |b, params| {
            let (i, acc) = (params[0], params[1]);
            let bound = b.constant(Word, limit);
            let going = b.compare(Relation::Less, i, bound);
            b.if_(
                going,
                &[Word],
                |b| {
                    let one = b.constant(Word, 1);
                    let next = b.binary(Binary::Add, i, one);
                    let sum = b.binary(Binary::Add, acc, i);
                    b.continue_(&[next, sum])
                },
                |b| b.break_(&[acc]),
            );
            faun::ir::Terminator::unreachable()
        });
        b.ret(&[total[0]])
    });
    program
}

#[test]
fn every_target_sums_in_a_loop() {
    for target in Target::all() {
        assert_eq!(status(target, &summing_loop(10)), 45, "{}", target.name());
        assert_eq!(status(target, &summing_loop(0)), 0, "{}", target.name());
    }
}

/// A loop that hands its two values over the other way round while the first
/// is the smaller, and answers the second.
fn swaps(first: u64, second: u64) -> Program {
    let (mut program, main) = Program::new("main");
    program.define(main, |b, _| {
        let first = b.constant(Word, first);
        let second = b.constant(Word, second);
        let smaller = b.loop_(&[first, second], &[Word], |b, params| {
            let (one, other) = (params[0], params[1]);
            let below = b.compare(Relation::Less, one, other);
            b.if_(
                below,
                &[],
                |b| b.continue_(&[other, one]),
                |b| b.break_(&[other]),
            );
            faun::ir::Terminator::unreachable()
        });
        b.ret(&[smaller[0]])
    });
    program
}

#[test]
fn every_target_moves_values_at_once() {
    for target in Target::all() {
        assert_eq!(status(target, &swaps(3, 9)), 3, "{}", target.name());
        assert_eq!(status(target, &swaps(9, 3)), 3, "{}", target.name());
    }
}

/// An operation on two values of a class, answered as a word.
fn operation(op: Binary, class: Class, left: u64, right: u64) -> Program {
    let (mut program, main) = Program::new("main");
    program.define(main, |b, _| {
        let left = b.constant(class, left);
        let right = b.constant(class, right);
        let made = b.binary(op, left, right);
        let answer = b.convert(Word, made);
        b.ret(&[answer])
    });
    program
}

#[test]
fn every_target_computes_round_a_class() {
    let cases = [
        (Binary::Add, Word, 200, 45, 245),
        (Binary::Sub, Word, 0x0102, 3, 255),
        (Binary::Add, Class::Fixed { bits: 5 }, 20, 20, 8),
        (Binary::Sub, Class::Fixed { bits: 5 }, 3, 4, 31),
        (Binary::Add, Class::Fixed { bits: 12 }, 4000, 200, 104),
        (Binary::Sub, Class::Fixed { bits: 8 }, 1, 2, 255),
    ];
    for target in Target::all() {
        for (op, class, left, right, expected) in cases {
            let program = operation(op, class, left, right);
            assert_eq!(status(target, &program), expected, "{}", target.name());
        }
    }
}

#[test]
fn every_target_keeps_the_low_bits_of_what_it_converts() {
    let (mut program, main) = Program::new("main");
    program.define(main, |b, _| {
        let whole = b.constant(Word, 0x0FFF);
        let some = b.convert(Class::Fixed { bits: 10 }, whole);
        let fewer = b.convert(Class::Fixed { bits: 6 }, some);
        let answer = b.convert(Word, fewer);
        b.ret(&[answer])
    });
    for target in Target::all() {
        assert_eq!(status(target, &program), 63, "{}", target.name());
    }
}

/// What a program means is what every target leaves with: a match on what a
/// call answers, a value handed on by a bare name, and a step of its own.
#[test]
fn every_target_leaves_with_what_a_program_means() {
    let machine = faun::read(
        "type Nat Zero Succ(Nat)

         down(Zero) -> Zero
         down(Succ(k)) -> k

         both(Zero n) -> n
         both(Succ(k) n) -> Succ(both(k n))

         main!(h) -> two = Succ(Succ(Zero))
                     again = two
                     five = both(again Succ(both(two Zero)))
                     exit!(h down(five))",
    )
    .expect("a program");
    for target in Target::all() {
        assert_eq!(status(target, &machine), 4, "{}", target.name());
    }
}

/// The clause that names a constructor answers for it, wherever it stands; one
/// that binds answers for what no clause names.
#[test]
fn a_clause_that_names_a_constructor_answers_for_it() {
    let machine = |given: &str| {
        faun::read(&format!(
            "type Nat Zero Succ(Nat)

             f(x) -> x
             f(Zero) -> Succ(Succ(Succ(Zero)))

             main() -> f({given})"
        ))
        .expect("a program")
    };
    for target in Target::all() {
        assert_eq!(status(target, &machine("Zero")), 3, "{}", target.name());
        assert_eq!(status(target, &machine("Succ(Zero)")), 1, "{}", target.name());
    }
}

/// A name that is handed nothing is what is called that, where it is bound too.
#[test]
fn a_bound_name_handed_nothing_is_called() {
    let machine = faun::read(
        "type Nat Zero Succ(Nat)

         x() -> Succ(Succ(Zero))

         f(Zero x) -> x()
         f(Succ(a) x) -> x

         main() -> f(Zero Succ(Zero))",
    )
    .expect("a program");
    for target in Target::all() {
        assert_eq!(status(target, &machine), 2, "{}", target.name());
    }
}

/// What the smallest programs compile to. Ratchets: lower one when a target
/// improves, and do not raise one without saying why.
///
/// Five of the nine are not held to a number. The executable for two and two
/// keeps the sum in a stack slot rather than a register. The empty module
/// falls off the end and imports nothing. An image for the 6502 sets up the
/// hardware stack, two stacks of its own and the heap before anything else,
/// and keeps every value in a slot of two bytes.
#[test]
fn minimal_programs_compile_to_the_sizes_recorded_for_them() {
    for (name, program, sizes) in [
        ("empty", empty(), vec![(Target::X86_64Linux, 127)]),
        ("two and two", two_and_two(), vec![(Target::Wasm32Wasi, 105)]),
        (
            "hello world",
            faun::hello_world(),
            vec![(Target::X86_64Linux, 158), (Target::Wasm32Wasi, 141)],
        ),
    ] {
        for (target, size) in sizes {
            let bytes = faun::compile(target, &program)[0].bytes.len();
            assert_eq!(bytes, size, "{name} for {}", target.name());
        }
    }
}

/// What carries nothing goes through a match as nothing.
#[test]
fn a_token_is_handed_through_a_match() {
    let machine = faun::read(
        "type Nat Zero Succ(Nat)
         pass(Zero h) -> h
         pass(Succ(n) h) -> t = h pass(n t)
         main!(h) -> exit!(pass(Succ(Succ(Zero)) h) Succ(Succ(Succ(Zero))))",
    )
    .expect("a program");
    for target in Target::all() {
        assert_eq!(status(target, &machine), 3, "{}", target.name());
    }
}

/// Words are ordered by their high bytes, and by their low ones where those
/// tie.
#[test]
fn every_target_compares_whole_words() {
    let words = [0u64, 1, 0xFF, 0x100, 0x101, 0x1FF, 0x7FFF, 0x8000, 0xFFFE, 0xFFFF];
    for target in Target::all() {
        for left in words {
            for right in words {
                assert_eq!(status(target, &less(left, right)), u64::from(left < right));
            }
        }
    }
}

/// Nothing at all. A target's floor: headers, and whatever it takes to stop.
fn empty() -> Program {
    let (mut program, main) = Program::new("main");
    program.define(main, |b, _| {
        let status = b.constant(Word, 0);
        b.ret(&[status])
    });
    program
}

fn two_and_two() -> Program {
    let (mut program, main) = Program::new("main");
    program.define(main, |b, _| {
        let two = b.constant(Word, 2);
        let sum = b.binary(Binary::Add, two, two);
        b.ret(&[sum])
    });
    program
}

/// `main` calls `double(21)` and exits with it. The point is the call, so
/// the answer is the exit status rather than anything printed.
fn calls_a_function() -> Program {
    let (mut program, main) = Program::new("main");
    let double = program.declare("double", &[Word], &[Word]);
    program.define(double, |b, params| {
        let n = params[0];
        let doubled = b.binary(Binary::Add, n, n);
        b.ret(&[doubled])
    });

    program.define(main, |b, _| {
        let twenty_one = b.constant(Word, 21);
        let answer = b.call(double, &[twenty_one]);
        b.ret(&answer)
    });
    program
}

/// `sum(n)` recurses, so the call graph has a cycle and the callee needs a
/// frame that survives its own recursive call. 1 + 2 + 3 = 6.
fn recurses() -> Program {
    let (mut program, main) = Program::new("main");
    let sum = program.declare("sum", &[Word], &[Word]);
    program.define(sum, |b, params| {
        let n = params[0];
        let zero = b.constant(Word, 0);
        let done = b.compare(Relation::Equal, n, zero);
        let answer = b.if_(
            done,
            &[Word],
            |b| {
                let zero = b.constant(Word, 0);
                b.yield_(&[zero])
            },
            |b| {
                let one = b.constant(Word, 1);
                let less = b.binary(Binary::Sub, n, one);
                let rest = b.call(sum, &[less]);
                let total = b.binary(Binary::Add, n, rest[0]);
                b.yield_(&[total])
            },
        );
        b.ret(&answer)
    });

    program.define(main, |b, _| {
        let three = b.constant(Word, 3);
        let answer = b.call(sum, &[three]);
        b.ret(&answer)
    });
    program
}

/// Ask the platform for a page, write two words into it, read one back.
/// Exits with what it read, so nothing but real memory can make it pass.
fn uses_the_heap() -> Program {
    let (mut program, main) = Program::new("main");
    let grow = program.platform("grow", &[Word], &[Class::Address]);

    program.define(main, |b, _| {
        let size = b.constant(Word, 4096);
        let page = b.platform_call(grow, &[size])[0];

        let answer = b.constant(Word, 42);
        let decoy = b.constant(Word, 7);
        b.store(Width::Word, page, Offset::Words(0), decoy);
        b.store(Width::Word, page, Offset::Words(1), answer);

        let answer = b.load(Width::Word, page, Offset::Words(1));
        b.ret(&[answer])
    });
    program
}

/// Several values still wanted after a call, and a callee greedy enough to
/// take every pair it can. Anything the caller fails to hand back shows up
/// in the answer.
///
/// `clobber(x)` is `x + 2` through three intermediates; `outer(10, 3)` is
/// `13 + 7 + 12 + 10 + 3`.
fn values_survive_a_call() -> Program {
    let (mut program, main) = Program::new("main");
    let clobber = program.declare("clobber", &[Word], &[Word]);
    let outer = program.declare("outer", &[Word, Word], &[Word]);

    program.define(clobber, |b, params| {
        let x = params[0];
        let one = b.constant(Word, 1);
        let two = b.constant(Word, 2);
        let three = b.constant(Word, 3);
        let up = b.binary(Binary::Add, x, one);
        let down = b.binary(Binary::Sub, up, two);
        let back = b.binary(Binary::Add, down, three);
        b.ret(&[back])
    });

    program.define(outer, |b, params| {
        let (a, second) = (params[0], params[1]);
        let p = b.binary(Binary::Add, a, second);
        let q = b.binary(Binary::Sub, a, second);
        let r = b.call(clobber, &[a])[0];
        // Every one of these was computed before the call.
        let total = b.binary(Binary::Add, p, q);
        let total = b.binary(Binary::Add, total, r);
        let total = b.binary(Binary::Add, total, a);
        let total = b.binary(Binary::Add, total, second);
        b.ret(&[total])
    });

    program.define(main, |b, _| {
        let ten = b.constant(Word, 10);
        let three = b.constant(Word, 3);
        let answer = b.call(outer, &[ten, three]);
        b.ret(&answer)
    });
    program
}

/// Writes through an address the program worked out for itself, which is
/// the case a target cannot answer with a block of constants.
fn writes_from_the_heap() -> Program {
    let (mut program, main) = Program::new("main");
    let grow = program.platform("grow", &[Word], &[Class::Address]);
    let write = program.platform("write", &[Class::Address, Word], &[]);

    program.define(main, |b, _| {
        let size = b.constant(Word, 4096);
        let page = b.platform_call(grow, &[size])[0];

        // "hi\n", a byte at a time, since the bytes are computed too.
        for (index, byte) in [b'h', b'i', b'\n'].into_iter().enumerate() {
            let value = b.constant(Word, u64::from(byte));
            let offset = Offset::Bytes(i32::try_from(index).expect("a short greeting"));
            b.store(Width::Byte, page, offset, value);
        }

        let length = b.constant(Word, 3);
        b.platform_call(write, &[page, length]);
        let status = b.constant(Word, 0);
        b.ret(&[status])
    });
    program
}

/// A byte store must not disturb its neighbour, and a byte above 127 must
/// come back zero-extended rather than as a very large word. Answers
/// `(first == 200) + second`, so both have to hold to reach 8.
fn stores_a_byte() -> Program {
    let (mut program, main) = Program::new("main");
    let grow = program.platform("grow", &[Word], &[Class::Address]);

    program.define(main, |b, _| {
        let size = b.constant(Word, 4096);
        let page = b.platform_call(grow, &[size])[0];

        let high = b.constant(Word, 200);
        b.store(Width::Byte, page, Offset::Bytes(0), high);
        let neighbour = b.constant(Word, 7);
        b.store(Width::Byte, page, Offset::Bytes(1), neighbour);

        let first = b.load(Width::Byte, page, Offset::Bytes(0));
        let second = b.load(Width::Byte, page, Offset::Bytes(1));
        let expected = b.constant(Word, 200);
        let intact = b.compare(Relation::Equal, first, expected);
        let answer = b.binary(Binary::Add, intact, second);
        b.ret(&[answer])
    });
    program
}

/// A counter in a writable datum, bumped by a function called three times.
/// Nothing but storage outliving a call can answer 3.
fn counts_in_a_global() -> Program {
    let (mut program, main) = Program::new("main");
    let counter = program.global(&[0; 8]);

    let bump = program.declare("bump", &[], &[]);
    program.define(bump, |b, _| {
        let at = b.address_of(counter);
        let seen = b.load(Width::Word, at, Offset::Words(0));
        let one = b.constant(Word, 1);
        let next = b.binary(Binary::Add, seen, one);
        b.store(Width::Word, at, Offset::Words(0), next);
        b.ret(&[])
    });

    program.define(main, |b, _| {
        b.call(bump, &[]);
        b.call(bump, &[]);
        b.call(bump, &[]);
        let at = b.address_of(counter);
        let answer = b.load(Width::Word, at, Offset::Words(0));
        b.ret(&[answer])
    });
    program
}

/// `Fixed { bits: 8 }` is arithmetic in Z/256, so 250 + 10 is 4 on every
/// target: free on a machine with eight-bit registers, a mask on the two
/// that are wider.
fn wraps_at_eight_bits() -> Program {
    let byte = Class::Fixed { bits: 8 };
    let (mut program, main) = Program::new("main");
    program.define(main, |b, _| {
        let left = b.constant(byte, 250);
        let right = b.constant(byte, 10);
        let sum = b.binary(Binary::Add, left, right);
        // The entry returns a word, and this is where the width changes.
        let answer = b.convert(Word, sum);
        b.ret(&[answer])
    });
    program
}

/// `Relation::Less` is unsigned, and both targets carry an arm for it that
/// nothing else exercises.
fn less(left: u64, right: u64) -> Program {
    let (mut program, main) = Program::new("main");
    program.define(main, |b, _| {
        let left = b.constant(Word, left);
        let right = b.constant(Word, right);
        let answer = b.compare(Relation::Less, left, right);
        b.ret(&[answer])
    });
    program
}

/// `while n != 0 { print "tick"; n -= 1 }`, written the way the IR has it:
/// a loop carrying `n`, and an `if` that either breaks or goes round again.
fn countdown(times: u64) -> Program {
    let (mut program, main) = Program::new("main");
    let tick = program.intern(b"tick\n".as_slice());
    let write = program.platform("write", &[Class::Address, Word], &[]);

    program.define(main, |b, _| {
        let start = b.constant(Word, times);
        b.loop_(&[start], &[], |b, params| {
            let n = params[0];
            let zero = b.constant(Word, 0);
            let done = b.compare(Relation::Equal, n, zero);
            b.if_(
                done,
                &[],
                |b| b.break_(&[]),
                |b| {
                    let buf = b.address_of(tick);
                    let len = b.constant(Word, 5);
                    b.platform_call(write, &[buf, len]);
                    let one = b.constant(Word, 1);
                    let next = b.binary(Binary::Sub, n, one);
                    b.continue_(&[next])
                },
            );
            faun::ir::Terminator::unreachable()
        });

        let status = b.constant(Word, 0);
        b.ret(&[status])
    });

    program
}
