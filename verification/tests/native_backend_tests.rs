use furnace::backend::compile_to_elf;
use furnace::parser::parse_program;
use furnace::semantic::analyze;
use std::collections::HashMap;

// The executables the native backend writes are x86-64 ELF files that talk
// to Linux through `syscall`. These tests run them on a small x86-64
// interpreter that implements the instructions the backend emits and the
// `read`, `write` and `exit` system calls, and report the exit status.

const STACK_TOP: u64 = 0x7fff_0000;
const STEP_LIMIT: u64 = 50_000_000;

struct Machine {
    regs: [u64; 16],
    rip: u64,
    zf: bool,
    sf: bool,
    of: bool,
    cf: bool,
    memory: HashMap<u64, u8>,
    stdin: Vec<u8>,
    stdin_pos: usize,
    stdout: Vec<u8>,
}

const RAX: usize = 0;
const RCX: usize = 1;
const RDX: usize = 2;
const RSP: usize = 4;
const RBP: usize = 5;
const RSI: usize = 6;
const RDI: usize = 7;

enum Operand {
    Reg(usize),
    Mem(u64),
}

impl Machine {
    fn load(elf: &[u8], stdin: &str) -> Result<Machine, String> {
        if elf.len() < 128 || &elf[0..4] != &[0x7F, b'E', b'L', b'F'] {
            return Err("not an ELF file".to_string());
        }
        let entry = u64::from_le_bytes(elf[24..32].try_into().unwrap());
        let phoff = u64::from_le_bytes(elf[32..40].try_into().unwrap()) as usize;
        let offset = u64::from_le_bytes(elf[phoff + 8..phoff + 16].try_into().unwrap()) as usize;
        let vaddr = u64::from_le_bytes(elf[phoff + 16..phoff + 24].try_into().unwrap());
        let filesz = u64::from_le_bytes(elf[phoff + 32..phoff + 40].try_into().unwrap()) as usize;
        let mut memory = HashMap::new();
        for i in 0..filesz {
            memory.insert(vaddr + i as u64, elf[offset + i]);
        }
        let mut regs = [0u64; 16];
        regs[RSP] = STACK_TOP;
        Ok(Machine {
            regs,
            rip: entry,
            zf: false,
            sf: false,
            of: false,
            cf: false,
            memory,
            stdin: stdin.as_bytes().to_vec(),
            stdin_pos: 0,
            stdout: Vec::new(),
        })
    }

    fn byte(&self, addr: u64) -> u8 {
        *self.memory.get(&addr).unwrap_or(&0)
    }

    fn read(&self, addr: u64, size: usize) -> u64 {
        let mut v = 0u64;
        for i in 0..size {
            v |= (self.byte(addr + i as u64) as u64) << (8 * i);
        }
        v
    }

    fn write(&mut self, addr: u64, size: usize, value: u64) {
        for i in 0..size {
            self.memory.insert(addr + i as u64, (value >> (8 * i)) as u8);
        }
    }

    fn fetch(&mut self) -> u8 {
        let b = self.byte(self.rip);
        self.rip += 1;
        b
    }

    fn fetch_i32(&mut self) -> i64 {
        let v = self.read(self.rip, 4) as u32 as i32 as i64;
        self.rip += 4;
        v
    }

    fn push(&mut self, value: u64) {
        self.regs[RSP] = self.regs[RSP].wrapping_sub(8);
        let sp = self.regs[RSP];
        self.write(sp, 8, value);
    }

    fn pop(&mut self) -> u64 {
        let v = self.read(self.regs[RSP], 8);
        self.regs[RSP] = self.regs[RSP].wrapping_add(8);
        v
    }

    // Decodes a ModRM operand; `rex` supplies the R, X and B extensions.
    fn modrm(&mut self, rex: u8) -> (usize, Operand) {
        let m = self.fetch();
        let md = m >> 6;
        let reg = (((m >> 3) & 7) | ((rex & 4) << 1)) as usize;
        let rm = m & 7;
        if md == 3 {
            return (reg, Operand::Reg((rm | ((rex & 1) << 3)) as usize));
        }
        let mut addr: u64;
        if rm == 4 {
            let sib = self.fetch();
            let scale = 1u64 << (sib >> 6);
            let index = (((sib >> 3) & 7) | ((rex & 2) << 2)) as usize;
            let base = ((sib & 7) | ((rex & 1) << 3)) as usize;
            addr = if (sib & 7) == 5 && md == 0 {
                self.fetch_i32() as u64
            } else {
                self.regs[base]
            };
            if index != RSP {
                addr = addr.wrapping_add(self.regs[index].wrapping_mul(scale));
            }
        } else if rm == 5 && md == 0 {
            let disp = self.fetch_i32();
            addr = self.rip.wrapping_add(disp as u64);
        } else {
            addr = self.regs[(rm | ((rex & 1) << 3)) as usize];
        }
        if md == 1 {
            let d = self.fetch() as i8 as i64;
            addr = addr.wrapping_add(d as u64);
        } else if md == 2 {
            let d = self.fetch_i32();
            addr = addr.wrapping_add(d as u64);
        }
        (reg, Operand::Mem(addr))
    }

    fn get(&self, op: &Operand, size: usize) -> u64 {
        match op {
            Operand::Reg(r) => {
                if size == 8 {
                    self.regs[*r]
                } else {
                    self.regs[*r] & ((1u64 << (8 * size)) - 1)
                }
            }
            Operand::Mem(a) => self.read(*a, size),
        }
    }

    fn set(&mut self, op: &Operand, size: usize, value: u64) {
        match op {
            Operand::Reg(r) => {
                if size == 8 {
                    self.regs[*r] = value;
                } else if size == 4 {
                    self.regs[*r] = value & 0xFFFF_FFFF;
                } else {
                    let mask = (1u64 << (8 * size)) - 1;
                    self.regs[*r] = (self.regs[*r] & !mask) | (value & mask);
                }
            }
            Operand::Mem(a) => self.write(*a, size, value),
        }
    }

    fn flags_logic(&mut self, r: u64, size: usize) {
        let bits = 8 * size as u32;
        let r = if size == 8 { r } else { r & ((1u64 << bits) - 1) };
        self.zf = r == 0;
        self.sf = (r >> (bits - 1)) & 1 == 1;
        self.of = false;
        self.cf = false;
    }

    fn flags_sub(&mut self, a: u64, b: u64, size: usize) -> u64 {
        let bits = 8 * size as u32;
        let mask = if size == 8 { u64::MAX } else { (1u64 << bits) - 1 };
        let (a, b) = (a & mask, b & mask);
        let r = a.wrapping_sub(b) & mask;
        let sign = |x: u64| (x >> (bits - 1)) & 1 == 1;
        self.zf = r == 0;
        self.sf = sign(r);
        self.cf = a < b;
        self.of = sign(a) != sign(b) && sign(r) != sign(a);
        r
    }

    fn flags_add(&mut self, a: u64, b: u64, size: usize) -> u64 {
        let bits = 8 * size as u32;
        let mask = if size == 8 { u64::MAX } else { (1u64 << bits) - 1 };
        let (a, b) = (a & mask, b & mask);
        let r = a.wrapping_add(b) & mask;
        let sign = |x: u64| (x >> (bits - 1)) & 1 == 1;
        self.zf = r == 0;
        self.sf = sign(r);
        self.cf = r < a;
        self.of = sign(a) == sign(b) && sign(r) != sign(a);
        r
    }

    fn condition(&self, cc: u8) -> bool {
        match cc & 0xF {
            0x0 => self.of,
            0x1 => !self.of,
            0x2 => self.cf,
            0x3 => !self.cf,
            0x4 => self.zf,
            0x5 => !self.zf,
            0x6 => self.cf || self.zf,
            0x7 => !self.cf && !self.zf,
            0x8 => self.sf,
            0x9 => !self.sf,
            0xC => self.sf != self.of,
            0xD => self.sf == self.of,
            0xE => self.zf || self.sf != self.of,
            _ => !self.zf && self.sf == self.of,
        }
    }

    fn syscall(&mut self) -> Option<i32> {
        let number = self.regs[RAX];
        match number {
            0 => {
                let buf = self.regs[RSI];
                let len = self.regs[RDX] as usize;
                let mut n = 0;
                while n < len && self.stdin_pos < self.stdin.len() {
                    let b = self.stdin[self.stdin_pos];
                    self.write(buf + n as u64, 1, b as u64);
                    self.stdin_pos += 1;
                    n += 1;
                }
                self.regs[RAX] = n as u64;
                None
            }
            1 => {
                let buf = self.regs[RSI];
                let len = self.regs[RDX] as usize;
                for i in 0..len {
                    let b = self.byte(buf + i as u64);
                    self.stdout.push(b);
                }
                self.regs[RAX] = len as u64;
                None
            }
            60 | 231 => Some((self.regs[RDI] & 0xFF) as i32),
            other => {
                self.regs[RAX] = (-38i64) as u64;
                let _ = other;
                None
            }
        }
    }

    // Runs until the program exits; gives its exit status.
    fn run(&mut self) -> Result<i32, String> {
        let mut steps = 0u64;
        loop {
            steps += 1;
            if steps > STEP_LIMIT {
                return Err("step limit exceeded".to_string());
            }
            let start = self.rip;
            let mut rex = 0u8;
            let mut op = self.fetch();
            if (0x40..=0x4F).contains(&op) {
                rex = op;
                op = self.fetch();
            }
            let wide = rex & 8 != 0;
            let size = if wide { 8 } else { 4 };
            match op {
                0x50..=0x57 => {
                    let r = ((op - 0x50) | ((rex & 1) << 3)) as usize;
                    let v = self.regs[r];
                    self.push(v);
                }
                0x58..=0x5F => {
                    let r = ((op - 0x58) | ((rex & 1) << 3)) as usize;
                    let v = self.pop();
                    self.regs[r] = v;
                }
                0x01 | 0x29 | 0x21 | 0x09 | 0x31 | 0x39 => {
                    let (reg, dst) = self.modrm(rex);
                    let a = self.get(&dst, size);
                    let b = self.regs[reg];
                    let r = match op {
                        0x01 => self.flags_add(a, b, size),
                        0x29 | 0x39 => self.flags_sub(a, b, size),
                        0x21 => {
                            let r = a & b;
                            self.flags_logic(r, size);
                            r
                        }
                        0x09 => {
                            let r = a | b;
                            self.flags_logic(r, size);
                            r
                        }
                        _ => {
                            let r = a ^ b;
                            self.flags_logic(r, size);
                            r
                        }
                    };
                    if op != 0x39 {
                        self.set(&dst, size, r);
                    }
                }
                0x89 => {
                    let (reg, dst) = self.modrm(rex);
                    let v = self.regs[reg];
                    self.set(&dst, size, v);
                }
                0x8B => {
                    let (reg, src) = self.modrm(rex);
                    let v = self.get(&src, size);
                    self.set(&Operand::Reg(reg), size, v);
                }
                0x88 => {
                    let (reg, dst) = self.modrm(rex);
                    let v = self.regs[reg] & 0xFF;
                    self.set(&dst, 1, v);
                }
                0x8D => {
                    let (reg, src) = self.modrm(rex);
                    match src {
                        Operand::Mem(a) => self.set(&Operand::Reg(reg), size, a),
                        Operand::Reg(_) => return Err(format!("bad lea at {:#x}", start)),
                    }
                }
                0x6B => {
                    let (reg, src) = self.modrm(rex);
                    let imm = self.fetch() as i8 as i64;
                    let v = self.get(&src, size) as i64;
                    let r = v.wrapping_mul(imm) as u64;
                    self.set(&Operand::Reg(reg), size, r);
                }
                0x80 => {
                    let (ext, dst) = self.modrm(rex);
                    let imm = self.fetch() as u64;
                    let a = self.get(&dst, 1);
                    match ext & 7 {
                        0 => {
                            let r = self.flags_add(a, imm, 1);
                            self.set(&dst, 1, r);
                        }
                        5 => {
                            let r = self.flags_sub(a, imm, 1);
                            self.set(&dst, 1, r);
                        }
                        7 => {
                            self.flags_sub(a, imm, 1);
                        }
                        other => return Err(format!("unsupported 0x80 /{} at {:#x}", other, start)),
                    }
                }
                0x81 => {
                    let (ext, dst) = self.modrm(rex);
                    let imm = self.fetch_i32() as u64;
                    let a = self.get(&dst, size);
                    match ext & 7 {
                        0 => {
                            let r = self.flags_add(a, imm, size);
                            self.set(&dst, size, r);
                        }
                        5 => {
                            let r = self.flags_sub(a, imm, size);
                            self.set(&dst, size, r);
                        }
                        7 => {
                            self.flags_sub(a, imm, size);
                        }
                        other => return Err(format!("unsupported 0x81 /{} at {:#x}", other, start)),
                    }
                }
                0x99 => {
                    let a = self.regs[RAX] as i64;
                    self.regs[RDX] = if a < 0 { u64::MAX } else { 0 };
                }
                0xB8..=0xBF => {
                    let r = ((op - 0xB8) | ((rex & 1) << 3)) as usize;
                    if wide {
                        let v = self.read(self.rip, 8);
                        self.rip += 8;
                        self.regs[r] = v;
                    } else {
                        let v = self.read(self.rip, 4);
                        self.rip += 4;
                        self.regs[r] = v;
                    }
                }
                0xC6 => {
                    let (_, dst) = self.modrm(rex);
                    let imm = self.fetch() as u64;
                    self.set(&dst, 1, imm);
                }
                0xC7 => {
                    let (_, dst) = self.modrm(rex);
                    let imm = self.fetch_i32() as u64;
                    let v = if wide { imm } else { imm & 0xFFFF_FFFF };
                    self.set(&dst, size, v);
                }
                0xC3 => {
                    let target = self.pop();
                    self.rip = target;
                }
                0xC9 => {
                    self.regs[RSP] = self.regs[RBP];
                    let v = self.pop();
                    self.regs[RBP] = v;
                }
                0xE8 => {
                    let rel = self.fetch_i32();
                    let ret = self.rip;
                    self.push(ret);
                    self.rip = ret.wrapping_add(rel as u64);
                }
                0xE9 => {
                    let rel = self.fetch_i32();
                    self.rip = self.rip.wrapping_add(rel as u64);
                }
                0x70..=0x7F => {
                    let rel = self.fetch() as i8 as i64;
                    if self.condition(op) {
                        self.rip = self.rip.wrapping_add(rel as u64);
                    }
                }
                0xEB => {
                    let rel = self.fetch() as i8 as i64;
                    self.rip = self.rip.wrapping_add(rel as u64);
                }
                0xF7 => {
                    let (ext, src) = self.modrm(rex);
                    let v = self.get(&src, size);
                    match ext & 7 {
                        3 => {
                            let r = self.flags_sub(0, v, size);
                            self.cf = v != 0;
                            self.set(&src, size, r);
                        }
                        6 => {
                            if v == 0 {
                                return Err("division by zero".to_string());
                            }
                            let dividend = ((self.regs[RDX] as u128) << 64) | self.regs[RAX] as u128;
                            let q = dividend / v as u128;
                            self.regs[RAX] = q as u64;
                            self.regs[RDX] = (dividend % v as u128) as u64;
                        }
                        7 => {
                            if v == 0 {
                                return Err("division by zero".to_string());
                            }
                            let dividend =
                                (((self.regs[RDX] as u128) << 64) | self.regs[RAX] as u128) as i128;
                            let divisor = v as i64 as i128;
                            self.regs[RAX] = (dividend / divisor) as i64 as u64;
                            self.regs[RDX] = (dividend % divisor) as i64 as u64;
                        }
                        other => return Err(format!("unsupported 0xF7 /{} at {:#x}", other, start)),
                    }
                }
                0xFF => {
                    let (ext, dst) = self.modrm(rex);
                    let v = self.get(&dst, size);
                    let cf = self.cf;
                    match ext & 7 {
                        0 => {
                            let r = self.flags_add(v, 1, size);
                            self.cf = cf;
                            self.set(&dst, size, r);
                        }
                        1 => {
                            let r = self.flags_sub(v, 1, size);
                            self.cf = cf;
                            self.set(&dst, size, r);
                        }
                        other => return Err(format!("unsupported 0xFF /{} at {:#x}", other, start)),
                    }
                }
                0x0F => {
                    let op2 = self.fetch();
                    match op2 {
                        0x05 => {
                            if let Some(status) = self.syscall() {
                                return Ok(status);
                            }
                        }
                        0x80..=0x8F => {
                            let rel = self.fetch_i32();
                            if self.condition(op2) {
                                self.rip = self.rip.wrapping_add(rel as u64);
                            }
                        }
                        0x90..=0x9F => {
                            let (_, dst) = self.modrm(rex);
                            let v = if self.condition(op2) { 1 } else { 0 };
                            self.set(&dst, 1, v);
                        }
                        0xAF => {
                            let (reg, src) = self.modrm(rex);
                            let a = self.regs[reg] as i64;
                            let b = self.get(&src, size) as i64;
                            let r = a.wrapping_mul(b) as u64;
                            self.set(&Operand::Reg(reg), size, r);
                        }
                        0xB6 => {
                            let (reg, src) = self.modrm(rex);
                            let v = self.get(&src, 1);
                            self.set(&Operand::Reg(reg), size, v);
                        }
                        other => {
                            return Err(format!("unsupported opcode 0x0F {:#x} at {:#x}", other, start))
                        }
                    }
                }
                other => return Err(format!("unsupported opcode {:#x} at {:#x}", other, start)),
            }
        }
    }
}

// Runs a compiled program; gives its exit status and what it wrote.
fn run_elf(elf_bytes: &[u8], stdin: &str) -> Result<(i32, String), String> {
    let mut machine = Machine::load(elf_bytes, stdin)?;
    let status = machine.run()?;
    Ok((status, String::from_utf8_lossy(&machine.stdout).into_owned()))
}

fn compile_and_run(source: &str) -> Result<i32, String> {
    compile_and_run_with_stdin(source, "")
}

fn compile_and_run_with_stdin(source: &str, stdin: &str) -> Result<i32, String> {
    let program = parse_program(source).map_err(|e| e.to_string())?;
    analyze(&program).map_err(|e| e.to_string())?;
    let elf_bytes = compile_to_elf(&program).map_err(|e| e.to_string())?;
    let mut machine = Machine::load(&elf_bytes, stdin)?;
    let status = machine.run()?;
    let _ = RCX;
    Ok(status)
}

#[test]
fn test_signed_modulo() {
    let code = "Open Int Main() { Return -10 % 3; }";
    assert_eq!(compile_and_run(code).unwrap(), 255);
}

#[test]
fn test_string_function_prints_line() {
    let code =
        "Nunction Show(Weld Value) { Print(Value); } Open Nunction Main() { Show(\"hello\"); }";
    let program = parse_program(code).unwrap();
    analyze(&program).unwrap();
    let elf_bytes = compile_to_elf(&program).unwrap();
    assert!(!elf_bytes.is_empty());
}

#[test]
fn test_return_constant() {
    let code = "Open Int Main() { Return 42; }";
    let exit_code = compile_and_run(code).unwrap();
    assert_eq!(exit_code, 42);
}

#[test]
fn test_variables_and_arithmetic() {
    let code = "
        Open Int Main() {
            Int X = 10;
            Int Y = 20;
            Int Z = X + Y;
            Return Z;
        }
    ";
    let exit_code = compile_and_run(code).unwrap();
    assert_eq!(exit_code, 30);
}

#[test]
fn test_function_call() {
    let code = "
        Int Add(Int A, Int B) {
            Return A + B;
        }

        Open Int Main() {
            Return Add(15, 25);
        }
    ";
    let exit_code = compile_and_run(code).unwrap();
    assert_eq!(exit_code, 40);
}

#[test]
fn test_if_else_branches() {
    let code = "
        Open Int Main() {
            Int X = 10;
            If (X > 5) {
                Return 1;
            } Else {
                Return 0;
            }
        }
    ";
    let exit_code = compile_and_run(code).unwrap();
    assert_eq!(exit_code, 1);
}

#[test]
fn test_signed_comparisons() {
    let code_true = "
        Open Int Main() {
            Int Neg = -10;
            Int Pos = 5;
            If (Neg < Pos) {
                Return 1;
            } Else {
                Return 0;
            }
        }
    ";
    assert_eq!(compile_and_run(code_true).unwrap(), 1);

    let code_false = "
        Open Int Main() {
            Int Neg = -10;
            Int Pos = 5;
            If (Neg > Pos) {
                Return 1;
            } Else {
                Return 0;
            }
        }
    ";
    assert_eq!(compile_and_run(code_false).unwrap(), 0);
}

#[test]
fn test_division() {
    let code = "
        Open Int Main() {
            Int A = 100;
            Int B = 4;
            Return A / B;
        }
    ";
    assert_eq!(compile_and_run(code).unwrap(), 25);
}

#[test]
fn test_modulo() {
    let code = "
        Open Int Main() {
            Int X = 10 % 3;
            Return X;
        }
    ";
    assert_eq!(compile_and_run(code).unwrap(), 1);
}

#[test]
fn test_multiple_function_calls_and_arithmetic() {
    let code = "
        Int Square(Int X) {
            Return X * X;
        }

        Int SumSquares(Int A, Int B) {
            Return Square(A) + Square(B);
        }

        Open Int Main() {
            Return SumSquares(3, 4);
        }
    ";
    assert_eq!(compile_and_run(code).unwrap(), 25);
}

#[test]
fn test_unsupported_more_than_6_params() {
    let code = "
        Int TooMany(Int A, Int B, Int C, Int D, Int E, Int F, Int G) {
            Return A;
        }
        Open Int Main() {
            Return TooMany(1,2,3,4,5,6,7);
        }
    ";
    let res = compile_and_run(code);
    assert!(res.is_err());
    assert!(res.unwrap_err().contains("parameters"));
}

// Programs of several modules, built the way `Furnace build` builds a project
// whose sources lie under `src/`.
fn build_and_run(files: &[(&str, &str)]) -> Result<(i32, String), String> {
    use_modules(files)
}

fn use_modules(files: &[(&str, &str)]) -> Result<(i32, String), String> {
    let mut sources = Vec::new();
    let mut paths: Vec<&str> = files.iter().map(|(p, _)| *p).collect();
    paths.sort();
    for path in paths {
        let text = files.iter().find(|(p, _)| *p == path).unwrap().1;
        let source = furnace::project::parse_source(
            format!("/work/{}", path),
            path.to_string(),
            text.to_string(),
        )
        .map_err(|e| e.to_string())?;
        sources.push(source);
    }
    let program = furnace::imports::resolve_project(sources).map_err(|e| e.to_string())?;
    analyze(&program).map_err(|e| e.to_string())?;
    let elf_bytes = compile_to_elf(&program).map_err(|e| e.to_string())?;
    run_elf(&elf_bytes, "")
}

#[test]
fn furnace_run_executes_a_project_with_imports() {
    let (status, stdout) = build_and_run(&[
        ("src/File.anvil", "Open Nunction Hello() { Print(\"hello-import\"); }"),
        ("src/Main.anvil", "Use File; Open Nunction Main() { File.Hello(); }"),
    ])
    .unwrap();
    assert_eq!(status, 0);
    assert_eq!(stdout, "hello-import\n");
}

#[test]
fn duplicate_imports_are_idempotent() {
    let (status, _) = build_and_run(&[
        ("src/File.anvil", "Open Int Value() { Return 11; }"),
        (
            "src/Main.anvil",
            "Use File; Use File; Using File: Value; Using File: Value; Open Int Main() { Return Value(); }",
        ),
    ])
    .unwrap();
    assert_eq!(status, 11);
}

#[test]
fn nested_imports_resolve_without_leaking_their_scope() {
    let (status, _) = build_and_run(&[
        ("src/Utils.anvil", "Open Int Helper() { Return 19; }"),
        ("src/Middle.anvil", "Use Utils; Open Int Value() { Return Utils.Helper(); }"),
        ("src/Main.anvil", "Use Middle; Open Int Main() { Return Middle.Value(); }"),
    ])
    .unwrap();
    assert_eq!(status, 19);

    assert!(build_and_run(&[
        ("src/Utils.anvil", "Open Int Helper() { Return 19; }"),
        ("src/Middle.anvil", "Use Utils; Open Int Value() { Return Utils.Helper(); }"),
        ("src/Main.anvil", "Use Middle; Open Int Main() { Return Utils.Helper(); }"),
    ])
    .is_err());
}

#[test]
fn qualified_module_paths_resolve_structurally() {
    let (status, _) = build_and_run(&[
        ("src/System/Math.anvil", "Open Int Add(Int A, Int B) { Return A + B; }"),
        ("src/Main.anvil", "Use System.Math; Open Int Main() { Return System.Math.Add(3, 6); }"),
    ])
    .unwrap();
    assert_eq!(status, 9);

    assert!(build_and_run(&[
        ("src/System/Math.anvil", "Open Int Add(Int A, Int B) { Return A + B; }"),
        ("src/Main.anvil", "Use System.Math; Open Int Main() { Return Math.Add(3, 6); }"),
    ])
    .is_err());
}

#[test]
fn printing_integers_and_strings() {
    let elf = compile_to_elf(
        &parse_program("Open Nunction Main() { Print(-42); Print(\"done\"); }").unwrap(),
    )
    .unwrap();
    let (status, stdout) = run_elf(&elf, "").unwrap();
    assert_eq!(status, 0);
    assert_eq!(stdout, "-42\ndone\n");
}
