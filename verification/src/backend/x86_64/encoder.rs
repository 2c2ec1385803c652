//! An x86-64 machine code encoder for the instructions the native backend uses.

use vstd::prelude::*;

verus! {

/// General purpose registers, in hardware numbering order.
#[derive(Debug, Clone, Copy, PartialEq, Eq, Structural)]
pub enum Reg {
    RAX,
    RCX,
    RDX,
    RBX,
    RSP,
    RBP,
    RSI,
    RDI,
    R8,
    R9,
    R10,
    R11,
    R12,
    R13,
    R14,
    R15,
}

/// The hardware number of a register (0 to 15).
pub open spec fn reg_num(r: Reg) -> nat {
    match r {
        Reg::RAX => 0,
        Reg::RCX => 1,
        Reg::RDX => 2,
        Reg::RBX => 3,
        Reg::RSP => 4,
        Reg::RBP => 5,
        Reg::RSI => 6,
        Reg::RDI => 7,
        Reg::R8 => 8,
        Reg::R9 => 9,
        Reg::R10 => 10,
        Reg::R11 => 11,
        Reg::R12 => 12,
        Reg::R13 => 13,
        Reg::R14 => 14,
        Reg::R15 => 15,
    }
}

/// The low three bits of a register number, as encoded in ModRM and opcodes.
pub open spec fn low3(r: Reg) -> nat {
    reg_num(r) % 8
}

/// The high bit of a register number, as encoded in a REX prefix.
pub open spec fn high1(r: Reg) -> nat {
    reg_num(r) / 8
}

impl Reg {
    fn number(self) -> (n: u8)
        ensures
            n as nat == reg_num(self),
    {
        match self {
            Reg::RAX => 0,
            Reg::RCX => 1,
            Reg::RDX => 2,
            Reg::RBX => 3,
            Reg::RSP => 4,
            Reg::RBP => 5,
            Reg::RSI => 6,
            Reg::RDI => 7,
            Reg::R8 => 8,
            Reg::R9 => 9,
            Reg::R10 => 10,
            Reg::R11 => 11,
            Reg::R12 => 12,
            Reg::R13 => 13,
            Reg::R14 => 14,
            Reg::R15 => 15,
        }
    }

    /// The low three bits of the register number.
    pub fn code(self) -> (c: u8)
        ensures
            c as nat == low3(self),
            c < 8,
    {
        self.number() % 8
    }

    /// The REX extension bit of the register (1 for R8 to R15).
    pub fn is_ext(self) -> (e: u8)
        ensures
            e as nat == high1(self),
            e < 2,
    {
        self.number() / 8
    }
}

/// The integer argument registers of the System V calling convention, in order.
pub open spec fn sysv_arg_reg(i: int) -> Reg {
    if i == 0 {
        Reg::RDI
    } else if i == 1 {
        Reg::RSI
    } else if i == 2 {
        Reg::RDX
    } else if i == 3 {
        Reg::RCX
    } else if i == 4 {
        Reg::R8
    } else {
        Reg::R9
    }
}

/// The `i`-th System V integer argument register.
pub fn sysv_arg_regs(i: usize) -> (r: Reg)
    requires
        i < 6,
    ensures
        r == sysv_arg_reg(i as int),
{
    if i == 0 {
        Reg::RDI
    } else if i == 1 {
        Reg::RSI
    } else if i == 2 {
        Reg::RDX
    } else if i == 3 {
        Reg::RCX
    } else if i == 4 {
        Reg::R8
    } else {
        Reg::R9
    }
}

/// The `n` low bytes of `v`, least significant first.
pub open spec fn le_bytes(v: nat, n: nat) -> Seq<u8>
    decreases n,
{
    if n == 0 {
        seq![]
    } else {
        seq![(v % 256) as u8] + le_bytes(v / 256, (n - 1) as nat)
    }
}

/// An `n`-byte encoding has `n` bytes.
pub broadcast proof fn lemma_le_bytes_len(v: nat, n: nat)
    ensures
        #[trigger] le_bytes(v, n).len() == n,
    decreases n,
{
    if n > 0 {
        lemma_le_bytes_len(v / 256, (n - 1) as nat);
    }
}

/// The value of a little-endian byte string.
pub open spec fn le_value(s: Seq<u8>) -> nat
    decreases s.len(),
{
    if s.len() == 0 {
        0
    } else {
        s[0] as nat + 256 * le_value(s.drop_first())
    }
}

/// The two's complement bit pattern of a 32-bit integer.
pub open spec fn bits32(v: int) -> nat {
    if v >= 0 {
        v as nat
    } else {
        (v + 0x1_0000_0000) as nat
    }
}

/// The two's complement bit pattern of a 64-bit integer.
pub open spec fn bits64(v: int) -> nat {
    if v >= 0 {
        v as nat
    } else {
        (v + 0x1_0000_0000_0000_0000) as nat
    }
}

/// The encoding of a 32-bit signed integer.
pub open spec fn le_i32(v: i32) -> Seq<u8> {
    le_bytes(bits32(v as int), 4)
}

/// The encoding of a 64-bit signed integer.
pub open spec fn le_i64(v: i64) -> Seq<u8> {
    le_bytes(bits64(v as int), 8)
}

/// REX.W prefix with R taken from `reg_field` and B from `rm_field`.
pub open spec fn rex_rb(reg_field: Reg, rm_field: Reg) -> u8 {
    (0x48 + 4 * high1(reg_field) + high1(rm_field)) as u8
}

/// Register-direct ModRM byte.
pub open spec fn modrm_rr(reg_field: Reg, rm_field: Reg) -> u8 {
    (0xC0 + 8 * low3(reg_field) + low3(rm_field)) as u8
}

/// `[rbp + disp32]` ModRM byte.
pub open spec fn modrm_rbp(reg_field: Reg) -> u8 {
    (0x80 + 8 * low3(reg_field) + 5) as u8
}

/// Encoding of `op dst, src` for the register-register forms of add, sub, and, or, xor, mov
/// and cmp (source in the ModRM reg field).
pub open spec fn rr_code(opcode: u8, dst: Reg, src: Reg) -> Seq<u8> {
    seq![rex_rb(src, dst), opcode, modrm_rr(src, dst)]
}

/// Encoding of `mov reg, imm64`.
pub open spec fn mov_imm64_code(reg: Reg, val: i64) -> Seq<u8> {
    seq![(0x48 + high1(reg)) as u8, (0xB8 + low3(reg)) as u8] + le_i64(val)
}

/// Encoding of `setcc dst8; movzx dst, dst8`.
pub open spec fn setcc_code(set_opcode: u8, dst: Reg) -> Seq<u8> {
    seq![
        (0x40 + high1(dst)) as u8,
        0x0F,
        set_opcode,
        (0xC0 + low3(dst)) as u8,
        rex_rb(dst, dst),
        0x0F,
        0xB6,
        modrm_rr(dst, dst),
    ]
}

/// An in-memory machine code buffer.
pub struct Encoder {
    pub code: Vec<u8>,
}

fn u64_le(v: u64) -> (b: Vec<u8>)
    ensures
        b@ == le_bytes(v as nat, 8),
{
    let mut b: Vec<u8> = Vec::new();
    let mut x: u64 = v;
    let mut i: usize = 0;
    while i < 8
        invariant
            i <= 8,
            b@ + le_bytes(x as nat, (8 - i) as nat) == le_bytes(v as nat, 8),
        decreases 8 - i,
    {
        let ghost rest = le_bytes(x as nat, (8 - i) as nat);
        assert(rest == seq![(x as nat % 256) as u8] + le_bytes(x as nat / 256, (8 - i - 1) as nat));
        b.push((x % 256) as u8);
        x = x / 256;
        i = i + 1;
        assert(b@ + le_bytes(x as nat, (8 - i) as nat) == le_bytes(v as nat, 8));
    }
    assert(le_bytes(x as nat, 0) == Seq::<u8>::empty());
    assert(b@ == b@ + Seq::<u8>::empty());
    b
}

fn u32_le(v: u32) -> (b: Vec<u8>)
    ensures
        b@ == le_bytes(v as nat, 4),
{
    let mut b: Vec<u8> = Vec::new();
    let mut x: u32 = v;
    let mut i: usize = 0;
    while i < 4
        invariant
            i <= 4,
            b@ + le_bytes(x as nat, (4 - i) as nat) == le_bytes(v as nat, 4),
        decreases 4 - i,
    {
        let ghost rest = le_bytes(x as nat, (4 - i) as nat);
        assert(rest == seq![(x as nat % 256) as u8] + le_bytes(x as nat / 256, (4 - i - 1) as nat));
        b.push((x % 256) as u8);
        x = x / 256;
        i = i + 1;
        assert(b@ + le_bytes(x as nat, (4 - i) as nat) == le_bytes(v as nat, 4));
    }
    assert(le_bytes(x as nat, 0) == Seq::<u8>::empty());
    assert(b@ == b@ + Seq::<u8>::empty());
    b
}

fn i32_bits(v: i32) -> (u: u32)
    ensures
        u as nat == bits32(v as int),
{
    if v >= 0 {
        v as u32
    } else {
        (v as i64 + 0x1_0000_0000i64) as u32
    }
}

fn i64_bits(v: i64) -> (u: u64)
    ensures
        u as nat == bits64(v as int),
{
    if v >= 0 {
        v as u64
    } else {
        (v as i128 + 0x1_0000_0000_0000_0000i128) as u64
    }
}

/// The string printing routine: it counts the bytes before the NUL that RDI
/// points to and writes them to standard output.
pub open spec fn print_str_routine() -> Seq<u8> {
    seq![0x55u8, 0x48, 0x89, 0xE5] + rr_code(0x89, Reg::RSI, Reg::RDI) + mov_imm64_code(Reg::RCX, 0)
        + seq![0x80u8, 0x3C, 0x0E, 0x00] + seq![0x0Fu8, 0x84] + le_i32(8i32) + seq![0x48u8, 0xFF, 0xC1]
        + seq![0xE9u8] + le_i32(-18i32) + rr_code(0x89, Reg::RDX, Reg::RCX) + mov_imm64_code(Reg::RDI, 1)
        + mov_imm64_code(Reg::RAX, 1) + seq![0x0Fu8, 0x05, 0xC9, 0xC3]
}

/// The integer power routine: RAX starts at 1 and is multiplied by RDI while
/// the exponent in RSI, counted down, stays above 0.
pub open spec fn pow_int_routine() -> Seq<u8> {
    seq![0x55u8, 0x48, 0x89, 0xE5] + mov_imm64_code(Reg::RAX, 1) + mov_imm64_code(Reg::R10, 0) + rr_code(
        0x39,
        Reg::RSI,
        Reg::R10,
    ) + seq![0x0Fu8, 0x8E] + le_i32(22i32) + seq![
        rex_rb(Reg::RAX, Reg::RDI),
        0x0Fu8,
        0xAFu8,
        modrm_rr(Reg::RAX, Reg::RDI),
    ] + mov_imm64_code(Reg::R10, 1) + rr_code(0x29, Reg::RSI, Reg::R10) + seq![0xE9u8] + le_i32(-41i32)
        + seq![0xC9u8, 0xC3]
}

/// The sign step of the integer printing routines: a negative RAX is
/// negated, and R8 records whether it was.
pub open spec fn sign_split_routine() -> Seq<u8> {
    mov_imm64_code(Reg::R10, 0) + rr_code(0x39, Reg::RAX, Reg::R10) + seq![0x0Fu8, 0x8D] + le_i32(18i32)
        + seq![0x48u8, 0xF7, 0xD8] + mov_imm64_code(Reg::R8, 1) + seq![0xE9u8] + le_i32(10i32)
        + mov_imm64_code(Reg::R8, 0)
}

/// The digit step of the integer printing routines: RAX is divided by ten
/// until it is 0, each remainder stored as a digit below RBX and counted in
/// RCX, and a `-` is stored in front when R8 is set.
pub open spec fn digit_loop_routine() -> Seq<u8> {
    mov_imm64_code(Reg::RDX, 0) + mov_imm64_code(Reg::R10, 10) + seq![
        0x49u8,
        0xF7,
        0xF2,
        0x80,
        0xC2,
        0x30,
        0x48,
        0xFF,
        0xCB,
        0x88,
        0x13,
        0x48,
        0xFF,
        0xC1,
    ] + mov_imm64_code(Reg::R11, 0) + rr_code(0x39, Reg::RAX, Reg::R11) + seq![0x0Fu8, 0x85] + le_i32(
        -53i32,
    ) + mov_imm64_code(Reg::R11, 1) + rr_code(0x39, Reg::R8, Reg::R11) + seq![0x0Fu8, 0x85] + le_i32(9i32)
        + seq![0x48u8, 0xFF, 0xCB, 0xC6, 0x03, 0x2D, 0x48, 0xFF, 0xC1]
}

/// The last step of the integer printing routines: RCX bytes from RBX are
/// written to standard output, RBX is restored and the routine returns.
pub open spec fn write_and_return_routine() -> Seq<u8> {
    mov_imm64_code(Reg::RAX, 1) + mov_imm64_code(Reg::RDI, 1) + rr_code(0x89, Reg::RSI, Reg::RBX) + rr_code(
        0x89,
        Reg::RDX,
        Reg::RCX,
    ) + seq![0x0Fu8, 0x05] + seq![(0x48 + 4 * high1(Reg::RBX)) as u8, 0x8Bu8, modrm_rbp(Reg::RBX)]
        + le_i32((-32) as i32) + seq![0xC9u8, 0xC3]
}

/// The frame set-up shared by the integer printing routines: RBX is saved
/// below RBP and RDI moved to RAX.
pub open spec fn print_frame_code() -> Seq<u8> {
    seq![0x55u8, 0x48, 0x89, 0xE5] + seq![0x48u8, 0x81, 0xEC] + le_bytes(32, 4) + seq![
        (0x48 + 4 * high1(Reg::RBX)) as u8,
        0x89u8,
        modrm_rbp(Reg::RBX),
    ] + le_i32((-32) as i32) + rr_code(0x89, Reg::RAX, Reg::RDI) + seq![0x48u8, 0x8D, 0x5D, 0xFF]
}

/// The integer printing routine: the value in RDI in decimal, then a newline.
pub open spec fn print_int_routine() -> Seq<u8> {
    print_frame_code() + seq![0xC6u8, 0x03, 0x0A] + mov_imm64_code(Reg::RCX, 1) + sign_split_routine()
        + digit_loop_routine() + write_and_return_routine()
}

/// The inline integer printing routine: the value in RDI in decimal.
pub open spec fn print_int_inline_routine() -> Seq<u8> {
    print_frame_code() + mov_imm64_code(Reg::RCX, 0) + sign_split_routine() + digit_loop_routine()
        + write_and_return_routine()
}

/// The digit loop of the integer input routine: decimal digits at RSI are
/// accumulated into RAX until a byte that is no digit.
pub open spec fn parse_digits_routine() -> Seq<u8> {
    seq![0x0Fu8, 0xB6, 0x16, 0x80, 0xFA, 0x30, 0x0F, 0x8C] + le_i32(31i32) + seq![
        0x80u8,
        0xFA,
        0x39,
        0x0F,
        0x8F,
    ] + le_i32(22i32) + seq![
        0x48u8,
        0x6B,
        0xC0,
        0x0A,
        0x80,
        0xEA,
        0x30,
        0x48,
        0x0F,
        0xB6,
        0xD2,
        0x48,
        0x01,
        0xD0,
        0x48,
        0xFF,
        0xC6,
        0xE9,
    ] + le_i32(-43i32)
}

/// The integer input routine: it reads up to 64 bytes of standard input and
/// returns in RAX their decimal value, negated after a leading `-`.
pub open spec fn input_int_routine() -> Seq<u8> {
    input_head_code() + parse_digits_routine() + mov_imm64_code(Reg::RDX, 0) + rr_code(0x39, Reg::RCX, Reg::RDX)
        + seq![0x0Fu8, 0x84] + le_i32(3i32) + seq![0x48u8, 0xF7, 0xD8] + seq![0xC9u8, 0xC3]
}

/// The first part of the integer input routine: the read system call, and
/// the step over a leading `-`, recorded in RCX.
pub open spec fn input_head_code() -> Seq<u8> {
    seq![0x55u8, 0x48, 0x89, 0xE5] + seq![0x48u8, 0x81, 0xEC] + le_bytes(64, 4) + mov_imm64_code(Reg::RAX, 0)
        + mov_imm64_code(Reg::RDI, 0) + seq![0x48u8, 0x8D, 0x75, 0xC0] + mov_imm64_code(Reg::RDX, 64)
        + seq![0x0Fu8, 0x05] + seq![0x48u8, 0x8D, 0x75, 0xC0] + mov_imm64_code(Reg::RAX, 0)
        + mov_imm64_code(Reg::RCX, 0) + seq![0x80u8, 0x3E, 0x2D] + seq![0x0Fu8, 0x85] + le_i32(13i32)
        + mov_imm64_code(Reg::RCX, 1) + seq![0x48u8, 0xFF, 0xC6]
}

/// The bytes of `code` before position `p`.
pub open spec fn bytes_before(code: Seq<u8>, p: usize) -> Seq<u8> {
    code.subrange(0, p as int)
}

/// The bytes of `code` from position `a` on.
pub open spec fn bytes_from(code: Seq<u8>, a: int) -> Seq<u8> {
    code.subrange(a, code.len() as int)
}

/// The bytes of `code` from position `a` up to position `b`.
pub open spec fn bytes_between(code: Seq<u8>, a: int, b: usize) -> Seq<u8> {
    code.subrange(a, b as int)
}

/// `x` reduced to a signed 32-bit value, as a two's complement truncation does.
pub open spec fn wrap32(x: int) -> int {
    let m = x % 0x1_0000_0000;
    if m < 0x8000_0000 {
        m
    } else {
        m - 0x1_0000_0000
    }
}

/// The 32-bit displacement of a jump or call whose displacement field starts at
/// `patch_pos` and whose target is `target`, truncated to 32 bits.
pub fn rel32(target: usize, patch_pos: usize) -> (r: i32)
    ensures
        r as int == wrap32(target - (patch_pos + 4)),
{
    let t = target as u128;
    let p = patch_pos as u128 + 4;
    let m: u128 = if t >= p {
        (t - p) % 0x1_0000_0000
    } else {
        (0x1_0000_0000 - (p - t) % 0x1_0000_0000) % 0x1_0000_0000
    };
    assert(m as int == (target - (patch_pos + 4)) % 0x1_0000_0000) by {
        let x = target - (patch_pos + 4);
        if t < p {
            let y = (p - t) as int;
            assert(x == -y);
            assert(((0x1_0000_0000 - y % 0x1_0000_0000) % 0x1_0000_0000) == (-y) % 0x1_0000_0000)
                by (nonlinear_arith);
        }
    }
    if m < 0x8000_0000 {
        m as i32
    } else {
        (m as i64 - 0x1_0000_0000i64) as i32
    }
}

impl Encoder {
    /// An empty buffer.
    pub fn new() -> (e: Self)
        ensures
            e.code@ == Seq::<u8>::empty(),
    {
        Encoder { code: Vec::new() }
    }

    /// The number of bytes emitted so far.
    pub fn len(&self) -> (n: usize)
        ensures
            n == self.code@.len(),
    {
        self.code.len()
    }

    /// Appends one byte.
    pub fn emit_byte(&mut self, byte: u8)
        ensures
            final(self).code@ == old(self).code@.push(byte),
    {
        self.code.push(byte);
    }

    /// Appends bytes.
    pub fn emit_bytes(&mut self, bytes: &[u8])
        ensures
            final(self).code@ == old(self).code@ + bytes@,
    {
        let mut i: usize = 0;
        while i < bytes.len()
            invariant
                i <= bytes.len(),
                self.code@ == old(self).code@ + bytes@.take(i as int),
            decreases bytes.len() - i,
        {
            self.code.push(bytes[i]);
            i += 1;
            assert(bytes@.take(i as int) == bytes@.take((i - 1) as int).push(bytes@[i - 1]));
        }
        assert(bytes@.take(bytes.len() as int) == bytes@);
    }

    /// Appends a 32-bit unsigned value, little-endian.
    pub fn emit_u32_le(&mut self, val: u32)
        ensures
            final(self).code@ == old(self).code@ + le_bytes(val as nat, 4),
    {
        let b = u32_le(val);
        self.emit_bytes(b.as_slice());
    }

    /// Appends a 32-bit signed value, little-endian two's complement.
    pub fn emit_i32_le(&mut self, val: i32)
        ensures
            final(self).code@ == old(self).code@ + le_i32(val),
    {
        let b = u32_le(i32_bits(val));
        self.emit_bytes(b.as_slice());
    }

    /// Appends a 64-bit unsigned value, little-endian.
    pub fn emit_u64_le(&mut self, val: u64)
        ensures
            final(self).code@ == old(self).code@ + le_bytes(val as nat, 8),
    {
        let b = u64_le(val);
        self.emit_bytes(b.as_slice());
    }

    /// Overwrites the four bytes at `pos` with `val`, little-endian two's complement.
    pub fn patch_i32_le(&mut self, pos: usize, val: i32)
        requires
            pos + 4 <= old(self).code@.len(),
        ensures
            final(self).code@ == old(self).code@.subrange(0, pos as int) + le_i32(val)
                + old(self).code@.subrange(pos + 4, old(self).code@.len() as int),
    {
        let b = u32_le(i32_bits(val));
        proof {
            lemma_le_bytes_len(bits32(val as int), 4);
        }
        let n = self.code.len();
        let mut i: usize = 0;
        while i < 4
            invariant
                i <= 4,
                n == self.code@.len(),
                b@ == le_i32(val),
                b@.len() == 4,
                pos + 4 <= old(self).code@.len(),
                self.code@.len() == old(self).code@.len(),
                forall|j: int|
                    0 <= j < self.code@.len() ==> #[trigger] self.code@[j] == if pos <= j < pos
                        + i {
                        b@[j - pos]
                    } else {
                        old(self).code@[j]
                    },
            decreases 4 - i,
        {
            self.code.set(pos + i, b[i]);
            i += 1;
        }
        assert(self.code@ =~= old(self).code@.subrange(0, pos as int) + le_i32(val)
            + old(self).code@.subrange(pos + 4, old(self).code@.len() as int));
    }

    /// `push rbp`.
    pub fn push_rbp(&mut self)
        ensures
            final(self).code@ == old(self).code@ + seq![0x55u8],
    {
        self.emit_byte(0x55);
    }

    /// `pop rbp`.
    pub fn pop_rbp(&mut self)
        ensures
            final(self).code@ == old(self).code@ + seq![0x5Du8],
    {
        self.emit_byte(0x5D);
    }

    /// `mov rbp, rsp`.
    pub fn mov_rbp_rsp(&mut self)
        ensures
            final(self).code@ == old(self).code@ + seq![0x48u8, 0x89, 0xE5],
    {
        self.emit_bytes(&[0x48, 0x89, 0xE5]);
    }

    /// `leave`.
    pub fn leave(&mut self)
        ensures
            final(self).code@ == old(self).code@ + seq![0xC9u8],
    {
        self.emit_byte(0xC9);
    }

    /// `ret`.
    pub fn ret(&mut self)
        ensures
            final(self).code@ == old(self).code@ + seq![0xC3u8],
    {
        self.emit_byte(0xC3);
    }

    /// `sub rsp, imm32`.
    pub fn sub_rsp_imm32(&mut self, amount: u32)
        ensures
            final(self).code@ == old(self).code@ + seq![0x48u8, 0x81, 0xEC] + le_bytes(
                amount as nat,
                4,
            ),
    {
        self.emit_bytes(&[0x48, 0x81, 0xEC]);
        self.emit_u32_le(amount);
    }

    /// `mov reg, imm64`.
    pub fn mov_reg_imm64(&mut self, reg: Reg, val: i64)
        ensures
            final(self).code@ == old(self).code@ + mov_imm64_code(reg, val),
    {
        let rex = 0x48 + reg.is_ext();
        let opcode = 0xB8 + reg.code();
        self.emit_byte(rex);
        self.emit_byte(opcode);
        self.emit_u64_le(i64_bits(val));
    }

    fn emit_rr(&mut self, opcode: u8, dst: Reg, src: Reg)
        ensures
            final(self).code@ == old(self).code@ + rr_code(opcode, dst, src),
    {
        let rex = 0x48 + src.is_ext() * 4 + dst.is_ext();
        let modrm = 0xC0 + src.code() * 8 + dst.code();
        self.emit_byte(rex);
        self.emit_byte(opcode);
        self.emit_byte(modrm);
    }

    /// `mov dst, src`.
    pub fn mov_reg_reg(&mut self, dst: Reg, src: Reg)
        ensures
            final(self).code@ == old(self).code@ + rr_code(0x89, dst, src),
    {
        self.emit_rr(0x89, dst, src);
    }

    /// `mov [rbp - disp32], src`.
    pub fn store_rbp_disp32(&mut self, disp32: i32, src: Reg)
        requires
            disp32 > i32::MIN,
        ensures
            final(self).code@ == old(self).code@ + seq![
                (0x48 + 4 * high1(src)) as u8,
                0x89u8,
                modrm_rbp(src),
            ] + le_i32((-disp32) as i32),
    {
        let rex = 0x48 + src.is_ext() * 4;
        let modrm = 0x80 + src.code() * 8 + 5;
        self.emit_byte(rex);
        self.emit_byte(0x89);
        self.emit_byte(modrm);
        self.emit_i32_le(-disp32);
    }

    /// `mov dst, [rbp - disp32]`.
    pub fn load_rbp_disp32(&mut self, dst: Reg, disp32: i32)
        requires
            disp32 > i32::MIN,
        ensures
            final(self).code@ == old(self).code@ + seq![
                (0x48 + 4 * high1(dst)) as u8,
                0x8Bu8,
                modrm_rbp(dst),
            ] + le_i32((-disp32) as i32),
    {
        let rex = 0x48 + dst.is_ext() * 4;
        let modrm = 0x80 + dst.code() * 8 + 5;
        self.emit_byte(rex);
        self.emit_byte(0x8B);
        self.emit_byte(modrm);
        self.emit_i32_le(-disp32);
    }

    /// `add dst, src`.
    pub fn add_reg_reg(&mut self, dst: Reg, src: Reg)
        ensures
            final(self).code@ == old(self).code@ + rr_code(0x01, dst, src),
    {
        self.emit_rr(0x01, dst, src);
    }

    /// `sub dst, src`.
    pub fn sub_reg_reg(&mut self, dst: Reg, src: Reg)
        ensures
            final(self).code@ == old(self).code@ + rr_code(0x29, dst, src),
    {
        self.emit_rr(0x29, dst, src);
    }

    /// `imul dst, src`.
    pub fn imul_reg_reg(&mut self, dst: Reg, src: Reg)
        ensures
            final(self).code@ == old(self).code@ + seq![
                rex_rb(dst, src),
                0x0Fu8,
                0xAFu8,
                modrm_rr(dst, src),
            ],
    {
        let rex = 0x48 + dst.is_ext() * 4 + src.is_ext();
        let modrm = 0xC0 + dst.code() * 8 + src.code();
        self.emit_byte(rex);
        self.emit_byte(0x0F);
        self.emit_byte(0xAF);
        self.emit_byte(modrm);
    }

    /// `cqo`.
    pub fn cqo(&mut self)
        ensures
            final(self).code@ == old(self).code@ + seq![0x48u8, 0x99],
    {
        self.emit_bytes(&[0x48, 0x99]);
    }

    /// `idiv src`.
    pub fn idiv_reg(&mut self, src: Reg)
        ensures
            final(self).code@ == old(self).code@ + seq![
                (0x48 + high1(src)) as u8,
                0xF7u8,
                (0xC0 + 56 + low3(src)) as u8,
            ],
    {
        let rex = 0x48 + src.is_ext();
        let modrm = 0xC0 + 7 * 8 + src.code();
        self.emit_byte(rex);
        self.emit_byte(0xF7);
        self.emit_byte(modrm);
    }

    /// `and dst, src`.
    pub fn and_reg_reg(&mut self, dst: Reg, src: Reg)
        ensures
            final(self).code@ == old(self).code@ + rr_code(0x21, dst, src),
    {
        self.emit_rr(0x21, dst, src);
    }

    /// `or dst, src`.
    pub fn or_reg_reg(&mut self, dst: Reg, src: Reg)
        ensures
            final(self).code@ == old(self).code@ + rr_code(0x09, dst, src),
    {
        self.emit_rr(0x09, dst, src);
    }

    /// `xor dst, src`.
    pub fn xor_reg_reg(&mut self, dst: Reg, src: Reg)
        ensures
            final(self).code@ == old(self).code@ + rr_code(0x31, dst, src),
    {
        self.emit_rr(0x31, dst, src);
    }

    /// `cmp reg1, reg2`.
    pub fn cmp_reg_reg(&mut self, reg1: Reg, reg2: Reg)
        ensures
            final(self).code@ == old(self).code@ + rr_code(0x39, reg1, reg2),
    {
        self.emit_rr(0x39, reg1, reg2);
    }

    /// `setcc dst8` followed by `movzx dst, dst8`.
    pub fn setcc_movzx(&mut self, set_opcode: u8, dst: Reg)
        ensures
            final(self).code@ == old(self).code@ + setcc_code(set_opcode, dst),
    {
        let rex_set = 0x40 + dst.is_ext();
        let modrm_set = 0xC0 + dst.code();
        self.emit_byte(rex_set);
        self.emit_byte(0x0F);
        self.emit_byte(set_opcode);
        self.emit_byte(modrm_set);
        let rex_movzx = 0x48 + dst.is_ext() * 4 + dst.is_ext();
        let modrm_movzx = 0xC0 + dst.code() * 8 + dst.code();
        self.emit_byte(rex_movzx);
        self.emit_byte(0x0F);
        self.emit_byte(0xB6);
        self.emit_byte(modrm_movzx);
    }

    /// `sete` + `movzx`.
    pub fn sete_movzx(&mut self, dst: Reg)
        ensures
            final(self).code@ == old(self).code@ + setcc_code(0x94, dst),
    {
        self.setcc_movzx(0x94, dst);
    }

    /// `setne` + `movzx`.
    pub fn setne_movzx(&mut self, dst: Reg)
        ensures
            final(self).code@ == old(self).code@ + setcc_code(0x95, dst),
    {
        self.setcc_movzx(0x95, dst);
    }

    /// `setl` + `movzx`.
    pub fn setl_movzx(&mut self, dst: Reg)
        ensures
            final(self).code@ == old(self).code@ + setcc_code(0x9C, dst),
    {
        self.setcc_movzx(0x9C, dst);
    }

    /// `setge` + `movzx`.
    pub fn setge_movzx(&mut self, dst: Reg)
        ensures
            final(self).code@ == old(self).code@ + setcc_code(0x9D, dst),
    {
        self.setcc_movzx(0x9D, dst);
    }

    /// `setle` + `movzx`.
    pub fn setle_movzx(&mut self, dst: Reg)
        ensures
            final(self).code@ == old(self).code@ + setcc_code(0x9E, dst),
    {
        self.setcc_movzx(0x9E, dst);
    }

    /// `setg` + `movzx`.
    pub fn setg_movzx(&mut self, dst: Reg)
        ensures
            final(self).code@ == old(self).code@ + setcc_code(0x9F, dst),
    {
        self.setcc_movzx(0x9F, dst);
    }

    /// `jmp rel32`; returns the position of the displacement.
    pub fn jmp_rel32(&mut self, offset: i32) -> (p: usize)
        ensures
            final(self).code@ == old(self).code@ + seq![0xE9u8] + le_i32(offset),
            p == old(self).code@.len() + 1,
    {
        self.emit_byte(0xE9);
        let patch_pos = self.code.len();
        self.emit_i32_le(offset);
        patch_pos
    }

    fn jcc_rel32(&mut self, cc: u8, offset: i32) -> (p: usize)
        ensures
            final(self).code@ == old(self).code@ + seq![0x0Fu8, cc] + le_i32(offset),
            p == old(self).code@.len() + 2,
    {
        self.emit_byte(0x0F);
        self.emit_byte(cc);
        let patch_pos = self.code.len();
        self.emit_i32_le(offset);
        patch_pos
    }

    /// `je rel32`; returns the position of the displacement.
    pub fn je_rel32(&mut self, offset: i32) -> (p: usize)
        ensures
            final(self).code@ == old(self).code@ + seq![0x0Fu8, 0x84] + le_i32(offset),
            p == old(self).code@.len() + 2,
    {
        self.jcc_rel32(0x84, offset)
    }

    /// `jne rel32`; returns the position of the displacement.
    pub fn jne_rel32(&mut self, offset: i32) -> (p: usize)
        ensures
            final(self).code@ == old(self).code@ + seq![0x0Fu8, 0x85] + le_i32(offset),
            p == old(self).code@.len() + 2,
    {
        self.jcc_rel32(0x85, offset)
    }

    /// `jge rel32`; returns the position of the displacement.
    pub fn jge_rel32(&mut self, offset: i32) -> (p: usize)
        ensures
            final(self).code@ == old(self).code@ + seq![0x0Fu8, 0x8D] + le_i32(offset),
            p == old(self).code@.len() + 2,
    {
        self.jcc_rel32(0x8D, offset)
    }

    /// `jle rel32`; returns the position of the displacement.
    pub fn jle_rel32(&mut self, offset: i32) -> (p: usize)
        ensures
            final(self).code@ == old(self).code@ + seq![0x0Fu8, 0x8E] + le_i32(offset),
            p == old(self).code@.len() + 2,
    {
        self.jcc_rel32(0x8E, offset)
    }

    /// `jl rel32`; returns the position of the displacement.
    pub fn jl_rel32(&mut self, offset: i32) -> (p: usize)
        ensures
            final(self).code@ == old(self).code@ + seq![0x0Fu8, 0x8C] + le_i32(offset),
            p == old(self).code@.len() + 2,
    {
        self.emit_bytes(&[0x0F, 0x8C]);
        let patch_pos = self.code.len();
        self.emit_i32_le(offset);
        patch_pos
    }

    /// `jg rel32`; returns the position of the displacement.
    pub fn jg_rel32(&mut self, offset: i32) -> (p: usize)
        ensures
            final(self).code@ == old(self).code@ + seq![0x0Fu8, 0x8F] + le_i32(offset),
            p == old(self).code@.len() + 2,
    {
        self.emit_bytes(&[0x0F, 0x8F]);
        let patch_pos = self.code.len();
        self.emit_i32_le(offset);
        patch_pos
    }

    /// `call rel32`; returns the position of the displacement.
    pub fn call_rel32(&mut self, offset: i32) -> (p: usize)
        ensures
            final(self).code@ == old(self).code@ + seq![0xE8u8] + le_i32(offset),
            p == old(self).code@.len() + 1,
    {
        self.emit_byte(0xE8);
        let patch_pos = self.code.len();
        self.emit_i32_le(offset);
        patch_pos
    }

    /// `syscall`.
    pub fn syscall(&mut self)
        ensures
            final(self).code@ == old(self).code@ + seq![0x0Fu8, 0x05],
    {
        self.emit_bytes(&[0x0F, 0x05]);
    }

    /// Emits the string printing routine (pointer in RDI, NUL-terminated) and
    /// returns its start.
    pub fn emit_print_str_helper(&mut self) -> (start: usize)
        ensures
            start == old(self).code@.len(),
            final(self).code@ == old(self).code@ + print_str_routine(),
    {
        broadcast use lemma_le_bytes_len;
        let ghost o = self.code@;
        let start_pos = self.len();
        self.push_rbp();
        self.mov_rbp_rsp();
        self.mov_reg_reg(Reg::RSI, Reg::RDI);
        self.mov_reg_imm64(Reg::RCX, 0);
        let loop_pos = self.len();
        self.emit_bytes(&[0x80, 0x3C, 0x0E, 0x00]);
        let patch_je = self.je_rel32(0);
        let ghost a1 = bytes_before(self.code@, patch_je);
        self.emit_bytes(&[0x48, 0xFF, 0xC1]);
        let patch_jmp = self.jmp_rel32(0);
        let ghost mid = bytes_between(self.code@, patch_je + 4, patch_jmp);
        proof {
            assert(self.code@ =~= a1 + le_i32(0) + mid + le_i32(0));
        }
        let r1 = rel32(loop_pos, patch_jmp);
        self.patch_i32_le(patch_jmp, r1);
        proof {
            assert(self.code@ =~= a1 + le_i32(0) + mid + le_i32(r1));
        }
        let write_pos = self.len();
        let r2 = rel32(write_pos, patch_je);
        self.patch_i32_le(patch_je, r2);
        proof {
            assert(self.code@ =~= a1 + le_i32(r2) + mid + le_i32(r1));
            assert(r1 == -18i32);
            assert(r2 == 8i32);
        }
        self.mov_reg_reg(Reg::RDX, Reg::RCX);
        self.mov_reg_imm64(Reg::RDI, 1);
        self.mov_reg_imm64(Reg::RAX, 1);
        self.syscall();
        self.leave();
        self.ret();
        proof {
            assert(self.code@ =~= o + print_str_routine());
        }
        start_pos
    }

    fn emit_digit_loop(&mut self)
        ensures
            final(self).code@ == old(self).code@ + digit_loop_routine(),
    {
        broadcast use lemma_le_bytes_len;
        let ghost o = self.code@;
        let loop_offset = self.len();
        self.mov_reg_imm64(Reg::RDX, 0);
        self.mov_reg_imm64(Reg::R10, 10);
        self.emit_bytes(&[0x49, 0xF7, 0xF2]);
        self.emit_bytes(&[0x80, 0xC2, 0x30]);
        self.emit_bytes(&[0x48, 0xFF, 0xCB]);
        self.emit_bytes(&[0x88, 0x13]);
        self.emit_bytes(&[0x48, 0xFF, 0xC1]);
        self.mov_reg_imm64(Reg::R11, 0);
        self.cmp_reg_reg(Reg::RAX, Reg::R11);
        let patch_jne = self.jne_rel32(0);
        let ghost a1 = bytes_before(self.code@, patch_jne);
        proof {
            assert(self.code@ =~= a1 + le_i32(0));
        }
        let r1 = rel32(loop_offset, patch_jne);
        self.patch_i32_le(patch_jne, r1);
        proof {
            assert(self.code@ =~= a1 + le_i32(r1));
            assert(r1 == -53i32);
        }
        self.mov_reg_imm64(Reg::R11, 1);
        self.cmp_reg_reg(Reg::R8, Reg::R11);
        let patch_jne_write = self.jne_rel32(0);
        let ghost a2 = bytes_before(self.code@, patch_jne_write);
        self.emit_bytes(&[0x48, 0xFF, 0xCB]);
        self.emit_bytes(&[0xC6, 0x03, 0x2D]);
        self.emit_bytes(&[0x48, 0xFF, 0xC1]);
        let ghost tail = bytes_from(self.code@, patch_jne_write + 4);
        proof {
            assert(self.code@ =~= a2 + le_i32(0) + tail);
        }
        let write_offset = self.len();
        let r2 = rel32(write_offset, patch_jne_write);
        self.patch_i32_le(patch_jne_write, r2);
        proof {
            assert(self.code@ =~= a2 + le_i32(r2) + tail);
            assert(r2 == 9i32);
            assert(self.code@ =~= o + digit_loop_routine());
        }
    }

    fn emit_sign_split(&mut self)
        ensures
            final(self).code@ == old(self).code@ + sign_split_routine(),
    {
        broadcast use lemma_le_bytes_len;
        let ghost o = self.code@;
        self.mov_reg_imm64(Reg::R10, 0);
        self.cmp_reg_reg(Reg::RAX, Reg::R10);
        let patch_jge = self.jge_rel32(0);
        let ghost a1 = bytes_before(self.code@, patch_jge);
        self.emit_bytes(&[0x48, 0xF7, 0xD8]);
        self.mov_reg_imm64(Reg::R8, 1);
        let patch_skip_pos = self.jmp_rel32(0);
        let ghost mid = bytes_between(self.code@, patch_jge + 4, patch_skip_pos);
        proof {
            assert(self.code@ =~= a1 + le_i32(0) + mid + le_i32(0));
        }
        let pos_offset = self.len();
        let r1 = rel32(pos_offset, patch_jge);
        self.patch_i32_le(patch_jge, r1);
        proof {
            assert(self.code@ =~= a1 + le_i32(r1) + mid + le_i32(0));
        }
        self.mov_reg_imm64(Reg::R8, 0);
        let skip_pos_offset = self.len();
        let r2 = rel32(skip_pos_offset, patch_skip_pos);
        self.patch_i32_le(patch_skip_pos, r2);
        proof {
            assert(self.code@ =~= a1 + le_i32(r1) + mid + le_i32(r2) + mov_imm64_code(Reg::R8, 0));
            assert(r1 == 18i32);
            assert(r2 == 10i32);
            assert(self.code@ =~= o + sign_split_routine());
        }
    }

    fn emit_write_and_return(&mut self)
        ensures
            final(self).code@ == old(self).code@ + write_and_return_routine(),
    {
        self.mov_reg_imm64(Reg::RAX, 1);
        self.mov_reg_imm64(Reg::RDI, 1);
        self.mov_reg_reg(Reg::RSI, Reg::RBX);
        self.mov_reg_reg(Reg::RDX, Reg::RCX);
        self.syscall();
        self.load_rbp_disp32(Reg::RBX, 32);
        self.leave();
        self.ret();
        assert(self.code@ =~= old(self).code@ + write_and_return_routine());
    }

    /// Emits the integer printing routine (value in RDI, followed by a newline)
    /// and returns its start.
    pub fn emit_print_int_helper(&mut self) -> (start: usize)
        ensures
            start == old(self).code@.len(),
            final(self).code@ == old(self).code@ + print_int_routine(),
    {
        let start_pos = self.len();
        self.push_rbp();
        self.mov_rbp_rsp();
        self.sub_rsp_imm32(32);
        self.store_rbp_disp32(32, Reg::RBX);
        self.mov_reg_reg(Reg::RAX, Reg::RDI);
        self.emit_bytes(&[0x48, 0x8D, 0x5D, 0xFF]);
        self.emit_bytes(&[0xC6, 0x03, 0x0A]);
        self.mov_reg_imm64(Reg::RCX, 1);
        self.emit_sign_split();
        self.emit_digit_loop();
        self.emit_write_and_return();
        assert(self.code@ =~= old(self).code@ + print_int_routine());
        start_pos
    }

    /// Emits the inline integer printing routine (value in RDI, no newline)
    /// and returns its start.
    pub fn emit_print_int_inline_helper(&mut self) -> (start: usize)
        ensures
            start == old(self).code@.len(),
            final(self).code@ == old(self).code@ + print_int_inline_routine(),
    {
        let start_pos = self.len();
        self.push_rbp();
        self.mov_rbp_rsp();
        self.sub_rsp_imm32(32);
        self.store_rbp_disp32(32, Reg::RBX);
        self.mov_reg_reg(Reg::RAX, Reg::RDI);
        self.emit_bytes(&[0x48, 0x8D, 0x5D, 0xFF]);
        self.mov_reg_imm64(Reg::RCX, 0);
        self.emit_sign_split();
        self.emit_digit_loop();
        self.emit_write_and_return();
        assert(self.code@ =~= old(self).code@ + print_int_inline_routine());
        start_pos
    }

    /// Emits the integer power routine (base in RDI, exponent in RSI, result in
    /// RAX) and returns its start.
    pub fn emit_pow_int_helper(&mut self) -> (start: usize)
        ensures
            start == old(self).code@.len(),
            final(self).code@ == old(self).code@ + pow_int_routine(),
    {
        broadcast use lemma_le_bytes_len;
        let ghost o = self.code@;
        let start_pos = self.len();
        self.push_rbp();
        self.mov_rbp_rsp();
        self.mov_reg_imm64(Reg::RAX, 1);
        let loop_offset = self.len();
        self.mov_reg_imm64(Reg::R10, 0);
        self.cmp_reg_reg(Reg::RSI, Reg::R10);
        let patch_jle = self.jle_rel32(0);
        let ghost a1 = bytes_before(self.code@, patch_jle);
        self.imul_reg_reg(Reg::RAX, Reg::RDI);
        self.mov_reg_imm64(Reg::R10, 1);
        self.sub_reg_reg(Reg::RSI, Reg::R10);
        let patch_jmp_loop = self.jmp_rel32(0);
        let ghost mid = bytes_between(self.code@, patch_jle + 4, patch_jmp_loop);
        proof {
            assert(self.code@ =~= a1 + le_i32(0) + mid + le_i32(0));
        }
        let r1 = rel32(loop_offset, patch_jmp_loop);
        self.patch_i32_le(patch_jmp_loop, r1);
        proof {
            assert(self.code@ =~= a1 + le_i32(0) + mid + le_i32(r1));
        }
        let done_offset = self.len();
        let r2 = rel32(done_offset, patch_jle);
        self.patch_i32_le(patch_jle, r2);
        proof {
            assert(self.code@ =~= a1 + le_i32(r2) + mid + le_i32(r1));
            assert(r1 == -41i32);
            assert(r2 == 22i32);
        }
        self.leave();
        self.ret();
        proof {
            assert(self.code@ =~= o + pow_int_routine());
        }
        start_pos
    }

    fn emit_parse_digits(&mut self)
        ensures
            final(self).code@ == old(self).code@ + parse_digits_routine(),
    {
        broadcast use lemma_le_bytes_len;
        let ghost o = self.code@;
        let loop_offset = self.len();
        self.emit_bytes(&[0x0F, 0xB6, 0x16]);
        self.emit_bytes(&[0x80, 0xFA, 0x30]);
        let patch_done_low = self.jl_rel32(0);
        let ghost a1 = bytes_before(self.code@, patch_done_low);
        self.emit_bytes(&[0x80, 0xFA, 0x39]);
        let patch_done_high = self.jg_rel32(0);
        let ghost m1 = bytes_between(self.code@, patch_done_low + 4, patch_done_high);
        self.emit_bytes(&[0x48, 0x6B, 0xC0, 0x0A]);
        self.emit_bytes(&[0x80, 0xEA, 0x30]);
        self.emit_bytes(&[0x48, 0x0F, 0xB6, 0xD2]);
        self.emit_bytes(&[0x48, 0x01, 0xD0]);
        self.emit_bytes(&[0x48, 0xFF, 0xC6]);
        let patch_loop = self.jmp_rel32(0);
        let ghost m2 = bytes_between(self.code@, patch_done_high + 4, patch_loop);
        proof {
            assert(self.code@ =~= a1 + le_i32(0) + m1 + le_i32(0) + m2 + le_i32(0));
        }
        let r1 = rel32(loop_offset, patch_loop);
        self.patch_i32_le(patch_loop, r1);
        proof {
            assert(self.code@ =~= a1 + le_i32(0) + m1 + le_i32(0) + m2 + le_i32(r1));
        }
        let done_offset = self.len();
        let r2 = rel32(done_offset, patch_done_low);
        self.patch_i32_le(patch_done_low, r2);
        proof {
            assert(self.code@ =~= a1 + le_i32(r2) + m1 + le_i32(0) + m2 + le_i32(r1));
        }
        let r3 = rel32(done_offset, patch_done_high);
        self.patch_i32_le(patch_done_high, r3);
        proof {
            assert(self.code@ =~= a1 + le_i32(r2) + m1 + le_i32(r3) + m2 + le_i32(r1));
            assert(r1 == -43i32);
            assert(r2 == 31i32);
            assert(r3 == 22i32);
            assert(self.code@ =~= o + parse_digits_routine());
        }
    }

    /// Emits the integer input routine (reads a line from standard input,
    /// returns its optionally signed decimal value in RAX) and returns its start.
    #[verifier::rlimit(60)]
    #[verifier::spinoff_prover]
    pub fn emit_input_int_helper(&mut self) -> (start: usize)
        ensures
            start == old(self).code@.len(),
            final(self).code@ == old(self).code@ + input_int_routine(),
    {
        broadcast use lemma_le_bytes_len;
        let ghost o = self.code@;
        let start_pos = self.len();
        self.push_rbp();
        self.mov_rbp_rsp();
        self.sub_rsp_imm32(64);
        self.mov_reg_imm64(Reg::RAX, 0);
        self.mov_reg_imm64(Reg::RDI, 0);
        self.emit_bytes(&[0x48, 0x8D, 0x75, 0xC0]);
        self.mov_reg_imm64(Reg::RDX, 64);
        self.syscall();
        self.emit_bytes(&[0x48, 0x8D, 0x75, 0xC0]);
        self.mov_reg_imm64(Reg::RAX, 0);
        self.mov_reg_imm64(Reg::RCX, 0);
        self.emit_bytes(&[0x80, 0x3E, 0x2D]);
        let patch_digits = self.jne_rel32(0);
        let ghost a1 = bytes_before(self.code@, patch_digits);
        self.mov_reg_imm64(Reg::RCX, 1);
        self.emit_bytes(&[0x48, 0xFF, 0xC6]);
        let ghost m1 = bytes_from(self.code@, patch_digits + 4);
        proof {
            assert(self.code@ =~= a1 + le_i32(0) + m1);
        }
        let digits_offset = self.len();
        let r1 = rel32(digits_offset, patch_digits);
        self.patch_i32_le(patch_digits, r1);
        proof {
            assert(self.code@ =~= a1 + le_i32(r1) + m1);
            assert(r1 == 13i32);
            assert(self.code@ =~= o + input_head_code());
        }
        self.emit_parse_digits();
        self.mov_reg_imm64(Reg::RDX, 0);
        self.cmp_reg_reg(Reg::RCX, Reg::RDX);
        let patch_positive = self.je_rel32(0);
        let ghost a2 = bytes_before(self.code@, patch_positive);
        self.emit_bytes(&[0x48, 0xF7, 0xD8]);
        let ghost m2 = bytes_from(self.code@, patch_positive + 4);
        proof {
            assert(self.code@ =~= a2 + le_i32(0) + m2);
        }
        let positive_offset = self.len();
        let r2 = rel32(positive_offset, patch_positive);
        self.patch_i32_le(patch_positive, r2);
        proof {
            assert(a2 =~= o + input_head_code() + parse_digits_routine() + mov_imm64_code(Reg::RDX, 0)
                + rr_code(0x39, Reg::RCX, Reg::RDX) + seq![0x0Fu8, 0x84]);
            assert(self.code@ =~= a2 + le_i32(r2) + m2);
            assert(r2 == 3i32);
        }
        self.leave();
        self.ret();
        proof {
            assert(self.code@ =~= o + input_int_routine());
        }
        start_pos
    }
}

} // verus!
