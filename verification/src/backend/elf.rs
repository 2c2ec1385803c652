//! ELF64 executable images for the native backend.

use vstd::prelude::*;

use crate::backend::x86_64::encoder::{bits32, le_bytes, le_i32, wrap32};
use crate::errors::ForgeError;
use crate::text::owned;

verus! {

/// Where the image is loaded.
pub open spec fn base_vaddr() -> nat {
    0x400000
}

/// The startup stub: call Main, pass its result to `exit`.
pub open spec fn startup_stub(main_offset: nat) -> Seq<u8> {
    seq![0xE8u8] + le_i32(wrap32(main_offset as int + 12) as i32) + seq![0x48u8, 0x89, 0xC7] + seq![
        0x48u8,
        0xC7,
        0xC0,
        0x3C,
        0x00,
        0x00,
        0x00,
    ] + seq![0x0Fu8, 0x05]
}

/// The ELF header of an image whose file holds `file_size` bytes.
pub open spec fn elf_header() -> Seq<u8> {
    seq![0x7Fu8, 0x45, 0x4C, 0x46, 2, 1, 1, 0] + Seq::new(8, |i: int| 0u8) + le_bytes(2, 2)
        + le_bytes(0x3E, 2) + le_bytes(1, 4) + le_bytes(base_vaddr() + 128, 8) + le_bytes(64, 8)
        + le_bytes(0, 8) + le_bytes(0, 4) + le_bytes(64, 2) + le_bytes(56, 2) + le_bytes(1, 2)
        + le_bytes(64, 2) + le_bytes(0, 2) + le_bytes(0, 2)
}

/// The single loadable, readable, writable and executable segment.
pub open spec fn program_header(file_size: nat) -> Seq<u8> {
    le_bytes(1, 4) + le_bytes(7, 4) + le_bytes(0, 8) + le_bytes(base_vaddr(), 8) + le_bytes(
        base_vaddr(),
        8,
    ) + le_bytes(file_size, 8) + le_bytes(file_size, 8) + le_bytes(0x1000, 8)
}

/// The whole executable image for `user_code` whose Main starts at `main_offset`.
pub open spec fn elf_image(user_code: Seq<u8>, main_offset: nat) -> Seq<u8> {
    elf_header() + program_header(128 + 17 + user_code.len()) + Seq::new(8, |i: int| 0u8)
        + startup_stub(main_offset) + user_code
}

/// The offset recorded for `name` in an offset table, if any (the last entry wins).
pub open spec fn lookup_offset(table: Seq<(String, usize)>, name: Seq<char>) -> Option<usize>
    decreases table.len(),
{
    if table.len() == 0 {
        None
    } else if table.last().0@ == name {
        Some(table.last().1)
    } else {
        lookup_offset(table.drop_last(), name)
    }
}

/// An offset table has an entry for `name` exactly when some entry is named so.
pub proof fn lemma_lookup_offset_found(table: Seq<(String, usize)>, name: Seq<char>)
    ensures
        lookup_offset(table, name) is Some <==> exists|i: int|
            0 <= i < table.len() && (#[trigger] table[i]).0@ == name,
    decreases table.len(),
{
    if table.len() > 0 {
        lemma_lookup_offset_found(table.drop_last(), name);
        if exists|i: int| 0 <= i < table.len() && (#[trigger] table[i]).0@ == name {
            let i = choose|i: int| 0 <= i < table.len() && (#[trigger] table[i]).0@ == name;
            if i < table.len() - 1 {
                assert(table.drop_last()[i] == table[i]);
            }
        }
        if exists|i: int|
            0 <= i < table.drop_last().len() && (#[trigger] table.drop_last()[i]).0@ == name {
            let i = choose|i: int|
                0 <= i < table.drop_last().len() && (#[trigger] table.drop_last()[i]).0@ == name;
            assert(table[i] == table.drop_last()[i]);
        }
    }
}

/// Finds the offset of `name` in an offset table (the last entry wins).
pub fn find_offset(table: &Vec<(String, usize)>, name: &str) -> (r: Option<usize>)
    ensures
        r == lookup_offset(table@, name@),
{
    let mut i: usize = table.len();
    assert(table@.take(table.len() as int) =~= table@);
    while i > 0
        invariant
            i <= table.len(),
            lookup_offset(table@, name@) == lookup_offset(table@.take(i as int), name@),
        decreases i,
    {
        let ghost t = table@.take(i as int);
        assert(t.drop_last() =~= table@.take(i - 1));
        if crate::text::str_eq(table[i - 1].0.as_str(), name) {
            return Some(table[i - 1].1);
        }
        i -= 1;
    }
    None
}

fn push_le(v: &mut Vec<u8>, val: u64, n: usize)
    requires
        n <= 8,
    ensures
        final(v)@ == old(v)@ + le_bytes(val as nat, n as nat),
{
    let mut x: u64 = val;
    let mut i: usize = 0;
    while i < n
        invariant
            i <= n,
            v@ + le_bytes(x as nat, (n - i) as nat) == old(v)@ + le_bytes(val as nat, n as nat),
        decreases n - i,
    {
        let ghost rest = le_bytes(x as nat, (n - i) as nat);
        assert(rest == seq![(x as nat % 256) as u8] + le_bytes(x as nat / 256, (n - i - 1) as nat));
        v.push((x % 256) as u8);
        x = x / 256;
        i = i + 1;
        assert(v@ + le_bytes(x as nat, (n - i) as nat) == old(v)@ + le_bytes(val as nat, n as nat));
    }
    assert(le_bytes(x as nat, 0) == Seq::<u8>::empty());
    assert(v@ == v@ + Seq::<u8>::empty());
}

fn push_all(v: &mut Vec<u8>, bytes: &[u8])
    ensures
        final(v)@ == old(v)@ + bytes@,
{
    let mut i: usize = 0;
    while i < bytes.len()
        invariant
            i <= bytes.len(),
            v@ == old(v)@ + bytes@.take(i as int),
        decreases bytes.len() - i,
    {
        v.push(bytes[i]);
        i += 1;
        assert(bytes@.take(i as int) == bytes@.take((i - 1) as int).push(bytes@[i - 1]));
    }
    assert(bytes@.take(bytes.len() as int) == bytes@);
}

fn push_zeros(v: &mut Vec<u8>, n: usize)
    ensures
        final(v)@ == old(v)@ + Seq::new(n as nat, |i: int| 0u8),
{
    let mut i: usize = 0;
    while i < n
        invariant
            i <= n,
            v@ == old(v)@ + Seq::new(i as nat, |j: int| 0u8),
        decreases n - i,
    {
        v.push(0);
        i += 1;
        assert(v@ =~= old(v)@ + Seq::new(i as nat, |j: int| 0u8));
    }
}

/// Wraps the native code of a program into a static ELF64 executable whose
/// entry stub calls `Main` and exits with its result.
pub fn generate_elf64_executable(user_code: &[u8], func_offsets: &Vec<(String, usize)>) -> (r:
    Result<Vec<u8>, ForgeError>)
    requires
        user_code@.len() + 1000 < usize::MAX,
        user_code@.len() + 1000 < u64::MAX,
    ensures
        match lookup_offset(func_offsets@, "Main"@) {
            Some(main_offset) => r matches Ok(bytes) && bytes@ == elf_image(
                user_code@,
                main_offset as nat,
            ),
            None => r matches Err(e) && e.message@
                == "Cannot generate ELF executable without a 'Main' function"@ && e.line == 0,
        },
{
    let main_offset = match find_offset(func_offsets, "Main") {
        Some(offset) => offset,
        None => {
            return Err(
                ForgeError::codegen(owned("Cannot generate ELF executable without a 'Main' function")),
            );
        },
    };
    // The stub starts right after the 128 header bytes and is 17 bytes long;
    // the call's displacement is relative to the end of the 5-byte call.
    let disp: u64 = ((main_offset as u128 + 12) % 0x1_0000_0000) as u64;
    proof {
        let x = main_offset as int + 12;
        let w = wrap32(x);
        assert(bits32(w as i32 as int) == x % 0x1_0000_0000);
    }
    let mut stub: Vec<u8> = Vec::new();
    stub.push(0xE8);
    push_le(&mut stub, disp, 4);
    push_all(&mut stub, &[0x48, 0x89, 0xC7]);
    push_all(&mut stub, &[0x48, 0xC7, 0xC0, 0x3C, 0x00, 0x00, 0x00]);
    push_all(&mut stub, &[0x0F, 0x05]);
    assert(stub@ =~= startup_stub(main_offset as nat));
    let header_size: u64 = 128;
    let file_size: u64 = header_size + 17 + user_code.len() as u64;
    let base: u64 = 0x400000;
    let entry: u64 = base + header_size;
    let mut elf: Vec<u8> = Vec::new();
    push_all(&mut elf, &[0x7F, 0x45, 0x4C, 0x46, 2, 1, 1, 0]);
    push_zeros(&mut elf, 8);
    push_le(&mut elf, 2, 2);
    push_le(&mut elf, 0x3E, 2);
    push_le(&mut elf, 1, 4);
    push_le(&mut elf, entry, 8);
    push_le(&mut elf, 64, 8);
    push_le(&mut elf, 0, 8);
    push_le(&mut elf, 0, 4);
    push_le(&mut elf, 64, 2);
    push_le(&mut elf, 56, 2);
    push_le(&mut elf, 1, 2);
    push_le(&mut elf, 64, 2);
    push_le(&mut elf, 0, 2);
    push_le(&mut elf, 0, 2);
    push_le(&mut elf, 1, 4);
    push_le(&mut elf, 7, 4);
    push_le(&mut elf, 0, 8);
    push_le(&mut elf, base, 8);
    push_le(&mut elf, base, 8);
    push_le(&mut elf, file_size, 8);
    push_le(&mut elf, file_size, 8);
    push_le(&mut elf, 0x1000, 8);
    push_zeros(&mut elf, 8);
    push_all(&mut elf, stub.as_slice());
    push_all(&mut elf, user_code);
    assert(elf@ =~= elf_image(user_code@, main_offset as nat));
    Ok(elf)
}

} // verus!
