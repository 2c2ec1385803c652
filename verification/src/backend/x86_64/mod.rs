//! The native x86-64 backend: register allocation and code generation from
//! the IR to position-dependent machine code.

pub mod encoder;
pub mod regalloc;

use vstd::prelude::*;

use crate::backend::elf::lookup_offset;
use crate::backend::x86_64::encoder::{
    high1, input_int_routine, le_i32, modrm_rbp, modrm_rr, mov_imm64_code, pow_int_routine, print_int_inline_routine,
    print_int_routine, print_str_routine, rex_rb, rr_code, setcc_code, sysv_arg_regs, wrap32, Encoder, Reg,
};
use crate::backend::x86_64::regalloc::{
    allocate_vregs, allocation_of, blocks_span, func_occ, lemma_blocks_span_mono, function_fits, function_span,
    inst_allocated,
    lemma_inst_allocated, lemma_term_allocated, location_of, operand_allocated, term_allocated, vreg_location,
    valid_location, Allocation, VRegLocation, MAX_SPILL_SLOTS,
};
use crate::errors::ForgeError;
use crate::ir::{InputKind, IrBinOp, IrFunction, IrInst, IrProgram, IrTerminator, Operand, PrintKind};
use crate::text::{concat, decimal_string};

verus! {

broadcast use crate::backend::x86_64::encoder::lemma_le_bytes_len;

/// The native backend's state: the code emitted so far and the offset of each
/// function compiled so far.
pub struct NativeX86Backend {
    pub encoder: Encoder,
    pub func_offsets: Vec<(String, usize)>,
}

/// The runtime routines appended after the compiled functions.
#[derive(Clone, Copy, PartialEq, Eq, Structural)]
pub enum HelperKind {
    PrintStr,
    PrintInt,
    PrintIntInline,
    PowInt,
    InputInt,
}

/// Displacements and pointers still to be filled in once their targets are known.
struct Pending {
    /// Call displacements and the function each calls.
    calls: Vec<(usize, String)>,
    /// Call displacements of runtime routines.
    helpers: Vec<(usize, HelperKind)>,
    /// Pointer immediates and the string literal each points at.
    strings: Vec<(usize, usize)>,
    /// The string literals, each stored once.
    literals: Vec<String>,
}

/// The offsets recorded for `n` functions after the first `base` entries:
/// the first is `start`, and each lies before the next.
pub open spec fn offsets_ascending(offs: Seq<(String, usize)>, base: int, n: int, start: nat) -> bool {
    &&& n > 0 ==> offs[base].1 == start
    &&& forall|h: int| 0 <= h && h + 1 < n ==> (#[trigger] offs[base + h]).1 < offs[base + h + 1].1
}

/// `push rbp; mov rbp, rsp`, with which every compiled function begins.
pub open spec fn prologue_code() -> Seq<u8> {
    seq![0x55u8, 0x48, 0x89, 0xE5]
}

/// `b` agrees with `a` on the first `l` bytes.
pub open spec fn same_below(a: Seq<u8>, b: Seq<u8>, l: int) -> bool {
    &&& l <= a.len()
    &&& l <= b.len()
    &&& forall|i: int| 0 <= i < l ==> #[trigger] b[i] == a[i]
}

/// Each of the `n` functions after the first `base` offsets begins with the
/// prologue.
pub open spec fn prologues_at(code: Seq<u8>, offs: Seq<(String, usize)>, base: int, n: int) -> bool {
    forall|h: int|
        0 <= h < n ==> (#[trigger] offs[base + h]).1 + 4 <= code.len() && code.subrange(
            offs[base + h].1 as int,
            offs[base + h].1 + 4,
        ) == prologue_code()
}

/// No recorded patch touches the prologue of one of those functions.
spec fn clear_of_prologues(p: Pending, offs: Seq<(String, usize)>, base: int, n: int) -> bool {
    &&& forall|i: int, h: int|
        0 <= i < p.calls@.len() && 0 <= h < n ==> apart(
            (#[trigger] p.calls@[i]).0 as int,
            4,
            (#[trigger] offs[base + h]).1 as int,
            4,
        )
    &&& forall|i: int, h: int|
        0 <= i < p.helpers@.len() && 0 <= h < n ==> apart(
            (#[trigger] p.helpers@[i]).0 as int,
            4,
            (#[trigger] offs[base + h]).1 as int,
            4,
        )
    &&& forall|i: int, h: int|
        0 <= i < p.strings@.len() && 0 <= h < n ==> apart(
            (#[trigger] p.strings@[i]).0 as int,
            8,
            (#[trigger] offs[base + h]).1 as int,
            4,
        )
}

/// The displacement of a call, recorded at `site`, of the function `name`:
/// from the end of the displacement to the function's offset.
pub open spec fn call_disp(offs: Seq<(String, usize)>, site: usize, name: Seq<char>) -> i32 {
    wrap32(lookup_offset(offs, name)->0 - (site + 4)) as i32
}

/// The first `k` calls carry the displacement of the function each names.
pub open spec fn calls_patched(code: Seq<u8>, calls: Seq<(usize, String)>, offs: Seq<(String, usize)>, k: int) -> bool {
    forall|c: int|
        0 <= c < k ==> (#[trigger] calls[c]).0 + 4 <= code.len() && code.subrange(
            calls[c].0 as int,
            calls[c].0 + 4,
        ) == le_i32(call_disp(offs, calls[c].0, calls[c].1@))
}

/// Where each runtime routine starts, from the start of the first.
pub open spec fn routine_offset(k: HelperKind) -> int {
    match k {
        HelperKind::PrintStr => 0,
        HelperKind::PrintInt => 62,
        HelperKind::PrintIntInline => 265,
        HelperKind::PowInt => 465,
        HelperKind::InputInt => 522,
    }
}

/// The runtime routines, one after another.
pub open spec fn runtime_routines() -> Seq<u8> {
    print_str_routine() + print_int_routine() + print_int_inline_routine() + pow_int_routine()
        + input_int_routine()
}

/// The displacement of a runtime call recorded at `site`, when the
/// routines start at `routines`.
pub open spec fn helper_disp(routines: int, site: usize, k: HelperKind) -> i32 {
    wrap32(routines + routine_offset(k) - (site + 4)) as i32
}

/// The first `k` runtime calls reach the routine of their kind.
pub open spec fn helpers_patched(code: Seq<u8>, helpers: Seq<(usize, HelperKind)>, routines: int, k: int) -> bool {
    forall|c: int|
        0 <= c < k ==> (#[trigger] helpers[c]).0 + 4 <= code.len() && code.subrange(
            helpers[c].0 as int,
            helpers[c].0 + 4,
        ) == le_i32(helper_disp(routines, helpers[c].0, helpers[c].1))
}

/// The state of the code once the routines are in place: the routines at
/// `f_end`, every patch before them and clear of the functions' prologues,
/// every call displacement filled in, and the first `hk` runtime calls.
spec fn image_ok(
    code: Seq<u8>,
    p: Pending,
    offs: Seq<(String, usize)>,
    base: int,
    n: int,
    f_end: int,
    hk: int,
) -> bool {
    &&& 0 <= f_end
    &&& f_end + 682 <= code.len()
    &&& code.subrange(f_end, f_end + 682) == runtime_routines()
    &&& pending_ok(p, f_end as nat)
    &&& prologues_at(code, offs, base, n)
    &&& clear_of_prologues(p, offs, base, n)
    &&& calls_patched(code, p.calls@, offs, p.calls@.len() as int)
    &&& helpers_patched(code, p.helpers@, f_end, hk)
}

/// Writing `v` at a patch before the routines and clear of the prologues
/// keeps the routines, the prologues, and every filled-in displacement apart
/// from it.
proof fn lemma_patch_image(
    code: Seq<u8>,
    pos: int,
    v: Seq<u8>,
    p: Pending,
    offs: Seq<(String, usize)>,
    base: int,
    n: int,
    f_end: int,
    hk: int,
)
    requires
        image_ok(code, p, offs, base, n, f_end, hk),
        0 <= pos,
        pos + v.len() <= f_end,
        forall|h: int| 0 <= h < n ==> apart(pos, v.len() as int, (#[trigger] offs[base + h]).1 as int, 4),
        forall|c: int| 0 <= c < p.calls@.len() ==> apart(pos, v.len() as int, (#[trigger] p.calls@[c]).0 as int, 4),
        forall|c: int| 0 <= c < hk ==> apart(pos, v.len() as int, (#[trigger] p.helpers@[c]).0 as int, 4),
    ensures
        ({
            let nc = code.subrange(0, pos) + v + code.subrange(pos + v.len(), code.len() as int);
            &&& nc.len() == code.len()
            &&& nc.subrange(f_end, f_end + 682) == runtime_routines()
            &&& prologues_at(nc, offs, base, n)
            &&& calls_patched(nc, p.calls@, offs, p.calls@.len() as int)
            &&& helpers_patched(nc, p.helpers@, f_end, hk)
        }),
{
    lemma_patch_keeps(code, pos, v, f_end, 682);
    let nc = code.subrange(0, pos) + v + code.subrange(pos + v.len(), code.len() as int);
    assert forall|h: int| 0 <= h < n implies (#[trigger] offs[base + h]).1 + 4 <= nc.len() && nc.subrange(
        offs[base + h].1 as int,
        offs[base + h].1 + 4,
    ) == prologue_code() by {
        lemma_patch_keeps(code, pos, v, offs[base + h].1 as int, 4);
    }
    assert forall|c: int| 0 <= c < p.calls@.len() implies (#[trigger] p.calls@[c]).0 + 4 <= nc.len()
        && nc.subrange(p.calls@[c].0 as int, p.calls@[c].0 + 4) == le_i32(
        call_disp(offs, p.calls@[c].0, p.calls@[c].1@),
    ) by {
        lemma_patch_keeps(code, pos, v, p.calls@[c].0 as int, 4);
    }
    assert forall|c: int| 0 <= c < hk implies (#[trigger] p.helpers@[c]).0 + 4 <= nc.len() && nc.subrange(
        p.helpers@[c].0 as int,
        p.helpers@[c].0 + 4,
    ) == le_i32(helper_disp(f_end, p.helpers@[c].0, p.helpers@[c].1)) by {
        lemma_patch_keeps(code, pos, v, p.helpers@[c].0 as int, 4);
    }
}

/// Appending keeps the state of the code.
proof fn lemma_append_image(
    code: Seq<u8>,
    r: Seq<u8>,
    p: Pending,
    offs: Seq<(String, usize)>,
    base: int,
    n: int,
    f_end: int,
    hk: int,
)
    requires
        image_ok(code, p, offs, base, n, f_end, hk),
    ensures
        image_ok(code + r, p, offs, base, n, f_end, hk),
{
    let nc = code + r;
    lemma_append_keeps(code, r, f_end, 682);
    assert forall|h: int| 0 <= h < n implies (#[trigger] offs[base + h]).1 + 4 <= nc.len() && nc.subrange(
        offs[base + h].1 as int,
        offs[base + h].1 + 4,
    ) == prologue_code() by {
        lemma_append_keeps(code, r, offs[base + h].1 as int, 4);
    }
    assert forall|c: int| 0 <= c < p.calls@.len() implies (#[trigger] p.calls@[c]).0 + 4 <= nc.len()
        && nc.subrange(p.calls@[c].0 as int, p.calls@[c].0 + 4) == le_i32(
        call_disp(offs, p.calls@[c].0, p.calls@[c].1@),
    ) by {
        lemma_append_keeps(code, r, p.calls@[c].0 as int, 4);
    }
    assert forall|c: int| 0 <= c < hk implies (#[trigger] p.helpers@[c]).0 + 4 <= nc.len() && nc.subrange(
        p.helpers@[c].0 as int,
        p.helpers@[c].0 + 4,
    ) == le_i32(helper_disp(f_end, p.helpers@[c].0, p.helpers@[c].1)) by {
        lemma_append_keeps(code, r, p.helpers@[c].0 as int, 4);
    }
}

/// How the code of a compiled program is laid out: the functions, with a
/// call displacement at each site in `calls` (one site, at least, for every
/// function a call instruction of `ir` names) reaching the function it
/// names; then the runtime routines at `routines`, each call site of one in
/// `helpers` reaching the routine of its kind.
pub open spec fn program_image(
    code: Seq<u8>,
    offsets: Seq<(String, usize)>,
    ir: IrProgram,
    base: int,
    routines: int,
    calls: Seq<(usize, String)>,
    helpers: Seq<(usize, HelperKind)>,
) -> bool {
    &&& 0 <= routines
    &&& routines + 682 <= code.len()
    &&& code.subrange(routines, routines + 682) == runtime_routines()
    &&& forall|g: int| 0 <= g < ir.functions@.len() ==> (#[trigger] offsets[base + g]).1 < routines
    &&& forall|c: int| 0 <= c < calls.len() ==> (#[trigger] calls[c]).0 + 4 <= routines
    &&& calls_patched(code, calls, offsets, calls.len() as int)
    &&& forall|h: int, b: int, j: int|
        0 <= h < ir.functions@.len() && 0 <= b < ir.functions@[h].blocks@.len() && 0 <= j
            < ir.functions@[h].blocks@[b].insts@.len() && (#[trigger] ir.functions@[h].blocks@[b].insts@[j]) is Call
            ==> call_recorded(calls, call_target(ir.functions@[h].blocks@[b].insts@[j])->0)
    &&& forall|c: int| 0 <= c < helpers.len() ==> (#[trigger] helpers[c]).0 + 4 <= routines
    &&& helpers_patched(code, helpers, routines, helpers.len() as int)
}

/// Writing `v` over the bytes at `p` leaves any range apart from them as it was.
proof fn lemma_patch_keeps(code: Seq<u8>, p: int, v: Seq<u8>, q: int, u: int)
    requires
        0 <= p,
        p + v.len() <= code.len(),
        0 <= q,
        0 <= u,
        q + u <= code.len(),
        apart(p, v.len() as int, q, u),
    ensures
        (code.subrange(0, p) + v + code.subrange(p + v.len(), code.len() as int)).subrange(q, q + u)
            == code.subrange(q, q + u),
{
    let n = code.subrange(0, p) + v + code.subrange(p + v.len(), code.len() as int);
    assert(n.len() == code.len());
    assert forall|i: int| 0 <= i < u implies #[trigger] n.subrange(q, q + u)[i] == code.subrange(q, q + u)[i] by {
        assert(n.subrange(q, q + u)[i] == n[q + i]);
        assert(code.subrange(q, q + u)[i] == code[q + i]);
        if q + i < p {
            assert(n[q + i] == code.subrange(0, p)[q + i]);
        } else {
            assert(q + i >= p + v.len());
            assert(n[q + i] == code.subrange(p + v.len(), code.len() as int)[q + i - p - v.len()]);
        }
    }
    assert(n.subrange(q, q + u) =~= code.subrange(q, q + u));
}

/// Writing `v` at `p` puts `v` there.
proof fn lemma_patch_here(code: Seq<u8>, p: int, v: Seq<u8>)
    requires
        0 <= p,
        p + v.len() <= code.len(),
    ensures
        (code.subrange(0, p) + v + code.subrange(p + v.len(), code.len() as int)).subrange(p, p + v.len()) == v,
{
    let n = code.subrange(0, p) + v + code.subrange(p + v.len(), code.len() as int);
    assert(n.subrange(p, p + v.len()) =~= v);
}

/// Code that keeps the bytes of `a` as its beginning keeps every range of them.
proof fn lemma_prefix_keeps(a: Seq<u8>, b: Seq<u8>, q: int, u: int)
    requires
        keeps_prefix(a, b),
        0 <= q,
        0 <= u,
        q + u <= a.len(),
    ensures
        b.subrange(q, q + u) == a.subrange(q, q + u),
{
    assert forall|i: int| 0 <= i < u implies #[trigger] b.subrange(q, q + u)[i] == a.subrange(q, q + u)[i] by {
        assert(b[q + i] == a[q + i]);
    }
    assert(b.subrange(q, q + u) =~= a.subrange(q, q + u));
}

/// Appending leaves every earlier range as it was.
proof fn lemma_append_keeps(code: Seq<u8>, r: Seq<u8>, q: int, u: int)
    requires
        0 <= q,
        0 <= u,
        q + u <= code.len(),
    ensures
        (code + r).subrange(q, q + u) == code.subrange(q, q + u),
{
    assert forall|i: int| 0 <= i < u implies #[trigger] (code + r).subrange(q, q + u)[i] == code.subrange(q, q + u)[i] by {
        assert((code + r)[q + i] == code[q + i]);
    }
    assert((code + r).subrange(q, q + u) =~= code.subrange(q, q + u));
}

/// Whether two byte ranges, at `p` of `w` bytes and at `q` of `v` bytes, do
/// not overlap.
pub open spec fn apart(p: int, w: int, q: int, v: int) -> bool {
    p + w <= q || q + v <= p
}

/// Whether no two recorded patches overlap.
spec fn regions_apart(p: Pending) -> bool {
    &&& forall|i: int, j: int|
        0 <= i < p.calls@.len() && 0 <= j < p.calls@.len() && i != j ==> apart(
            (#[trigger] p.calls@[i]).0 as int,
            4,
            (#[trigger] p.calls@[j]).0 as int,
            4,
        )
    &&& forall|i: int, j: int|
        0 <= i < p.helpers@.len() && 0 <= j < p.helpers@.len() && i != j ==> apart(
            (#[trigger] p.helpers@[i]).0 as int,
            4,
            (#[trigger] p.helpers@[j]).0 as int,
            4,
        )
    &&& forall|i: int, j: int|
        0 <= i < p.strings@.len() && 0 <= j < p.strings@.len() && i != j ==> apart(
            (#[trigger] p.strings@[i]).0 as int,
            8,
            (#[trigger] p.strings@[j]).0 as int,
            8,
        )
    &&& forall|i: int, j: int|
        0 <= i < p.calls@.len() && 0 <= j < p.helpers@.len() ==> apart(
            (#[trigger] p.calls@[i]).0 as int,
            4,
            (#[trigger] p.helpers@[j]).0 as int,
            4,
        )
    &&& forall|i: int, j: int|
        0 <= i < p.calls@.len() && 0 <= j < p.strings@.len() ==> apart(
            (#[trigger] p.calls@[i]).0 as int,
            4,
            (#[trigger] p.strings@[j]).0 as int,
            8,
        )
    &&& forall|i: int, j: int|
        0 <= i < p.helpers@.len() && 0 <= j < p.strings@.len() ==> apart(
            (#[trigger] p.helpers@[i]).0 as int,
            4,
            (#[trigger] p.strings@[j]).0 as int,
            8,
        )
}

/// `n` keeps the patches recorded in `o`, and records new ones at `lo` or
/// later.
spec fn pending_after(o: Pending, n: Pending, lo: nat) -> bool {
    &&& o.calls@.len() <= n.calls@.len()
    &&& o.helpers@.len() <= n.helpers@.len()
    &&& o.strings@.len() <= n.strings@.len()
    &&& forall|i: int| 0 <= i < o.calls@.len() ==> #[trigger] n.calls@[i] == o.calls@[i]
    &&& forall|i: int| 0 <= i < o.helpers@.len() ==> #[trigger] n.helpers@[i] == o.helpers@[i]
    &&& forall|i: int| 0 <= i < o.strings@.len() ==> #[trigger] n.strings@[i] == o.strings@[i]
    &&& forall|i: int| o.calls@.len() <= i < n.calls@.len() ==> (#[trigger] n.calls@[i]).0 >= lo
    &&& forall|i: int| o.helpers@.len() <= i < n.helpers@.len() ==> (#[trigger] n.helpers@[i]).0 >= lo
    &&& forall|i: int| o.strings@.len() <= i < n.strings@.len() ==> (#[trigger] n.strings@[i]).0 >= lo
}

proof fn lemma_pending_after_trans(a: Pending, b: Pending, c: Pending, lo: nat, mid: nat)
    requires
        pending_after(a, b, lo),
        pending_after(b, c, mid),
        lo <= mid,
    ensures
        pending_after(a, c, lo),
{
    assert forall|i: int| a.calls@.len() <= i < c.calls@.len() implies (#[trigger] c.calls@[i]).0 >= lo by {
        if i < b.calls@.len() {
            assert(c.calls@[i] == b.calls@[i]);
        }
    }
    assert forall|i: int| a.helpers@.len() <= i < c.helpers@.len() implies (#[trigger] c.helpers@[i]).0 >= lo by {
        if i < b.helpers@.len() {
            assert(c.helpers@[i] == b.helpers@[i]);
        }
    }
    assert forall|i: int| a.strings@.len() <= i < c.strings@.len() implies (#[trigger] c.strings@[i]).0 >= lo by {
        if i < b.strings@.len() {
            assert(c.strings@[i] == b.strings@[i]);
        }
    }
}

/// Whether every recorded patch lies within `len` bytes of code, and no two
/// overlap.
spec fn pending_ok(p: Pending, len: nat) -> bool {
    &&& regions_apart(p)
    &&& forall|i: int| 0 <= i < p.calls@.len() ==> (#[trigger] p.calls@[i]).0 + 4 <= len
    &&& forall|i: int| 0 <= i < p.helpers@.len() ==> (#[trigger] p.helpers@[i]).0 + 4 <= len
    &&& forall|i: int|
        0 <= i < p.strings@.len() ==> (#[trigger] p.strings@[i]).0 + 8 <= len && p.strings@[i].1
            < p.literals@.len()
}

/// Whether the native backend can compile an instruction: parameters and call
/// arguments travel in the six System V argument registers, and only integers
/// can be read from standard input.
pub open spec fn inst_compilable(inst: IrInst) -> bool {
    match inst {
        IrInst::Param { index, .. } => index < 6,
        IrInst::Input { kind, .. } => kind == InputKind::Int,
        IrInst::Call { args, .. } => args@.len() <= 6,
        _ => true,
    }
}

/// The labels a terminator may jump to.
pub open spec fn term_targets(t: IrTerminator) -> Seq<Seq<char>> {
    match t {
        IrTerminator::Jump(l) => seq![l@],
        IrTerminator::Branch { true_label, false_label, .. } => seq![true_label@, false_label@],
        IrTerminator::Ret(_) => seq![],
    }
}

/// Whether some block of `f` carries label `l`.
pub open spec fn has_label(f: IrFunction, l: Seq<char>) -> bool {
    exists|b: int| 0 <= b < f.blocks@.len() && (#[trigger] f.blocks@[b]).label@ == l
}

/// Whether the native backend can compile a function on its own: its
/// positions can be counted in a `usize` and it is sound (`function_sound`).
pub open spec fn function_compilable(f: IrFunction) -> bool {
    &&& function_fits(f)
    &&& function_sound(f)
}

/// Whether each instruction of a function is supported and each jump names a
/// block of the function.
pub open spec fn function_sound(f: IrFunction) -> bool {
    &&& forall|b: int, i: int|
        0 <= b < f.blocks@.len() && 0 <= i < f.blocks@[b].insts@.len() ==> inst_compilable(
            #[trigger] f.blocks@[b].insts@[i],
        )
    &&& forall|b: int, t: int|
        0 <= b < f.blocks@.len() && 0 <= t < term_targets(f.blocks@[b].terminator).len()
            ==> has_label(f, #[trigger] term_targets(f.blocks@[b].terminator)[t])
}

/// Whether `name` is the name of a function listed in `offsets` or of a
/// function of `ir`.
pub open spec fn function_known(
    ir: IrProgram,
    offsets: Seq<(String, usize)>,
    name: Seq<char>,
) -> bool {
    ||| exists|i: int| 0 <= i < offsets.len() && (#[trigger] offsets[i]).0@ == name
    ||| exists|g: int| 0 <= g < ir.functions@.len() && (#[trigger] ir.functions@[g]).name@ == name
}

/// The function a call instruction names.
pub open spec fn call_target(inst: IrInst) -> Option<Seq<char>> {
    match inst {
        IrInst::Call { func, .. } => Some(func@),
        _ => None,
    }
}

/// Whether every call of `ir` names a known function.
pub open spec fn calls_resolve(ir: IrProgram, offsets: Seq<(String, usize)>) -> bool {
    forall|g: int, b: int, i: int|
        0 <= g < ir.functions@.len() && 0 <= b < ir.functions@[g].blocks@.len() && 0 <= i
            < ir.functions@[g].blocks@[b].insts@.len() && (#[trigger] ir.functions@[g].blocks@[
            b].insts@[i]) is Call ==> function_known(
            ir,
            offsets,
            call_target(ir.functions@[g].blocks@[b].insts@[i])->0,
        )
}

/// Whether every function of `ir` is sound and every call names a known
/// function, given the functions compiled before it.
pub open spec fn program_sound(ir: IrProgram, offsets: Seq<(String, usize)>) -> bool {
    &&& forall|g: int| 0 <= g < ir.functions@.len() ==> function_sound(#[trigger] ir.functions@[g])
    &&& calls_resolve(ir, offsets)
}

/// Whether the native backend compiles `ir`, given the functions compiled
/// before it.
pub open spec fn program_compilable(ir: IrProgram, offsets: Seq<(String, usize)>) -> bool {
    &&& forall|g: int| 0 <= g < ir.functions@.len() ==> function_compilable(#[trigger] ir.functions@[g])
    &&& calls_resolve(ir, offsets)
}

/// Whether some instruction of a run calls `name`.
pub open spec fn insts_call(insts: Seq<IrInst>, name: Seq<char>) -> bool {
    exists|j: int| 0 <= j < insts.len() && call_target(#[trigger] insts[j]) == Some(name)
}

/// Whether some instruction of some block calls `name`.
pub open spec fn blocks_call(bs: Seq<crate::ir::BasicBlock>, name: Seq<char>) -> bool {
    exists|b: int, j: int|
        0 <= b < bs.len() && 0 <= j < bs[b].insts@.len() && call_target(#[trigger] bs[b].insts@[j])
            == Some(name)
}

/// Whether a call of `name` was recorded.
pub open spec fn call_recorded(calls: Seq<(usize, String)>, name: Seq<char>) -> bool {
    exists|x: int| 0 <= x < calls.len() && (#[trigger] calls[x]).1@ == name
}

/// Whether a jump to `label` was recorded.
spec fn jump_recorded(jumps: Seq<(usize, String)>, label: Seq<char>) -> bool {
    exists|x: int| 0 <= x < jumps.len() && (#[trigger] jumps[x]).1@ == label
}

/// Whether `label` is a jump target of one of the first `n` blocks.
spec fn is_target(bs: Seq<crate::ir::BasicBlock>, n: int, label: Seq<char>) -> bool {
    exists|bb: int, t: int|
        0 <= bb < n && 0 <= t < term_targets(bs[bb].terminator).len()
            && #[trigger] term_targets(bs[bb].terminator)[t] == label
}

/// Whether some instruction of `ir` calls `name`.
pub open spec fn program_calls(ir: IrProgram, name: Seq<char>) -> bool {
    exists|h: int, b: int, j: int|
        0 <= h < ir.functions@.len() && 0 <= b < ir.functions@[h].blocks@.len() && 0 <= j
            < ir.functions@[h].blocks@[b].insts@.len() && call_target(
            #[trigger] ir.functions@[h].blocks@[b].insts@[j],
        ) == Some(name)
}

/// With `offsets` the functions before `ir` followed by those of `ir`, a name
/// has an offset exactly when the function is known.
proof fn lemma_offsets_known(
    ir: IrProgram,
    base: Seq<(String, usize)>,
    offsets: Seq<(String, usize)>,
    name: Seq<char>,
)
    requires
        offsets.len() == base.len() + ir.functions@.len(),
        forall|i: int| 0 <= i < base.len() ==> #[trigger] offsets[i] == base[i],
        forall|h: int|
            0 <= h < ir.functions@.len() ==> (#[trigger] offsets[base.len() + h]).0@
                == ir.functions@[h].name@,
    ensures
        lookup_offset(offsets, name) is Some <==> function_known(ir, base, name),
{
    crate::backend::elf::lemma_lookup_offset_found(offsets, name);
    if exists|i: int| 0 <= i < offsets.len() && (#[trigger] offsets[i]).0@ == name {
        let i = choose|i: int| 0 <= i < offsets.len() && (#[trigger] offsets[i]).0@ == name;
        if i < base.len() {
            assert(base[i].0@ == name);
        } else {
            assert(offsets[base.len() + (i - base.len())].0@ == ir.functions@[i - base.len()].name@);
        }
    }
    if function_known(ir, base, name) {
        if exists|i: int| 0 <= i < base.len() && (#[trigger] base[i]).0@ == name {
            let i = choose|i: int| 0 <= i < base.len() && (#[trigger] base[i]).0@ == name;
            assert(offsets[i].0@ == name);
        } else {
            let h = choose|h: int| 0 <= h < ir.functions@.len() && (#[trigger] ir.functions@[h]).name@ == name;
            assert(offsets[base.len() + h].0@ == name);
        }
    }
}

/// Overwrites eight bytes at `pos` with `val`, little-endian.
fn patch_u64_le(code: &mut Vec<u8>, pos: usize, val: u64)
    requires
        pos + 8 <= old(code)@.len(),
    ensures
        final(code)@.len() == old(code)@.len(),
        final(code)@ == old(code)@.subrange(0, pos as int) + crate::backend::x86_64::encoder::le_bytes(
            val as nat,
            8,
        ) + old(code)@.subrange(pos + 8, old(code)@.len() as int),
{
    let mut k: usize = 0;
    let mut rest: u64 = val;
    proof {
        assert(code@.subrange(pos as int, pos as int) + crate::backend::x86_64::encoder::le_bytes(rest as nat, 8)
            =~= crate::backend::x86_64::encoder::le_bytes(val as nat, 8));
    }
    while k < 8
        invariant
            k <= 8,
            pos + 8 <= code.len(),
            code@.len() == old(code)@.len(),
            forall|j: int|
                0 <= j < code@.len() && (j < pos || pos + 8 <= j) ==> code@[j] == old(code)@[j],
            code@.subrange(pos as int, pos + k) + crate::backend::x86_64::encoder::le_bytes(
                rest as nat,
                (8 - k) as nat,
            ) == crate::backend::x86_64::encoder::le_bytes(val as nat, 8),
        decreases 8 - k,
    {
        let ghost before = code@.subrange(pos as int, pos + k);
        let ghost r0 = rest;
        code.set(pos + k, (rest % 256) as u8);
        rest = rest / 256;
        k += 1;
        proof {
            assert(code@.subrange(pos as int, pos + k) =~= before.push(((r0 as nat) % 256) as u8));
            assert(crate::backend::x86_64::encoder::le_bytes(r0 as nat, (8 - (k - 1)) as nat)
                == seq![((r0 as nat) % 256) as u8] + crate::backend::x86_64::encoder::le_bytes(
                (r0 as nat) / 256,
                (8 - k) as nat,
            ));
            assert(before.push(((r0 as nat) % 256) as u8) + crate::backend::x86_64::encoder::le_bytes(
                rest as nat,
                (8 - k) as nat,
            ) =~= before + (seq![((r0 as nat) % 256) as u8] + crate::backend::x86_64::encoder::le_bytes(
                (r0 as nat) / 256,
                (8 - k) as nat,
            )));
        }
    }
    proof {
        assert(code@.subrange(pos as int, pos + 8) =~= crate::backend::x86_64::encoder::le_bytes(val as nat, 8));
        assert(code@ =~= old(code)@.subrange(0, pos as int) + crate::backend::x86_64::encoder::le_bytes(val as nat, 8)
            + old(code)@.subrange(pos + 8, old(code)@.len() as int));
    }
}

/// Finds the id of a string literal, storing it first if it is new.
fn get_or_insert_string(val: &str, literals: &mut Vec<String>) -> (id: usize)
    ensures
        id < final(literals)@.len(),
        final(literals)@[id as int]@ == val@,
        old(literals)@.len() <= final(literals)@.len() <= old(literals)@.len() + 1,
        forall|i: int| 0 <= i < old(literals)@.len() ==> final(literals)@[i] == old(literals)@[i],
{
    let mut i: usize = 0;
    while i < literals.len()
        invariant
            i <= literals@.len(),
            literals@ == old(literals)@,
        decreases literals.len() - i,
    {
        if crate::text::str_eq(literals[i].as_str(), val) {
            return i;
        }
        i += 1;
    }
    literals.push(crate::text::owned(val));
    i
}

/// Emits `mov rdi, imm64` with a zero immediate and returns the immediate's
/// position.
fn emit_mov_rdi_string_ptr(encoder: &mut Encoder) -> (p: usize)
    ensures
        p == old(encoder).code@.len() + 2,
        final(encoder).code@.len() == old(encoder).code@.len() + 10,
        final(encoder).code@ == old(encoder).code@ + mov_imm64_code(Reg::RDI, 0),
{
    let ext = Reg::RDI.is_ext();
    let low = Reg::RDI.code();
    let rex = 0x48 | ext;
    let opcode = 0xB8 | low;
    proof {
        assert(ext == 0 && low == 7);
        assert(rex == 0x48u8) by (bit_vector)
            requires
                rex == 0x48u8 | ext,
                ext == 0u8,
        ;
        assert(opcode == 0xBFu8) by (bit_vector)
            requires
                opcode == 0xB8u8 | low,
                low == 7u8,
        ;
    }
    encoder.emit_byte(rex);
    encoder.emit_byte(opcode);
    let patch_pos = encoder.len();
    encoder.emit_u64_le(0);
    proof {
        crate::backend::x86_64::encoder::lemma_le_bytes_len(0, 8);
        assert(crate::backend::x86_64::encoder::bits64(0) == 0);
        assert(mov_imm64_code(Reg::RDI, 0) =~= seq![0x48u8, 0xBFu8] + crate::backend::x86_64::encoder::le_bytes(0, 8));
    }
    patch_pos
}

/// Encoding of `mov [rbp - disp], src`.
pub open spec fn store_code(disp: i32, src: Reg) -> Seq<u8> {
    seq![(0x48 + 4 * high1(src)) as u8, 0x89u8, modrm_rbp(src)] + le_i32((-disp) as i32)
}

/// Encoding of `mov dst, [rbp - disp]`.
pub open spec fn load_code(dst: Reg, disp: i32) -> Seq<u8> {
    seq![(0x48 + 4 * high1(dst)) as u8, 0x8Bu8, modrm_rbp(dst)] + le_i32((-disp) as i32)
}

/// Encoding of `mov dst, src`, nothing where they are the same register.
pub open spec fn move_code(dst: Reg, src: Reg) -> Seq<u8> {
    if src != dst {
        rr_code(0x89, dst, src)
    } else {
        seq![]
    }
}

/// The code that puts an operand's value in `dst`.
pub open spec fn load_operand_code(dst: Reg, op: Operand, a: Allocation) -> Seq<u8> {
    match op {
        Operand::Const(v) => mov_imm64_code(dst, v),
        Operand::Reg(vreg) => match vreg_location(a, vreg) {
            VRegLocation::Reg(src) => move_code(dst, src),
            VRegLocation::Spill(disp) => load_code(dst, disp),
        },
    }
}

/// The code that stores `src` in the location of a virtual register.
pub open spec fn store_vreg_code(vreg: usize, src: Reg, a: Allocation) -> Seq<u8> {
    match vreg_location(a, vreg) {
        VRegLocation::Reg(dst) => move_code(dst, src),
        VRegLocation::Spill(disp) => store_code(disp, src),
    }
}

/// Encoding of a two-register arithmetic or logic operation.
pub open spec fn alu_code(op: IrBinOp, dst: Reg, src: Reg) -> Seq<u8> {
    match op {
        IrBinOp::Add => rr_code(0x01, dst, src),
        IrBinOp::Sub => rr_code(0x29, dst, src),
        IrBinOp::Mul => seq![rex_rb(dst, src), 0x0Fu8, 0xAFu8, modrm_rr(dst, src)],
        IrBinOp::And => rr_code(0x21, dst, src),
        IrBinOp::Or => rr_code(0x09, dst, src),
        _ => rr_code(0x31, dst, src),
    }
}

/// The `setcc` opcode of a comparison.
pub open spec fn setcc_opcode(op: IrBinOp) -> u8 {
    match op {
        IrBinOp::Eq => 0x94,
        IrBinOp::Ne => 0x95,
        IrBinOp::Lt => 0x9C,
        IrBinOp::Ge => 0x9D,
        IrBinOp::Le => 0x9E,
        _ => 0x9F,
    }
}

/// Whether the condition of a `setcc` opcode holds after `cmp` has compared
/// a first operand `a` with a second `b` as signed numbers (the flags of
/// `a - b`): `sete` (0x94) when they are equal, `setne` (0x95) when they
/// differ, `setl` (0x9C) when `a < b`, `setge` (0x9D) when `a >= b`, `setle`
/// (0x9E) when `a <= b` and `setg` (0x9F) when `a > b`.
pub open spec fn condition_holds(cc: u8, a: int, b: int) -> bool {
    if cc == 0x94 {
        a == b
    } else if cc == 0x95 {
        a != b
    } else if cc == 0x9C {
        a < b
    } else if cc == 0x9D {
        a >= b
    } else if cc == 0x9E {
        a <= b
    } else if cc == 0x9F {
        a > b
    } else {
        false
    }
}

/// The `setcc` a comparison compiles to tests that very comparison: after
/// `cmp` of any two operands, its condition holds exactly when the IR
/// comparison gives 1.
pub proof fn lemma_setcc_meaning(op: IrBinOp, a: int, b: int)
    requires
        crate::ir::ir_comparison(op),
    ensures
        crate::ir::ir_value(op, a, b) == Some(crate::ast::truth_value(condition_holds(setcc_opcode(op), a, b))),
{
}

/// Distinct comparisons compile to distinct `setcc` opcodes.
pub proof fn lemma_setcc_distinct(op1: IrBinOp, op2: IrBinOp)
    requires
        crate::ir::ir_comparison(op1),
        crate::ir::ir_comparison(op2),
        op1 != op2,
    ensures
        setcc_opcode(op1) != setcc_opcode(op2),
{
}

/// Whether a function's frame surely stays within the reach of the signed
/// 32-bit displacements that address it: the six saved registers, then one
/// 8-byte slot per spilled register (at most one per register occurrence)
/// and per variable (at most one per instruction).
pub open spec fn frame_certain(f: IrFunction) -> bool {
    48 + 8 * (func_occ(f).len() + blocks_span(f.blocks@)) <= 0x7fff_ffff
}

/// The diagnostic for a function whose positions cannot be counted in a
/// `usize`.
pub open spec fn too_large_message(name: Seq<char>) -> Seq<char> {
    "Function '"@ + name + "' is too large for the native backend"@
}

/// A frame within the reach of 32-bit displacements leaves the positions of
/// the function countable.
proof fn lemma_certain_fits(f: IrFunction)
    requires
        frame_certain(f),
    ensures
        function_fits(f),
{
    lemma_blocks_span_mono(f.blocks@, f.blocks@.len() as int);
}

/// The diagnostic for a function whose frame is beyond the reach of 32-bit
/// displacements.
pub open spec fn frame_message(name: Seq<char>) -> Seq<char> {
    "Function '"@ + name + "' needs a stack frame beyond the reach of 32-bit displacements"@
}

fn frame_error(name: &String) -> (e: ForgeError)
    ensures
        e.message@ == frame_message(name@),
{
    let msg = concat(
        concat("Function '", name.as_str()).as_str(),
        "' needs a stack frame beyond the reach of 32-bit displacements",
    );
    ForgeError::codegen(msg)
}

/// The allocation's locations are all valid.
spec fn alloc_ok(a: Allocation) -> bool {
    &&& a.locations@.len() == a.intervals@.len()
    &&& forall|k: int|
        0 <= k < a.locations@.len() ==> valid_location(#[trigger] a.locations@[k], a.spill_count as int)
    &&& a.spill_count <= MAX_SPILL_SLOTS
}

/// Code was only appended and no function offset changed.
/// The length load of a boolean printing branch, where lengths are given.
pub open spec fn length_load(v: Option<i64>) -> Seq<u8> {
    match v {
        Some(n) => mov_imm64_code(Reg::RSI, n),
        None => seq![],
    }
}

/// The code that prints a boolean in RDI: a test against 0, then for each
/// outcome a string pointer load into RDI (filled in later), the text's
/// length where lengths are given, and a call of the string printing
/// routine (filled in later); the false branch jumps over the true one.
pub open spec fn print_bool_code(lengths: Option<(i64, i64)>) -> Seq<u8> {
    let l: int = if lengths is Some {
        10
    } else {
        0
    };
    let false_len = match lengths {
        Some((_, f)) => Some(f),
        None => None,
    };
    let true_len = match lengths {
        Some((t, _)) => Some(t),
        None => None,
    };
    mov_imm64_code(Reg::R10, 0) + rr_code(0x39, Reg::RDI, Reg::R10) + seq![0x0Fu8, 0x85] + le_i32(
        (20 + l) as i32,
    ) + mov_imm64_code(Reg::RDI, 0) + length_load(false_len) + seq![0xE8u8] + le_i32(0) + seq![0xE9u8]
        + le_i32((15 + l) as i32) + mov_imm64_code(Reg::RDI, 0) + length_load(true_len) + seq![0xE8u8]
        + le_i32(0)
}

spec fn grows(o: NativeX86Backend, n: NativeX86Backend) -> bool {
    &&& o.encoder.code@.len() <= n.encoder.code@.len()
    &&& n.func_offsets@ == o.func_offsets@
    &&& keeps_prefix(o.encoder.code@, n.encoder.code@)
}

/// `new` begins with the bytes of `old`.
pub open spec fn keeps_prefix(old: Seq<u8>, new: Seq<u8>) -> bool {
    &&& old.len() <= new.len()
    &&& forall|i: int| 0 <= i < old.len() ==> #[trigger] new[i] == old[i]
}

/// The variable an instruction loads or stores, if any.
pub open spec fn inst_var(inst: IrInst) -> Option<Seq<char>> {
    match inst {
        IrInst::LoadVar { var_name, .. } => Some(var_name@),
        IrInst::StoreVar { var_name, .. } => Some(var_name@),
        _ => None,
    }
}

/// Whether every stack variable has a frame slot below the callee-save area and
/// `name` is one of them.
spec fn var_slot(vars: Seq<(String, i32)>, name: Seq<char>) -> bool {
    exists|j: int| 0 <= j < vars.len() && (#[trigger] vars[j]).0@ == name
}

spec fn vars_ok(vars: Seq<(String, i32)>) -> bool {
    forall|j: int| 0 <= j < vars.len() ==> (#[trigger] vars[j]).1 >= 48
}

/// Whether a string ends with a NUL character.
fn ends_with_nul(text: &str) -> (r: bool)
    ensures
        r == (text@.len() > 0 && text@.last() == '\0'),
{
    let cs = crate::text::chars_of(text);
    cs.len() > 0 && cs[cs.len() - 1] == '\0'
}

/// The frame slot of a stack variable.
fn var_offset(vars: &Vec<(String, i32)>, name: &String) -> (d: i32)
    requires
        var_slot(vars@, name@),
        vars_ok(vars@),
    ensures
        d >= 48,
{
    let mut j: usize = 0;
    while j < vars.len() && !(vars[j].0 == *name)
        invariant
            j <= vars@.len(),
            forall|l: int| 0 <= l < j ==> vars@[l].0@ != name@,
        decreases vars.len() - j,
    {
        j += 1;
    }
    vars[j].1
}

impl NativeX86Backend {
    /// A backend with no code emitted.
    pub fn new() -> (b: Self)
        ensures
            b.encoder.code@.len() == 0,
            b.func_offsets@.len() == 0,
    {
        NativeX86Backend { encoder: Encoder::new(), func_offsets: Vec::new() }
    }

    fn load_operand(&mut self, dst: Reg, op: &Operand, a: &Allocation)
        requires
            alloc_ok(*a),
            operand_allocated(*a, *op),
        ensures
            grows(*old(self), *final(self)),
            final(self).encoder.code@ == old(self).encoder.code@ + load_operand_code(dst, *op, *a),
    {
        match op {
            Operand::Const(val) => {
                self.encoder.mov_reg_imm64(dst, *val);
            },
            Operand::Reg(vreg) => match location_of(a, *vreg) {
                VRegLocation::Reg(src) => {
                    if src != dst {
                        self.encoder.mov_reg_reg(dst, src);
                    }
                },
                VRegLocation::Spill(disp) => self.encoder.load_rbp_disp32(dst, disp),
            },
        }
    }

    fn emit_const_vreg(&mut self, vreg: usize, value: i64, a: &Allocation)
        requires
            alloc_ok(*a),
            crate::backend::x86_64::regalloc::allocated(*a, vreg),
        ensures
            grows(*old(self), *final(self)),
            final(self).encoder.code@ == old(self).encoder.code@ + match vreg_location(*a, vreg) {
                VRegLocation::Reg(reg) => mov_imm64_code(reg, value),
                VRegLocation::Spill(disp) => mov_imm64_code(Reg::R10, value) + store_code(disp, Reg::R10),
            },
    {
        match location_of(a, vreg) {
            VRegLocation::Reg(reg) => self.encoder.mov_reg_imm64(reg, value),
            VRegLocation::Spill(disp) => {
                self.encoder.mov_reg_imm64(Reg::R10, value);
                self.encoder.store_rbp_disp32(disp, Reg::R10);
            },
        }
    }

    fn store_vreg(&mut self, vreg: usize, src: Reg, a: &Allocation)
        requires
            alloc_ok(*a),
            crate::backend::x86_64::regalloc::allocated(*a, vreg),
        ensures
            grows(*old(self), *final(self)),
            final(self).encoder.code@ == old(self).encoder.code@ + store_vreg_code(vreg, src, *a),
    {
        match location_of(a, vreg) {
            VRegLocation::Reg(dst) => {
                if dst != src {
                    self.encoder.mov_reg_reg(dst, src);
                }
            },
            VRegLocation::Spill(disp) => self.encoder.store_rbp_disp32(disp, src),
        }
    }

    fn copy_operand_to_vreg(&mut self, dest: usize, src: &Operand, a: &Allocation)
        requires
            alloc_ok(*a),
            crate::backend::x86_64::regalloc::allocated(*a, dest),
            operand_allocated(*a, *src),
        ensures
            grows(*old(self), *final(self)),
            final(self).encoder.code@ == old(self).encoder.code@ + match vreg_location(*a, dest) {
                VRegLocation::Reg(reg) => load_operand_code(reg, *src, *a),
                VRegLocation::Spill(disp) => load_operand_code(Reg::R10, *src, *a) + store_code(disp, Reg::R10),
            },
    {
        match location_of(a, dest) {
            VRegLocation::Reg(reg) => self.load_operand(reg, src, a),
            VRegLocation::Spill(disp) => {
                self.load_operand(Reg::R10, src, a);
                self.encoder.store_rbp_disp32(disp, Reg::R10);
            },
        }
    }

    fn store_operand_to_stack(&mut self, src: &Operand, disp: i32, a: &Allocation)
        requires
            alloc_ok(*a),
            operand_allocated(*a, *src),
            disp >= 48,
        ensures
            grows(*old(self), *final(self)),
            final(self).encoder.code@ == old(self).encoder.code@ + match *src {
                Operand::Const(value) => mov_imm64_code(Reg::R10, value) + store_code(disp, Reg::R10),
                Operand::Reg(vreg) => match vreg_location(*a, vreg) {
                    VRegLocation::Reg(reg) => store_code(disp, reg),
                    VRegLocation::Spill(src_disp) => load_code(Reg::R10, src_disp) + store_code(disp, Reg::R10),
                },
            },
    {
        match src {
            Operand::Const(value) => {
                self.encoder.mov_reg_imm64(Reg::R10, *value);
                self.encoder.store_rbp_disp32(disp, Reg::R10);
            },
            Operand::Reg(vreg) => match location_of(a, *vreg) {
                VRegLocation::Reg(reg) => self.encoder.store_rbp_disp32(disp, reg),
                VRegLocation::Spill(src_disp) => {
                    self.encoder.load_rbp_disp32(Reg::R10, src_disp);
                    self.encoder.store_rbp_disp32(disp, Reg::R10);
                },
            },
        }
    }

    fn emit_alu(&mut self, dest: usize, op: IrBinOp, lhs: &Operand, rhs: &Operand, a: &Allocation)
        requires
            alloc_ok(*a),
            crate::backend::x86_64::regalloc::allocated(*a, dest),
            operand_allocated(*a, *lhs),
            operand_allocated(*a, *rhs),
            op == IrBinOp::Add || op == IrBinOp::Sub || op == IrBinOp::Mul || op == IrBinOp::And
                || op == IrBinOp::Or || op == IrBinOp::Xor,
        ensures
            grows(*old(self), *final(self)),
            final(self).encoder.code@ == old(self).encoder.code@ + match vreg_location(*a, dest) {
                VRegLocation::Reg(dest_reg) => load_operand_code(dest_reg, *lhs, *a) + load_operand_code(
                    Reg::R10,
                    *rhs,
                    *a,
                ) + alu_code(op, dest_reg, Reg::R10),
                VRegLocation::Spill(_) => load_operand_code(Reg::R10, *lhs, *a) + load_operand_code(
                    Reg::R11,
                    *rhs,
                    *a,
                ) + alu_code(op, Reg::R10, Reg::R11) + store_vreg_code(dest, Reg::R10, *a),
            },
    {
        match location_of(a, dest) {
            VRegLocation::Reg(dest_reg) => {
                self.load_operand(dest_reg, lhs, a);
                self.load_operand(Reg::R10, rhs, a);
                match op {
                    IrBinOp::Add => self.encoder.add_reg_reg(dest_reg, Reg::R10),
                    IrBinOp::Sub => self.encoder.sub_reg_reg(dest_reg, Reg::R10),
                    IrBinOp::Mul => self.encoder.imul_reg_reg(dest_reg, Reg::R10),
                    IrBinOp::And => self.encoder.and_reg_reg(dest_reg, Reg::R10),
                    IrBinOp::Or => self.encoder.or_reg_reg(dest_reg, Reg::R10),
                    _ => self.encoder.xor_reg_reg(dest_reg, Reg::R10),
                }
            },
            VRegLocation::Spill(_) => {
                self.load_operand(Reg::R10, lhs, a);
                self.load_operand(Reg::R11, rhs, a);
                match op {
                    IrBinOp::Add => self.encoder.add_reg_reg(Reg::R10, Reg::R11),
                    IrBinOp::Sub => self.encoder.sub_reg_reg(Reg::R10, Reg::R11),
                    IrBinOp::Mul => self.encoder.imul_reg_reg(Reg::R10, Reg::R11),
                    IrBinOp::And => self.encoder.and_reg_reg(Reg::R10, Reg::R11),
                    IrBinOp::Or => self.encoder.or_reg_reg(Reg::R10, Reg::R11),
                    _ => self.encoder.xor_reg_reg(Reg::R10, Reg::R11),
                }
                self.store_vreg(dest, Reg::R10, a);
            },
        }
    }

    fn emit_compare(
        &mut self,
        dest: usize,
        op: IrBinOp,
        lhs: &Operand,
        rhs: &Operand,
        a: &Allocation,
    )
        requires
            alloc_ok(*a),
            crate::backend::x86_64::regalloc::allocated(*a, dest),
            operand_allocated(*a, *lhs),
            operand_allocated(*a, *rhs),
        ensures
            grows(*old(self), *final(self)),
            final(self).encoder.code@ == old(self).encoder.code@ + match vreg_location(*a, dest) {
                VRegLocation::Reg(r) => load_operand_code(r, *lhs, *a) + load_operand_code(Reg::R11, *rhs, *a)
                    + rr_code(0x39, r, Reg::R11) + setcc_code(setcc_opcode(op), r),
                VRegLocation::Spill(_) => load_operand_code(Reg::R10, *lhs, *a) + load_operand_code(
                    Reg::R11,
                    *rhs,
                    *a,
                ) + rr_code(0x39, Reg::R10, Reg::R11) + setcc_code(setcc_opcode(op), Reg::R10)
                    + store_vreg_code(dest, Reg::R10, *a),
            },
    {
        let dest_reg = match location_of(a, dest) {
            VRegLocation::Reg(reg) => Some(reg),
            VRegLocation::Spill(_) => None,
        };
        let lhs_reg = match dest_reg {
            Some(r) => r,
            None => Reg::R10,
        };
        self.load_operand(lhs_reg, lhs, a);
        self.load_operand(Reg::R11, rhs, a);
        self.encoder.cmp_reg_reg(lhs_reg, Reg::R11);
        let result_reg = lhs_reg;
        match op {
            IrBinOp::Eq => self.encoder.sete_movzx(result_reg),
            IrBinOp::Ne => self.encoder.setne_movzx(result_reg),
            IrBinOp::Lt => self.encoder.setl_movzx(result_reg),
            IrBinOp::Ge => self.encoder.setge_movzx(result_reg),
            IrBinOp::Le => self.encoder.setle_movzx(result_reg),
            _ => self.encoder.setg_movzx(result_reg),
        }
        if dest_reg.is_none() {
            self.store_vreg(dest, result_reg, a);
        }
    }

    fn call_helper(&mut self, kind: HelperKind, pending: &mut Pending)
        requires
            pending_ok(*old(pending), old(self).encoder.code@.len()),
        ensures
            pending_after(*old(pending), *final(pending), old(self).encoder.code@.len()),
            grows(*old(self), *final(self)),
            pending_ok(*final(pending), final(self).encoder.code@.len()),
            final(pending).calls@ == old(pending).calls@,
            final(self).encoder.code@ == old(self).encoder.code@ + seq![0xE8u8] + le_i32(0),
            final(pending).helpers@ == old(pending).helpers@.push(((old(self).encoder.code@.len() + 1) as usize, kind)),
            final(pending).strings@ == old(pending).strings@,
            final(pending).literals@ == old(pending).literals@,
    {
        let patch = self.encoder.call_rel32(0);
        pending.helpers.push((patch, kind));
    }

    fn load_string_ptr(&mut self, text: &str, pending: &mut Pending)
        requires
            pending_ok(*old(pending), old(self).encoder.code@.len()),
        ensures
            pending_after(*old(pending), *final(pending), old(self).encoder.code@.len()),
            grows(*old(self), *final(self)),
            pending_ok(*final(pending), final(self).encoder.code@.len()),
            final(pending).calls@ == old(pending).calls@,
            final(self).encoder.code@ == old(self).encoder.code@ + mov_imm64_code(Reg::RDI, 0),
            final(pending).helpers@ == old(pending).helpers@,
            final(pending).strings@.len() == old(pending).strings@.len() + 1,
            final(pending).strings@.drop_last() == old(pending).strings@,
            final(pending).strings@.last().0 == old(self).encoder.code@.len() + 2,
            final(pending).literals@[final(pending).strings@.last().1 as int]@ == text@,
            final(pending).literals@.len() <= old(pending).literals@.len() + 1,
            forall|i: int| 0 <= i < old(pending).literals@.len() ==> final(pending).literals@[i] == old(pending).literals@[i],
    {
        let id = get_or_insert_string(text, &mut pending.literals);
        let patch = emit_mov_rdi_string_ptr(&mut self.encoder);
        pending.strings.push((patch, id));
    }

    /// Compiles the printing of a boolean in RDI: `true` or `false`, followed
    /// by `suffix`.
    #[verifier::rlimit(60)]
    #[verifier::spinoff_prover]
    fn emit_print_bool(&mut self, true_text: &str, false_text: &str, lengths: Option<(i64, i64)>, pending: &mut Pending)
        requires
            pending_ok(*old(pending), old(self).encoder.code@.len()),
        ensures
            pending_after(*old(pending), *final(pending), old(self).encoder.code@.len()),
            grows(*old(self), *final(self)),
            pending_ok(*final(pending), final(self).encoder.code@.len()),
            final(pending).calls@ == old(pending).calls@,
            final(self).encoder.code@.len() == old(self).encoder.code@.len() + 54 + if lengths is Some {
                20int
            } else {
                0int
            },
            final(self).encoder.code@.subrange(0, old(self).encoder.code@.len() + 13int) == old(self).encoder.code@
                + mov_imm64_code(Reg::R10, 0) + rr_code(0x39, Reg::RDI, Reg::R10),
            final(pending).helpers@.len() == old(pending).helpers@.len() + 2,
            final(pending).helpers@.subrange(0, (old(pending).helpers@.len() + 0int)) == old(pending).helpers@,
            final(pending).helpers@[old(pending).helpers@.len() + 0int].1 == HelperKind::PrintStr,
            final(pending).helpers@[old(pending).helpers@.len() + 1int].1 == HelperKind::PrintStr,
            final(pending).strings@.len() == old(pending).strings@.len() + 2,
            final(pending).strings@.subrange(0, (old(pending).strings@.len() + 0int)) == old(pending).strings@,
            final(pending).literals@[final(pending).strings@[old(pending).strings@.len() + 0int].1 + 0int]@
                == false_text@,
            final(pending).literals@[final(pending).strings@[old(pending).strings@.len() + 1int].1 + 0int]@
                == true_text@,
            final(self).encoder.code@ == old(self).encoder.code@ + print_bool_code(lengths),
    {
        let ghost c0 = self.encoder.code@;
        let ghost h0 = pending.helpers@;
        let ghost s0 = pending.strings@;
        self.encoder.mov_reg_imm64(Reg::R10, 0);
        self.encoder.cmp_reg_reg(Reg::RDI, Reg::R10);
        let ghost c1 = self.encoder.code@;
        let patch_jne = self.encoder.jne_rel32(0);
        self.load_string_ptr(false_text, pending);
        let ghost lit1 = pending.literals@;
        let ghost sid1 = pending.strings@.last().1;
        if let Some((_, false_len)) = lengths {
            self.encoder.mov_reg_imm64(Reg::RSI, false_len);
        }
        self.call_helper(HelperKind::PrintStr, pending);
        let patch_jmp_end = self.encoder.jmp_rel32(0);
        let true_offset = self.encoder.len();
        let ghost c2 = self.encoder.code@;
        let r1 = crate::backend::x86_64::encoder::rel32(true_offset, patch_jne);
        let ghost a1 = c2.subrange(0, c0.len() + 15int);
        let ghost m1 = crate::backend::x86_64::encoder::bytes_from(c2, c0.len() + 19int);
        proof {
            assert(c2 =~= a1 + le_i32(0) + m1);
        }
        self.encoder.patch_i32_le(patch_jne, r1);
        proof {
            assert(self.encoder.code@ =~= a1 + le_i32(r1) + m1);
        }
        proof {
            assert(self.encoder.code@.subrange(0, c0.len() + 13int) =~= c2.subrange(0, c0.len() + 13int));
            assert(c2.subrange(0, c0.len() + 13int) =~= c1);
        }
        let ghost c3 = self.encoder.code@;
        self.load_string_ptr(true_text, pending);
        if let Some((true_len, _)) = lengths {
            self.encoder.mov_reg_imm64(Reg::RSI, true_len);
        }
        self.call_helper(HelperKind::PrintStr, pending);
        let end_offset = self.encoder.len();
        let ghost c4 = self.encoder.code@;
        let r2 = crate::backend::x86_64::encoder::rel32(end_offset, patch_jmp_end);
        let ghost a2 = crate::backend::x86_64::encoder::bytes_before(c4, patch_jmp_end);
        let ghost m2 = crate::backend::x86_64::encoder::bytes_from(c4, patch_jmp_end + 4);
        proof {
            assert(c4 =~= a2 + le_i32(0) + m2);
        }
        self.encoder.patch_i32_le(patch_jmp_end, r2);
        proof {
            assert(self.encoder.code@ =~= a2 + le_i32(r2) + m2);
            let l: int = if lengths is Some { 10 } else { 0 };
            assert(r1 == 20 + l);
            assert(r2 == 15 + l);
            assert(self.encoder.code@ =~= c0 + print_bool_code(lengths));
        }
        proof {
            assert(c4.subrange(0, c0.len() + 13int) =~= c3.subrange(0, c0.len() + 13int));
            assert(self.encoder.code@.subrange(0, c0.len() + 13int) =~= c4.subrange(0, c0.len() + 13int));
            assert(pending.helpers@.subrange(0, (h0.len() + 0int)) =~= h0);
            assert(pending.strings@.subrange(0, (s0.len() + 0int)) =~= s0);
            assert(pending.strings@[s0.len() + 0int].1 == sid1);
            assert(pending.literals@[sid1 + 0int] == lit1[sid1 + 0int]);
        }
    }

    /// Compiles one instruction; fails on what the native backend does not
    /// support.
    fn compile_inst(
        &mut self,
        inst: &IrInst,
        a: &Allocation,
        vars: &Vec<(String, i32)>,
        pending: &mut Pending,
    ) -> (r: Result<(), ForgeError>)
        requires
            alloc_ok(*a),
            inst_allocated(*a, *inst),
            inst_var(*inst) matches Some(name) ==> var_slot(vars@, name),
            vars_ok(vars@),
            pending_ok(*old(pending), old(self).encoder.code@.len()),
        ensures
            pending_after(*old(pending), *final(pending), old(self).encoder.code@.len()),
            r is Ok <==> inst_compilable(*inst),
            grows(*old(self), *final(self)),
            pending_ok(*final(pending), final(self).encoder.code@.len()),
            if r is Ok && *inst is Call {
                final(pending).calls@.len() == old(pending).calls@.len() + 1
                    && final(pending).calls@.last().1@ == call_target(*inst)->0
            } else {
                final(pending).calls@.len() == old(pending).calls@.len()
            },
            forall|i: int|
                0 <= i < old(pending).calls@.len() ==> final(pending).calls@[i] == old(
                    pending,
                ).calls@[i],
    {
        match inst {
            IrInst::Param { dest, index } => {
                if *index >= 6 {
                    let msg = concat(
                        concat("Parameter index ", decimal_string(*index as u64).as_str()).as_str(),
                        " exceeds supported 6 SysV registers",
                    );
                    return Err(ForgeError::codegen(msg));
                }
                let src_reg = sysv_arg_regs(*index);
                self.store_vreg(*dest, src_reg, a);
            },
            IrInst::Const { dest, value } => {
                self.emit_const_vreg(*dest, *value, a);
            },
            IrInst::ConstStr { dest, value } => {
                self.load_string_ptr(value.as_str(), pending);
                self.store_vreg(*dest, Reg::RDI, a);
            },
            IrInst::Input { dest, kind } => match kind {
                InputKind::Int => {
                    self.call_helper(HelperKind::InputInt, pending);
                    self.store_vreg(*dest, Reg::RAX, a);
                },
                _ => {
                    return Err(
                        ForgeError::codegen(
                            crate::text::owned("Native backend currently supports Input(Int) only"),
                        ),
                    );
                },
            },
            IrInst::Copy { dest, src } => {
                self.copy_operand_to_vreg(*dest, src, a);
            },
            IrInst::StoreVar { var_name, src } => {
                let disp = var_offset(vars, var_name);
                self.store_operand_to_stack(src, disp, a);
            },
            IrInst::LoadVar { dest, var_name } => {
                let src_disp = var_offset(vars, var_name);
                match location_of(a, *dest) {
                    VRegLocation::Reg(reg) => self.encoder.load_rbp_disp32(reg, src_disp),
                    VRegLocation::Spill(dest_disp) => {
                        self.encoder.load_rbp_disp32(Reg::R10, src_disp);
                        self.encoder.store_rbp_disp32(dest_disp, Reg::R10);
                    },
                }
            },
            IrInst::BinOp { dest, op, lhs, rhs } => match op {
                IrBinOp::Div => {
                    self.load_operand(Reg::RAX, lhs, a);
                    self.encoder.cqo();
                    self.load_operand(Reg::R10, rhs, a);
                    self.encoder.idiv_reg(Reg::R10);
                    self.store_vreg(*dest, Reg::RAX, a);
                },
                IrBinOp::Rem => {
                    self.load_operand(Reg::RAX, lhs, a);
                    self.encoder.cqo();
                    self.load_operand(Reg::R10, rhs, a);
                    self.encoder.idiv_reg(Reg::R10);
                    self.store_vreg(*dest, Reg::RDX, a);
                },
                IrBinOp::Pow => {
                    self.load_operand(Reg::RDI, lhs, a);
                    self.load_operand(Reg::RSI, rhs, a);
                    self.call_helper(HelperKind::PowInt, pending);
                    self.store_vreg(*dest, Reg::RAX, a);
                },
                IrBinOp::Add | IrBinOp::Sub | IrBinOp::Mul | IrBinOp::And | IrBinOp::Or
                | IrBinOp::Xor => {
                    self.emit_alu(*dest, *op, lhs, rhs, a);
                },
                _ => {
                    self.emit_compare(*dest, *op, lhs, rhs, a);
                },
            },
            IrInst::Call { dest, func, args } => {
                if args.len() > 6 {
                    let msg = concat(
                        concat("Function call '", func.as_str()).as_str(),
                        "' exceeds maximum 6 SysV argument registers",
                    );
                    return Err(ForgeError::codegen(msg));
                }
                let mut i: usize = 0;
                while i < args.len()
                    invariant
                        i <= args@.len() <= 6,
                        alloc_ok(*a),
                        forall|j: int| 0 <= j < args@.len() ==> operand_allocated(*a, #[trigger] args@[j]),
                        grows(*old(self), *self),
                        pending_ok(*pending, self.encoder.code@.len()),
                        pending.calls@ == old(pending).calls@,
                    decreases args.len() - i,
                {
                    let arg_reg = sysv_arg_regs(i);
                    self.load_operand(arg_reg, &args[i], a);
                    i += 1;
                }
                let patch_pos = self.encoder.call_rel32(0);
                pending.calls.push((patch_pos, func.clone()));
                self.store_vreg(*dest, Reg::RAX, a);
            },
            IrInst::Print { src, kind } => match kind {
                PrintKind::Int => {
                    self.load_operand(Reg::RDI, src, a);
                    self.call_helper(HelperKind::PrintInt, pending);
                },
                PrintKind::Str => {
                    self.load_operand(Reg::RDI, src, a);
                    self.call_helper(HelperKind::PrintStr, pending);
                    self.load_string_ptr("\n\0", pending);
                    self.call_helper(HelperKind::PrintStr, pending);
                },
                PrintKind::Bool => {
                    self.load_operand(Reg::RDI, src, a);
                    self.emit_print_bool("true\n\0", "false\n\0", Some((5, 6)), pending);
                },
            },
            IrInst::PrintInline { src, kind } => match kind {
                PrintKind::Str => {
                    self.load_operand(Reg::RDI, src, a);
                    self.call_helper(HelperKind::PrintStr, pending);
                },
                PrintKind::Int => {
                    self.load_operand(Reg::RDI, src, a);
                    self.encoder.mov_reg_imm64(Reg::RSI, 0);
                    self.call_helper(HelperKind::PrintIntInline, pending);
                },
                PrintKind::Bool => {
                    self.load_operand(Reg::RDI, src, a);
                    self.emit_print_bool("true\0", "false\0", None, pending);
                },
            },
            IrInst::PrintConstStr { str_val } => {
                if ends_with_nul(str_val.as_str()) {
                    self.load_string_ptr(str_val.as_str(), pending);
                } else {
                    let terminated = concat(str_val.as_str(), "\0");
                    self.load_string_ptr(terminated.as_str(), pending);
                }
                self.encoder.mov_reg_imm64(Reg::RSI, str_val.as_str().len() as i64);
                self.call_helper(HelperKind::PrintStr, pending);
            },
            IrInst::SysExit { status } => {
                self.load_operand(Reg::RDI, status, a);
                self.encoder.mov_reg_imm64(Reg::RAX, 60);
                self.encoder.syscall();
            },
        }
        Ok(())
    }

    /// Compiles every function of `ir`, appends the runtime routines and the
    /// string literals, and fills in every call displacement and string
    /// pointer. Returns the code and the offset of each function.
    #[verifier::spinoff_prover]
    pub fn compile_program(self, ir: &IrProgram) -> (r: Result<
        (Vec<u8>, Vec<(String, usize)>),
        ForgeError,
    >)
        ensures
            r is Ok ==> program_compilable(*ir, self.func_offsets@),
            program_sound(*ir, self.func_offsets@) && (forall|g: int|
                0 <= g < ir.functions@.len() ==> frame_certain(#[trigger] ir.functions@[g])) ==> r is Ok,
            program_sound(*ir, self.func_offsets@) ==> (r matches Err(e) ==> exists|g: int|
                0 <= g < ir.functions@.len() && (e.message@ == frame_message(
                    #[trigger] ir.functions@[g].name@,
                ) || e.message@ == too_large_message(ir.functions@[g].name@))),
            r matches Ok((code, offsets)) ==> {
                &&& offsets@.len() == self.func_offsets@.len() + ir.functions@.len()
                &&& forall|i: int|
                    0 <= i < self.func_offsets@.len() ==> #[trigger] offsets@[i] == self.func_offsets@[i]
                &&& forall|g: int|
                    0 <= g < ir.functions@.len() ==> (#[trigger] offsets@[self.func_offsets@.len()
                        + g]).0@ == ir.functions@[g].name@ && offsets@[self.func_offsets@.len()
                        + g].1 < code@.len()
                &&& offsets_ascending(
                    offsets@,
                    self.func_offsets@.len() as int,
                    ir.functions@.len() as int,
                    self.encoder.code@.len(),
                )
                &&& prologues_at(code@, offsets@, self.func_offsets@.len() as int, ir.functions@.len() as int)
                &&& exists|routines: int, calls: Seq<(usize, String)>, helpers: Seq<(usize, HelperKind)>|
                    program_image(code@, offsets@, *ir, self.func_offsets@.len() as int, routines, calls, helpers)
            },
    {
        let ghost base = self.func_offsets@;
        let mut backend = self;
        let mut pending = Pending {
            calls: Vec::new(),
            helpers: Vec::new(),
            strings: Vec::new(),
            literals: Vec::new(),
        };
        let mut g: usize = 0;
        while g < ir.functions.len()
            invariant
                base == self.func_offsets@,
                g <= ir.functions@.len(),
                backend.func_offsets@.len() == base.len() + g,
                forall|i: int| 0 <= i < base.len() ==> #[trigger] backend.func_offsets@[i] == base[i],
                forall|h: int|
                    0 <= h < g ==> (#[trigger] backend.func_offsets@[base.len() + h]).0@
                        == ir.functions@[h].name@ && backend.func_offsets@[base.len() + h].1
                        < backend.encoder.code@.len(),
                pending_ok(pending, backend.encoder.code@.len()),
                prologues_at(backend.encoder.code@, backend.func_offsets@, base.len() as int, g as int),
                clear_of_prologues(pending, backend.func_offsets@, base.len() as int, g as int),
                offsets_ascending(backend.func_offsets@, base.len() as int, g as int, self.encoder.code@.len()),
                g == 0 ==> backend.encoder.code@.len() == self.encoder.code@.len(),
                forall|h: int| 0 <= h < g ==> function_compilable(#[trigger] ir.functions@[h]),
                forall|x: int|
                    0 <= x < pending.calls@.len() ==> program_calls(*ir, (#[trigger] pending.calls@[x]).1@),
                forall|h: int, b: int, j: int|
                    0 <= h < g && 0 <= b < ir.functions@[h].blocks@.len() && 0 <= j
                        < ir.functions@[h].blocks@[b].insts@.len() && (
                    #[trigger] ir.functions@[h].blocks@[b].insts@[j]) is Call ==> call_recorded(
                        pending.calls@,
                        call_target(ir.functions@[h].blocks@[b].insts@[j])->0,
                    ),
            decreases ir.functions.len() - g,
        {
            let ghost calls0 = pending.calls@;
            let ghost offs0 = backend.func_offsets@;
            let ghost len0 = backend.encoder.code@.len();
            let ghost code0 = backend.encoder.code@;
            let ghost p0 = pending;
            let ghost len0u: usize = backend.encoder.code.len();
            let res = backend.compile_function(&ir.functions[g], &mut pending);
            if res.is_err() {
                let e = res.unwrap_err();
                proof {
                    if program_sound(*ir, self.func_offsets@) {
                        assert(function_sound(ir.functions@[g as int]));
                        assert(e.message@ == frame_message(ir.functions@[g as int].name@) || e.message@
                            == too_large_message(ir.functions@[g as int].name@));
                    }
                }
                return Err(e);
            }
            proof {
                assert forall|x: int|
                    0 <= x < pending.calls@.len() implies program_calls(*ir, (#[trigger] pending.calls@[x]).1@) by {
                    if x < calls0.len() {
                        assert(pending.calls@[x] == calls0[x]);
                    } else {
                        assert(blocks_call(ir.functions@[g as int].blocks@, pending.calls@[x].1@));
                        let (b, j) = choose|b: int, j: int|
                            0 <= b < ir.functions@[g as int].blocks@.len() && 0 <= j < ir.functions@[g as int].blocks@[b].insts@.len()
                                && call_target(#[trigger] ir.functions@[g as int].blocks@[b].insts@[j]) == Some(pending.calls@[x].1@);
                    }
                }
                assert forall|h: int, b: int, j: int|
                    0 <= h < g + 1 && 0 <= b < ir.functions@[h].blocks@.len() && 0 <= j
                        < ir.functions@[h].blocks@[b].insts@.len() && (
                    #[trigger] ir.functions@[h].blocks@[b].insts@[j]) is Call implies call_recorded(
                        pending.calls@,
                        call_target(ir.functions@[h].blocks@[b].insts@[j])->0,
                    ) by {
                    if h < g {
                        let x = choose|x: int| 0 <= x < calls0.len() && (#[trigger] calls0[x]).1@ == call_target(ir.functions@[h].blocks@[b].insts@[j])->0;
                        assert(pending.calls@[x] == calls0[x]);
                    }
                }
                assert forall|h: int|
                    0 <= h < g + 1 implies (#[trigger] backend.func_offsets@[base.len() + h]).0@
                        == ir.functions@[h].name@ && backend.func_offsets@[base.len() + h].1
                        < backend.encoder.code@.len() by {
                    if h < g {
                        assert(backend.func_offsets@[base.len() + h] == offs0[base.len() + h]);
                    }
                }
                assert forall|h: int| 0 <= h && h + 1 < g + 1 implies (#[trigger] backend.func_offsets@[
                    base.len() + h]).1 < backend.func_offsets@[base.len() + h + 1].1 by {
                    assert(backend.func_offsets@[base.len() + h] == offs0[base.len() + h]);
                    if h + 1 < g {
                        assert(backend.func_offsets@[base.len() + h + 1] == offs0[base.len() + h + 1]);
                    } else {
                        assert(base.len() + h + 1 == offs0.len());
                        assert(len0u as nat == len0);
                        assert(backend.func_offsets@[base.len() + h + 1].1 == len0);
                        assert(offs0[base.len() + h].1 < len0);
                    }
                }
                if g > 0 {
                    assert(backend.func_offsets@[base.len() as int] == offs0[base.len() as int]);
                }
                let bl = base.len() as int;
                let offs = backend.func_offsets@;
                let code = backend.encoder.code@;
                assert(offs[bl + g].1 == len0);
                assert forall|h: int| 0 <= h < g + 1 implies (#[trigger] offs[bl + h]).1 + 4 <= code.len()
                    && code.subrange(offs[bl + h].1 as int, offs[bl + h].1 + 4) == prologue_code() by {
                    if h < g {
                        assert(offs[bl + h] == offs0[bl + h]);
                        assert(offs0[bl + h].1 + 4 <= code0.len());
                        lemma_prefix_keeps(code0, code, offs0[bl + h].1 as int, 4);
                    }
                }
                assert forall|i: int, h: int| 0 <= i < pending.calls@.len() && 0 <= h < g + 1 implies apart(
                    (#[trigger] pending.calls@[i]).0 as int,
                    4,
                    (#[trigger] offs[bl + h]).1 as int,
                    4,
                ) by {
                    if h < g {
                        assert(offs[bl + h] == offs0[bl + h]);
                        assert(offs0[bl + h].1 + 4 <= code0.len());
                    }
                    if i < p0.calls@.len() {
                        assert(pending.calls@[i] == p0.calls@[i]);
                        if h < g {
                            assert(apart(p0.calls@[i].0 as int, 4, offs0[bl + h].1 as int, 4));
                        }
                    }
                }
                assert forall|i: int, h: int| 0 <= i < pending.helpers@.len() && 0 <= h < g + 1 implies apart(
                    (#[trigger] pending.helpers@[i]).0 as int,
                    4,
                    (#[trigger] offs[bl + h]).1 as int,
                    4,
                ) by {
                    if h < g {
                        assert(offs[bl + h] == offs0[bl + h]);
                        assert(offs0[bl + h].1 + 4 <= code0.len());
                    }
                    if i < p0.helpers@.len() {
                        assert(pending.helpers@[i] == p0.helpers@[i]);
                        if h < g {
                            assert(apart(p0.helpers@[i].0 as int, 4, offs0[bl + h].1 as int, 4));
                        }
                    }
                }
                assert forall|i: int, h: int| 0 <= i < pending.strings@.len() && 0 <= h < g + 1 implies apart(
                    (#[trigger] pending.strings@[i]).0 as int,
                    8,
                    (#[trigger] offs[bl + h]).1 as int,
                    4,
                ) by {
                    if h < g {
                        assert(offs[bl + h] == offs0[bl + h]);
                        assert(offs0[bl + h].1 + 4 <= code0.len());
                    }
                    if i < p0.strings@.len() {
                        assert(pending.strings@[i] == p0.strings@[i]);
                        if h < g {
                            assert(apart(p0.strings@[i].0 as int, 8, offs0[bl + h].1 as int, 4));
                        }
                    }
                }
            }
            g += 1;
        }
        // Calls between functions.
        let ghost f_end = backend.encoder.code@.len();
        let mut c: usize = 0;
        while c < pending.calls.len()
            invariant
                base == self.func_offsets@,
                c <= pending.calls@.len(),
                backend.encoder.code@.len() == f_end,
                prologues_at(backend.encoder.code@, backend.func_offsets@, base.len() as int, ir.functions@.len() as int),
                clear_of_prologues(pending, backend.func_offsets@, base.len() as int, ir.functions@.len() as int),
                calls_patched(backend.encoder.code@, pending.calls@, backend.func_offsets@, c as int),
                backend.func_offsets@.len() == base.len() + ir.functions@.len(),
                offsets_ascending(
                    backend.func_offsets@,
                    base.len() as int,
                    ir.functions@.len() as int,
                    self.encoder.code@.len(),
                ),
                forall|i: int| 0 <= i < base.len() ==> #[trigger] backend.func_offsets@[i] == base[i],
                forall|h: int|
                    0 <= h < ir.functions@.len() ==> (#[trigger] backend.func_offsets@[base.len() + h]).0@
                        == ir.functions@[h].name@ && backend.func_offsets@[base.len() + h].1
                        < backend.encoder.code@.len(),
                pending_ok(pending, backend.encoder.code@.len()),
                forall|h: int| 0 <= h < ir.functions@.len() ==> function_compilable(#[trigger] ir.functions@[h]),
                forall|x: int|
                    0 <= x < pending.calls@.len() ==> program_calls(*ir, (#[trigger] pending.calls@[x]).1@),
                forall|x: int|
                    0 <= x < c ==> function_known(*ir, base, (#[trigger] pending.calls@[x]).1@),
                forall|h: int, b: int, j: int|
                    0 <= h < ir.functions@.len() && 0 <= b < ir.functions@[h].blocks@.len() && 0 <= j
                        < ir.functions@[h].blocks@[b].insts@.len() && (
                    #[trigger] ir.functions@[h].blocks@[b].insts@[j]) is Call ==> call_recorded(
                        pending.calls@,
                        call_target(ir.functions@[h].blocks@[b].insts@[j])->0,
                    ),
            decreases pending.calls.len() - c,
        {
            let patch_pos = pending.calls[c].0;
            let found = crate::backend::elf::find_offset(&backend.func_offsets, pending.calls[c].1.as_str());
            proof {
                lemma_offsets_known(*ir, base, backend.func_offsets@, pending.calls@[c as int].1@);
            }
            match found {
                Some(target_offset) => {
                    let rel = crate::backend::x86_64::encoder::rel32(target_offset, patch_pos);
                    let ghost code1 = backend.encoder.code@;
                    backend.encoder.patch_i32_le(patch_pos, rel);
                    proof {
                        broadcast use crate::backend::x86_64::encoder::lemma_le_bytes_len;
                        let bl = base.len() as int;
                        let n = ir.functions@.len() as int;
                        let offs = backend.func_offsets@;
                        let code = backend.encoder.code@;
                        assert(rel == call_disp(offs, patch_pos, pending.calls@[c as int].1@));
                        assert forall|h: int| 0 <= h < n implies (#[trigger] offs[bl + h]).1 + 4 <= code.len()
                            && code.subrange(offs[bl + h].1 as int, offs[bl + h].1 + 4) == prologue_code() by {
                            assert(apart(pending.calls@[c as int].0 as int, 4, offs[bl + h].1 as int, 4));
                            lemma_patch_keeps(code1, patch_pos as int, le_i32(rel), offs[bl + h].1 as int, 4);
                        }
                        assert forall|c2: int| 0 <= c2 < c + 1 implies (#[trigger] pending.calls@[c2]).0 + 4
                            <= code.len() && code.subrange(pending.calls@[c2].0 as int, pending.calls@[c2].0 + 4)
                            == le_i32(call_disp(offs, pending.calls@[c2].0, pending.calls@[c2].1@)) by {
                            if c2 < c {
                                assert(apart(pending.calls@[c as int].0 as int, 4, pending.calls@[c2].0 as int, 4));
                                lemma_patch_keeps(code1, patch_pos as int, le_i32(rel), pending.calls@[c2].0 as int, 4);
                            } else {
                                lemma_patch_here(code1, patch_pos as int, le_i32(rel));
                            }
                        }
                    }
                },
                None => {
                    proof {
                        let name = pending.calls@[c as int].1@;
                        assert(program_calls(*ir, name));
                        let (h, b, j) = choose|h: int, b: int, j: int|
                            0 <= h < ir.functions@.len() && 0 <= b < ir.functions@[h].blocks@.len() && 0 <= j
                                < ir.functions@[h].blocks@[b].insts@.len() && call_target(
                                #[trigger] ir.functions@[h].blocks@[b].insts@[j],
                            ) == Some(name);
                        assert(!function_known(*ir, base, name));
                        assert(ir.functions@[h].blocks@[b].insts@[j] is Call);
                        assert(call_target(ir.functions@[h].blocks@[b].insts@[j])->0 == name);
                        assert(!calls_resolve(*ir, base));
                        assert(base == self.func_offsets@);
                    }
                    let msg = concat("Undefined target function call: ", pending.calls[c].1.as_str());
                    return Err(ForgeError::codegen(msg));
                },
            }
            c += 1;
        }
        proof {
            assert forall|h: int, b: int, j: int|
                0 <= h < ir.functions@.len() && 0 <= b < ir.functions@[h].blocks@.len() && 0 <= j
                    < ir.functions@[h].blocks@[b].insts@.len() && (
                #[trigger] ir.functions@[h].blocks@[b].insts@[j]) is Call implies function_known(
                *ir,
                base,
                call_target(ir.functions@[h].blocks@[b].insts@[j])->0,
            ) by {
                let x = choose|x: int|
                    0 <= x < pending.calls@.len() && (#[trigger] pending.calls@[x]).1@ == call_target(ir.functions@[h].blocks@[b].insts@[j])->0;
            }
        }
        // Runtime routines.
        let ghost code_f = backend.encoder.code@;
        let helper_print_str_offset = backend.encoder.emit_print_str_helper();
        let helper_print_int_offset = backend.encoder.emit_print_int_helper();
        let helper_print_int_inline_offset = backend.encoder.emit_print_int_inline_helper();
        let helper_pow_int_offset = backend.encoder.emit_pow_int_helper();
        let helper_input_int_offset = backend.encoder.emit_input_int_helper();
        proof {
            broadcast use crate::backend::x86_64::encoder::lemma_le_bytes_len;
            assert(print_str_routine().len() == 62);
            assert(print_int_routine().len() == 203);
            assert(print_int_inline_routine().len() == 200);
            assert(pow_int_routine().len() == 57);
            assert(input_int_routine().len() == 160);
            assert(backend.encoder.code@ =~= code_f + runtime_routines());
            assert(backend.encoder.code@.subrange(f_end as int, f_end + 682int) =~= runtime_routines());
            let bl = base.len() as int;
            let n = ir.functions@.len() as int;
            let offs = backend.func_offsets@;
            let code = backend.encoder.code@;
            assert forall|hh: int| 0 <= hh < n implies (#[trigger] offs[bl + hh]).1 + 4 <= code.len() && code.subrange(
                offs[bl + hh].1 as int,
                offs[bl + hh].1 + 4,
            ) == prologue_code() by {
                lemma_append_keeps(code_f, runtime_routines(), offs[bl + hh].1 as int, 4);
            }
            assert forall|c: int| 0 <= c < pending.calls@.len() implies (#[trigger] pending.calls@[c]).0 + 4 <= code.len()
                && code.subrange(pending.calls@[c].0 as int, pending.calls@[c].0 + 4) == le_i32(
                call_disp(offs, pending.calls@[c].0, pending.calls@[c].1@),
            ) by {
                lemma_append_keeps(code_f, runtime_routines(), pending.calls@[c].0 as int, 4);
            }
            assert(image_ok(code, pending, offs, bl, n, f_end as int, 0));
        }
        let mut h: usize = 0;
        while h < pending.helpers.len()
            invariant
                h <= pending.helpers@.len(),
                forall|gg: int| 0 <= gg < ir.functions@.len() ==> (#[trigger] backend.func_offsets@[base.len() + gg]).1 < f_end,
                forall|hh: int, b: int, j: int|
                    0 <= hh < ir.functions@.len() && 0 <= b < ir.functions@[hh].blocks@.len() && 0 <= j
                        < ir.functions@[hh].blocks@[b].insts@.len() && (
                    #[trigger] ir.functions@[hh].blocks@[b].insts@[j]) is Call ==> call_recorded(
                        pending.calls@,
                        call_target(ir.functions@[hh].blocks@[b].insts@[j])->0,
                    ),
                image_ok(
                    backend.encoder.code@,
                    pending,
                    backend.func_offsets@,
                    base.len() as int,
                    ir.functions@.len() as int,
                    f_end as int,
                    h as int,
                ),
                helper_print_str_offset == f_end + routine_offset(HelperKind::PrintStr),
                helper_print_int_offset == f_end + routine_offset(HelperKind::PrintInt),
                helper_print_int_inline_offset == f_end + routine_offset(HelperKind::PrintIntInline),
                helper_pow_int_offset == f_end + routine_offset(HelperKind::PowInt),
                helper_input_int_offset == f_end + routine_offset(HelperKind::InputInt),
                pending_ok(pending, backend.encoder.code@.len()),
                forall|i: int| 0 <= i < base.len() ==> #[trigger] backend.func_offsets@[i] == base[i],
                backend.func_offsets@.len() == base.len() + ir.functions@.len(),
                offsets_ascending(
                    backend.func_offsets@,
                    base.len() as int,
                    ir.functions@.len() as int,
                    self.encoder.code@.len(),
                ),
                forall|g: int|
                    0 <= g < ir.functions@.len() ==> (#[trigger] backend.func_offsets@[base.len() + g]).0@
                        == ir.functions@[g].name@ && backend.func_offsets@[base.len() + g].1
                        < backend.encoder.code@.len(),
            decreases pending.helpers.len() - h,
        {
            let (patch_pos, kind) = pending.helpers[h];
            let target_offset = match kind {
                HelperKind::PrintStr => helper_print_str_offset,
                HelperKind::PrintInt => helper_print_int_offset,
                HelperKind::PrintIntInline => helper_print_int_inline_offset,
                HelperKind::PowInt => helper_pow_int_offset,
                HelperKind::InputInt => helper_input_int_offset,
            };
            let rel = crate::backend::x86_64::encoder::rel32(target_offset, patch_pos);
            let ghost code1 = backend.encoder.code@;
            proof {
                broadcast use crate::backend::x86_64::encoder::lemma_le_bytes_len;
                assert(rel == helper_disp(f_end as int, patch_pos, kind));
                let bl = base.len() as int;
                let offs = backend.func_offsets@;
                assert forall|hh: int| 0 <= hh < ir.functions@.len() implies apart(
                    patch_pos as int,
                    le_i32(rel).len() as int,
                    (#[trigger] offs[bl + hh]).1 as int,
                    4,
                ) by {
                    assert(apart(pending.helpers@[h as int].0 as int, 4, offs[bl + hh].1 as int, 4));
                }
                assert forall|c: int| 0 <= c < pending.calls@.len() implies apart(
                    patch_pos as int,
                    le_i32(rel).len() as int,
                    (#[trigger] pending.calls@[c]).0 as int,
                    4,
                ) by {
                    assert(apart(pending.calls@[c].0 as int, 4, pending.helpers@[h as int].0 as int, 4));
                }
                assert forall|c: int| 0 <= c < h implies apart(
                    patch_pos as int,
                    le_i32(rel).len() as int,
                    (#[trigger] pending.helpers@[c]).0 as int,
                    4,
                ) by {
                    assert(apart(pending.helpers@[h as int].0 as int, 4, pending.helpers@[c].0 as int, 4));
                }
                lemma_patch_image(
                    code1,
                    patch_pos as int,
                    le_i32(rel),
                    pending,
                    offs,
                    bl,
                    ir.functions@.len() as int,
                    f_end as int,
                    h as int,
                );
            }
            backend.encoder.patch_i32_le(patch_pos, rel);
            proof {
                broadcast use crate::backend::x86_64::encoder::lemma_le_bytes_len;
                lemma_patch_here(code1, patch_pos as int, le_i32(rel));
                let code = backend.encoder.code@;
                assert forall|c: int| 0 <= c < h + 1 implies (#[trigger] pending.helpers@[c]).0 + 4 <= code.len()
                    && code.subrange(pending.helpers@[c].0 as int, pending.helpers@[c].0 + 4) == le_i32(
                    helper_disp(f_end as int, pending.helpers@[c].0, pending.helpers@[c].1),
                ) by {}
            }
            h += 1;
        }
        // String literals, addressed where the ELF image loads the code.
        let base_vaddr: u64 = 0x400000;
        let header_size: u64 = 128;
        let stub_size: u64 = 17;
        let mut str_vaddrs: Vec<u64> = Vec::new();
        let mut l: usize = 0;
        while l < pending.literals.len()
            invariant
                l <= pending.literals@.len(),
                forall|gg: int| 0 <= gg < ir.functions@.len() ==> (#[trigger] backend.func_offsets@[base.len() + gg]).1 < f_end,
                forall|hh: int, b: int, j: int|
                    0 <= hh < ir.functions@.len() && 0 <= b < ir.functions@[hh].blocks@.len() && 0 <= j
                        < ir.functions@[hh].blocks@[b].insts@.len() && (
                    #[trigger] ir.functions@[hh].blocks@[b].insts@[j]) is Call ==> call_recorded(
                        pending.calls@,
                        call_target(ir.functions@[hh].blocks@[b].insts@[j])->0,
                    ),
                str_vaddrs@.len() == l,
                image_ok(
                    backend.encoder.code@,
                    pending,
                    backend.func_offsets@,
                    base.len() as int,
                    ir.functions@.len() as int,
                    f_end as int,
                    pending.helpers@.len() as int,
                ),
                pending_ok(pending, backend.encoder.code@.len()),
                forall|i: int| 0 <= i < base.len() ==> #[trigger] backend.func_offsets@[i] == base[i],
                backend.func_offsets@.len() == base.len() + ir.functions@.len(),
                offsets_ascending(
                    backend.func_offsets@,
                    base.len() as int,
                    ir.functions@.len() as int,
                    self.encoder.code@.len(),
                ),
                forall|g: int|
                    0 <= g < ir.functions@.len() ==> (#[trigger] backend.func_offsets@[base.len() + g]).0@
                        == ir.functions@[g].name@ && backend.func_offsets@[base.len() + g].1
                        < backend.encoder.code@.len(),
            decreases pending.literals.len() - l,
        {
            let str_code_offset = backend.encoder.len() as u64;
            let str_vaddr = base_vaddr.wrapping_add(header_size).wrapping_add(stub_size).wrapping_add(
                str_code_offset,
            );
            str_vaddrs.push(str_vaddr);
            let ghost code1 = backend.encoder.code@;
            backend.encoder.emit_bytes(pending.literals[l].as_str().as_bytes());
            proof {
                let r = backend.encoder.code@.subrange(code1.len() as int, backend.encoder.code@.len() as int);
                assert(backend.encoder.code@ =~= code1 + r);
                lemma_append_image(
                    code1,
                    r,
                    pending,
                    backend.func_offsets@,
                    base.len() as int,
                    ir.functions@.len() as int,
                    f_end as int,
                    pending.helpers@.len() as int,
                );
            }
            l += 1;
        }
        let mut x: usize = 0;
        while x < pending.strings.len()
            invariant
                x <= pending.strings@.len(),
                forall|gg: int| 0 <= gg < ir.functions@.len() ==> (#[trigger] backend.func_offsets@[base.len() + gg]).1 < f_end,
                forall|hh: int, b: int, j: int|
                    0 <= hh < ir.functions@.len() && 0 <= b < ir.functions@[hh].blocks@.len() && 0 <= j
                        < ir.functions@[hh].blocks@[b].insts@.len() && (
                    #[trigger] ir.functions@[hh].blocks@[b].insts@[j]) is Call ==> call_recorded(
                        pending.calls@,
                        call_target(ir.functions@[hh].blocks@[b].insts@[j])->0,
                    ),
                str_vaddrs@.len() == pending.literals@.len(),
                image_ok(
                    backend.encoder.code@,
                    pending,
                    backend.func_offsets@,
                    base.len() as int,
                    ir.functions@.len() as int,
                    f_end as int,
                    pending.helpers@.len() as int,
                ),
                pending_ok(pending, backend.encoder.code@.len()),
                forall|i: int| 0 <= i < base.len() ==> #[trigger] backend.func_offsets@[i] == base[i],
                backend.func_offsets@.len() == base.len() + ir.functions@.len(),
                offsets_ascending(
                    backend.func_offsets@,
                    base.len() as int,
                    ir.functions@.len() as int,
                    self.encoder.code@.len(),
                ),
                forall|g: int|
                    0 <= g < ir.functions@.len() ==> (#[trigger] backend.func_offsets@[base.len() + g]).0@
                        == ir.functions@[g].name@ && backend.func_offsets@[base.len() + g].1
                        < backend.encoder.code@.len(),
            decreases pending.strings.len() - x,
        {
            let (patch_pos, str_id) = pending.strings[x];
            let ghost code1 = backend.encoder.code@;
            let ghost v = crate::backend::x86_64::encoder::le_bytes(str_vaddrs@[str_id as int] as nat, 8);
            proof {
                broadcast use crate::backend::x86_64::encoder::lemma_le_bytes_len;
                let bl = base.len() as int;
                let offs = backend.func_offsets@;
                assert forall|hh: int| 0 <= hh < ir.functions@.len() implies apart(
                    patch_pos as int,
                    v.len() as int,
                    (#[trigger] offs[bl + hh]).1 as int,
                    4,
                ) by {
                    assert(apart(pending.strings@[x as int].0 as int, 8, offs[bl + hh].1 as int, 4));
                }
                assert forall|c: int| 0 <= c < pending.calls@.len() implies apart(
                    patch_pos as int,
                    v.len() as int,
                    (#[trigger] pending.calls@[c]).0 as int,
                    4,
                ) by {
                    assert(apart(pending.calls@[c].0 as int, 4, pending.strings@[x as int].0 as int, 8));
                }
                assert forall|c: int| 0 <= c < pending.helpers@.len() implies apart(
                    patch_pos as int,
                    v.len() as int,
                    (#[trigger] pending.helpers@[c]).0 as int,
                    4,
                ) by {
                    assert(apart(pending.helpers@[c].0 as int, 4, pending.strings@[x as int].0 as int, 8));
                }
                lemma_patch_image(
                    code1,
                    patch_pos as int,
                    v,
                    pending,
                    offs,
                    bl,
                    ir.functions@.len() as int,
                    f_end as int,
                    pending.helpers@.len() as int,
                );
            }
            patch_u64_le(&mut backend.encoder.code, patch_pos, str_vaddrs[str_id]);
            x += 1;
        }
        proof {
            assert(program_image(
                backend.encoder.code@,
                backend.func_offsets@,
                *ir,
                base.len() as int,
                f_end as int,
                pending.calls@,
                pending.helpers@,
            ));
            assert(exists|routines: int, calls: Seq<(usize, String)>, helpers: Seq<(usize, HelperKind)>|
                program_image(
                    backend.encoder.code@,
                    backend.func_offsets@,
                    *ir,
                    base.len() as int,
                    routines,
                    calls,
                    helpers,
                ));
        }
        Ok((backend.encoder.code, backend.func_offsets))
    }

    /// Compiles one function: frame layout, prologue, blocks and the patching of
    /// its jumps. The function's offset is recorded first.
    fn compile_function(&mut self, func: &IrFunction, pending: &mut Pending) -> (r: Result<
        (),
        ForgeError,
    >)
        requires
            pending_ok(*old(pending), old(self).encoder.code@.len()),
        ensures
            pending_after(*old(pending), *final(pending), old(self).encoder.code@.len() + 4),
            keeps_prefix(old(self).encoder.code@, final(self).encoder.code@),
            r is Ok ==> final(self).encoder.code@.len() >= old(self).encoder.code@.len() + 4
                && final(self).encoder.code@.subrange(
                old(self).encoder.code@.len() as int,
                old(self).encoder.code@.len() + 4int,
            ) == prologue_code(),
            r is Ok ==> function_compilable(*func),
            function_sound(*func) && frame_certain(*func) ==> r is Ok,
            function_sound(*func) ==> (r matches Err(e) ==> e.message@ == frame_message(func.name@)
                || e.message@ == too_large_message(func.name@)),
            old(self).encoder.code@.len() <= final(self).encoder.code@.len(),
            final(self).func_offsets@ == old(self).func_offsets@.push(
                (final(self).func_offsets@.last().0, old(self).encoder.code@.len() as usize),
            ),
            final(self).func_offsets@.last().0@ == func.name@,
            r is Ok ==> old(self).encoder.code@.len() < final(self).encoder.code@.len(),
            pending_ok(*final(pending), final(self).encoder.code@.len()),
            old(pending).calls@.len() <= final(pending).calls@.len(),
            forall|i: int|
                0 <= i < old(pending).calls@.len() ==> final(pending).calls@[i] == old(
                    pending,
                ).calls@[i],
            forall|i: int|
                old(pending).calls@.len() <= i < final(pending).calls@.len() ==> blocks_call(
                    func.blocks@,
                    (#[trigger] final(pending).calls@[i]).1@,
                ),
            r is Ok ==> forall|b: int, j: int|
                0 <= b < func.blocks@.len() && 0 <= j < func.blocks@[b].insts@.len() && (
                #[trigger] func.blocks@[b].insts@[j]) is Call ==> call_recorded(
                    final(pending).calls@,
                    call_target(func.blocks@[b].insts@[j])->0,
                ),
    {
        let func_start = self.encoder.len();
        self.func_offsets.push((func.name.clone(), func_start));
        let span = function_span(func);
        if span == usize::MAX {
            proof {
                if frame_certain(*func) {
                    lemma_certain_fits(*func);
                }
            }
            let too_large = concat(
                concat("Function '", func.name.as_str()).as_str(),
                "' is too large for the native backend",
            );
            return Err(ForgeError::codegen(too_large));
        }
        let a = match allocate_vregs(func) {
            Some(a) => a,
            None => {
                return Err(frame_error(&func.name));
            },
        };
        if a.spill_count >= MAX_SPILL_SLOTS {
            return Err(frame_error(&func.name));
        }
        let ghost bs = func.blocks@;
        // Stack variables live after the callee-save area and the spill slots.
        let mut vars: Vec<(String, i32)> = Vec::new();
        let mut current_offset: i32 = (48 + 8 * a.spill_count) as i32;
        let mut overflow = false;
        let mut b: usize = 0;
        let mut seen: usize = 0;
        while b < func.blocks.len()
            invariant
                bs == func.blocks@,
                b <= bs.len(),
                seen <= blocks_span(bs.take(b as int)),
                blocks_span(bs) < usize::MAX,
                a.spill_count < MAX_SPILL_SLOTS,
                a.spill_count <= func_occ(*func).len(),
                vars@.len() <= seen,
                current_offset == 48 + 8 * a.spill_count + 8 * vars@.len(),
                overflow ==> !frame_certain(*func),
                vars_ok(vars@),
                !overflow ==> forall|bb: int, j: int|
                    0 <= bb < b && 0 <= j < bs[bb].insts@.len() && (inst_var(
                        #[trigger] bs[bb].insts@[j],
                    ) is Some) ==> var_slot(vars@, inst_var(bs[bb].insts@[j])->0),
            decreases bs.len() - b,
        {
            proof {
                assert(bs.take(b + 1).drop_last() =~= bs.take(b as int));
                lemma_blocks_span_mono(bs, b + 1);
            }
            let block = &func.blocks[b];
            let mut i: usize = 0;
            while i < block.insts.len()
                invariant
                    bs == func.blocks@,
                    b < bs.len(),
                    *block == bs[b as int],
                    i <= block.insts@.len(),
                    seen <= blocks_span(bs.take(b as int)) + i,
                    blocks_span(bs.take(b as int)) + block.insts@.len() + 1 <= blocks_span(bs),
                    blocks_span(bs) < usize::MAX,
                    a.spill_count < MAX_SPILL_SLOTS,
                    a.spill_count <= func_occ(*func).len(),
                    vars@.len() <= seen,
                    current_offset == 48 + 8 * a.spill_count + 8 * vars@.len(),
                    overflow ==> !frame_certain(*func),
                    vars_ok(vars@),
                    !overflow ==> forall|bb: int, j: int|
                        0 <= bb < b && 0 <= j < bs[bb].insts@.len() && (inst_var(
                            #[trigger] bs[bb].insts@[j],
                        ) is Some) ==> var_slot(vars@, inst_var(bs[bb].insts@[j])->0),
                    !overflow ==> forall|j: int|
                        0 <= j < i && (inst_var(#[trigger] block.insts@[j]) is Some) ==> var_slot(
                            vars@,
                            inst_var(block.insts@[j])->0,
                        ),
                decreases block.insts.len() - i,
            {
                let name: Option<&String> = match &block.insts[i] {
                    IrInst::LoadVar { var_name, .. } => Some(var_name),
                    IrInst::StoreVar { var_name, .. } => Some(var_name),
                    _ => None,
                };
                if let Some(var_name) = name {
                    let mut j: usize = 0;
                    while j < vars.len() && !(vars[j].0 == *var_name)
                        invariant
                            j <= vars@.len(),
                            forall|l: int| 0 <= l < j ==> vars@[l].0@ != var_name@,
                        decreases vars.len() - j,
                    {
                        j += 1;
                    }
                    if j == vars.len() && current_offset > 2147483639 {
                        overflow = true;
                    } else if j == vars.len() {
                        let ghost old_vars = vars@;
                        vars.push((var_name.clone(), current_offset));
                        current_offset = current_offset + 8;
                        proof {
                            if !overflow {
                                assert(vars@[old_vars.len() as int].0@ == var_name@);
                                assert forall|bb: int, jj: int|
                                    0 <= bb < b && 0 <= jj < bs[bb].insts@.len() && (inst_var(
                                        #[trigger] bs[bb].insts@[jj],
                                    ) is Some) implies var_slot(
                                    vars@,
                                    inst_var(bs[bb].insts@[jj])->0,
                                ) by {
                                    let w = choose|w: int|
                                        0 <= w < old_vars.len() && (#[trigger] old_vars[w]).0@
                                            == inst_var(bs[bb].insts@[jj])->0;
                                    assert(vars@[w] == old_vars[w]);
                                }
                                assert forall|jj: int|
                                    0 <= jj < i && (inst_var(#[trigger] block.insts@[jj]) is Some) implies var_slot(
                                    vars@,
                                    inst_var(block.insts@[jj])->0,
                                ) by {
                                    let w = choose|w: int|
                                        0 <= w < old_vars.len() && (#[trigger] old_vars[w]).0@
                                            == inst_var(block.insts@[jj])->0;
                                    assert(vars@[w] == old_vars[w]);
                                }
                            }
                        }
                    } else {
                        assert(vars@[j as int].0@ == var_name@);
                    }
                }
                seen += 1;
                i += 1;
            }
            b += 1;
        }
        if overflow {
            return Err(frame_error(&func.name));
        }
        let raw_stack_size = (current_offset - 8) as u32;
        let stack_frame_size = (raw_stack_size + 15) / 16 * 16;
        // Prologue.
        self.encoder.push_rbp();
        self.encoder.mov_rbp_rsp();
        let ghost c_pro = self.encoder.code@;
        proof {
            assert(c_pro.subrange(func_start as int, func_start + 4) =~= prologue_code());
            assert(keeps_prefix(old(self).encoder.code@, c_pro));
        }
        if stack_frame_size > 0 {
            self.encoder.sub_rsp_imm32(stack_frame_size);
        }
        self.encoder.store_rbp_disp32(8, Reg::RBX);
        self.encoder.store_rbp_disp32(16, Reg::R12);
        self.encoder.store_rbp_disp32(24, Reg::R13);
        self.encoder.store_rbp_disp32(32, Reg::R14);
        self.encoder.store_rbp_disp32(40, Reg::R15);
        let mut block_offsets: Vec<(String, usize)> = Vec::new();
        let mut jumps: Vec<(usize, String)> = Vec::new();
        let ghost calls0 = pending.calls@;
        let mut b: usize = 0;
        while b < func.blocks.len()
            invariant
                bs == func.blocks@,
                b <= bs.len(),
                allocation_of(*func, a),
                alloc_ok(a),
                vars_ok(vars@),
                forall|bb: int, j: int|
                    0 <= bb < bs.len() && 0 <= j < bs[bb].insts@.len() && (inst_var(
                        #[trigger] bs[bb].insts@[j],
                    ) is Some) ==> var_slot(vars@, inst_var(bs[bb].insts@[j])->0),
                func_start == old(self).encoder.code@.len(),
                func_start < self.encoder.code@.len(),
                self.func_offsets@ == old(self).func_offsets@.push((func.name, func_start)),
                pending_ok(*pending, self.encoder.code@.len()),
                pending_after(*old(pending), *pending, old(self).encoder.code@.len() + 4),
                same_below(c_pro, self.encoder.code@, func_start + 4),
                keeps_prefix(old(self).encoder.code@, c_pro),
                c_pro.subrange(func_start as int, func_start + 4) == prologue_code(),
                forall|y: int| 0 <= y < jumps@.len() ==> (#[trigger] jumps@[y]).0 >= func_start + 4,
                calls0 == old(pending).calls@,
                block_offsets@.len() == b,
                forall|bb: int|
                    0 <= bb < b ==> (#[trigger] block_offsets@[bb]).0@ == bs[bb].label@,
                forall|x: int| 0 <= x < jumps@.len() ==> (#[trigger] jumps@[x]).0 + 4 <= self.encoder.code@.len(),
                forall|x: int| 0 <= x < jumps@.len() ==> is_target(bs, b as int, (#[trigger] jumps@[x]).1@),
                forall|bb: int, t: int|
                    0 <= bb < b && 0 <= t < term_targets(bs[bb].terminator).len() ==> jump_recorded(
                        jumps@,
                        #[trigger] term_targets(bs[bb].terminator)[t],
                    ),
                forall|bb: int, j: int|
                    0 <= bb < b && 0 <= j < bs[bb].insts@.len() ==> inst_compilable(
                        #[trigger] bs[bb].insts@[j],
                    ),
                calls0.len() <= pending.calls@.len(),
                forall|x: int| 0 <= x < calls0.len() ==> pending.calls@[x] == calls0[x],
                forall|x: int|
                    calls0.len() <= x < pending.calls@.len() ==> blocks_call(bs, (#[trigger] pending.calls@[x]).1@),
                forall|bb: int, j: int|
                    0 <= bb < b && 0 <= j < bs[bb].insts@.len() && (#[trigger] bs[bb].insts@[j]) is Call
                        ==> call_recorded(pending.calls@, call_target(bs[bb].insts@[j])->0),
            decreases bs.len() - b,
        {
            let block = &func.blocks[b];
            let block_start = self.encoder.len();
            block_offsets.push((block.label.clone(), block_start));
            proof {
                assert forall|j: int| 0 <= j < block.insts@.len() implies inst_allocated(
                    a,
                    #[trigger] block.insts@[j],
                ) by {
                    lemma_inst_allocated(*func, a, b as int, j);
                }
                lemma_term_allocated(*func, a, b as int);
                assert forall|j: int| 0 <= j < block.insts@.len() && (inst_var(#[trigger] block.insts@[j]) is Some) implies var_slot(
                    vars@,
                    inst_var(block.insts@[j])->0,
                ) by {
                    assert(block.insts@[j] == bs[b as int].insts@[j]);
                }
            }
            let ghost jumps0 = jumps@;
            let ghost before = pending.calls@;
            let ghost p_before = *pending;
            let ghost len_before = self.encoder.code@.len();
            let res = self.compile_block(block, &a, &vars, pending, &mut jumps);
            proof {
                lemma_pending_after_trans(
                    *old(pending),
                    p_before,
                    *pending,
                    old(self).encoder.code@.len() + 4,
                    len_before,
                );
            }
            if res.is_err() {
                proof {
                    let j = choose|j: int| 0 <= j < block.insts@.len() && !inst_compilable(#[trigger] block.insts@[j]);
                    assert(!inst_compilable(bs[b as int].insts@[j]));
                    assert forall|x: int|
                        calls0.len() <= x < pending.calls@.len() implies blocks_call(bs, (#[trigger] pending.calls@[x]).1@) by {
                        if x < before.len() {
                            assert(pending.calls@[x] == before[x]);
                        } else {
                            let j = choose|j: int| 0 <= j < block.insts@.len() && call_target(#[trigger] block.insts@[j]) == Some(pending.calls@[x].1@);
                            assert(call_target(bs[b as int].insts@[j]) == Some(pending.calls@[x].1@));
                        }
                    }
                }
                return res;
            }
            proof {
                let tt = term_targets(bs[b as int].terminator);
                assert forall|x: int| 0 <= x < jumps@.len() implies is_target(bs, b + 1, (#[trigger] jumps@[x]).1@) by {
                    if x < jumps0.len() {
                        assert(jumps@[x] == jumps0[x]);
                        assert(is_target(bs, b as int, jumps0[x].1@));
                        let (bb, t) = choose|bb: int, t: int|
                            0 <= bb < b && 0 <= t < term_targets(bs[bb].terminator).len()
                                && #[trigger] term_targets(bs[bb].terminator)[t] == jumps0[x].1@;
                    } else {
                        assert(tt[x - jumps0.len()] == jumps@[x].1@);
                    }
                }
                assert forall|bb: int, t: int|
                    0 <= bb < b + 1 && 0 <= t < term_targets(bs[bb].terminator).len() implies jump_recorded(
                        jumps@,
                        #[trigger] term_targets(bs[bb].terminator)[t],
                    ) by {
                    if bb < b {
                        let x = choose|x: int|
                            0 <= x < jumps0.len() && (#[trigger] jumps0[x]).1@ == term_targets(bs[bb].terminator)[t];
                        assert(jumps@[x] == jumps0[x]);
                    } else {
                        assert(jumps@[jumps0.len() + t].1@ == tt[t]);
                    }
                }
                assert forall|x: int|
                    calls0.len() <= x < pending.calls@.len() implies blocks_call(bs, (#[trigger] pending.calls@[x]).1@) by {
                    if x < before.len() {
                        assert(pending.calls@[x] == before[x]);
                    } else {
                        let j = choose|j: int| 0 <= j < block.insts@.len() && call_target(#[trigger] block.insts@[j]) == Some(pending.calls@[x].1@);
                        assert(call_target(bs[b as int].insts@[j]) == Some(pending.calls@[x].1@));
                    }
                }
                assert forall|bb: int, j: int|
                    0 <= bb < b + 1 && 0 <= j < bs[bb].insts@.len() && (#[trigger] bs[bb].insts@[j]) is Call
                        implies call_recorded(pending.calls@, call_target(bs[bb].insts@[j])->0) by {
                    if bb < b {
                        let x = choose|x: int|
                            0 <= x < before.len() && (#[trigger] before[x]).1@ == call_target(bs[bb].insts@[j])->0;
                        assert(pending.calls@[x] == before[x]);
                    } else {
                        assert(bs[bb].insts@[j] == block.insts@[j]);
                    }
                }
                assert forall|bb: int, j: int|
                    0 <= bb < b + 1 && 0 <= j < bs[bb].insts@.len() implies inst_compilable(
                        #[trigger] bs[bb].insts@[j],
                    ) by {
                    if bb == b {
                        assert(bs[bb].insts@[j] == block.insts@[j]);
                    }
                }
            }
            b += 1;
        }
        let mut x: usize = 0;
        while x < jumps.len()
            invariant
                bs == func.blocks@,
                x <= jumps@.len(),
                block_offsets@.len() == bs.len(),
                forall|bb: int|
                    0 <= bb < bs.len() ==> (#[trigger] block_offsets@[bb]).0@ == bs[bb].label@,
                forall|y: int| 0 <= y < jumps@.len() ==> (#[trigger] jumps@[y]).0 + 4 <= self.encoder.code@.len(),
                forall|y: int| 0 <= y < x ==> has_label(*func, (#[trigger] jumps@[y]).1@),
                forall|y: int| 0 <= y < jumps@.len() ==> is_target(bs, bs.len() as int, (#[trigger] jumps@[y]).1@),
                forall|bb: int, t: int|
                    0 <= bb < bs.len() && 0 <= t < term_targets(bs[bb].terminator).len() ==> jump_recorded(
                        jumps@,
                        #[trigger] term_targets(bs[bb].terminator)[t],
                    ),
                func_start == old(self).encoder.code@.len(),
                func_start < self.encoder.code@.len(),
                self.func_offsets@ == old(self).func_offsets@.push((func.name, func_start)),
                pending_ok(*pending, self.encoder.code@.len()),
                pending_after(*old(pending), *pending, old(self).encoder.code@.len() + 4),
                same_below(c_pro, self.encoder.code@, func_start + 4),
                keeps_prefix(old(self).encoder.code@, c_pro),
                c_pro.subrange(func_start as int, func_start + 4) == prologue_code(),
                forall|y: int| 0 <= y < jumps@.len() ==> (#[trigger] jumps@[y]).0 >= func_start + 4,
                calls0 == old(pending).calls@,
                calls0.len() <= pending.calls@.len(),
                forall|y: int| 0 <= y < calls0.len() ==> pending.calls@[y] == calls0[y],
                forall|y: int|
                    calls0.len() <= y < pending.calls@.len() ==> blocks_call(bs, (#[trigger] pending.calls@[y]).1@),
                forall|bb: int, j: int|
                    0 <= bb < bs.len() && 0 <= j < bs[bb].insts@.len() && (#[trigger] bs[bb].insts@[j]) is Call
                        ==> call_recorded(pending.calls@, call_target(bs[bb].insts@[j])->0),
                forall|bb: int, j: int|
                    0 <= bb < bs.len() && 0 <= j < bs[bb].insts@.len() ==> inst_compilable(
                        #[trigger] bs[bb].insts@[j],
                    ),
                function_fits(*func),
            decreases jumps.len() - x,
        {
            let (patch_pos, target_label) = (jumps[x].0, &jumps[x].1);
            match crate::backend::elf::find_offset(&block_offsets, target_label.as_str()) {
                Some(target_offset) => {
                    proof {
                        crate::backend::elf::lemma_lookup_offset_found(block_offsets@, target_label@);
                        let w = choose|w: int|
                            0 <= w < block_offsets@.len() && (#[trigger] block_offsets@[w]).0@ == target_label@;
                        assert(bs[w].label@ == target_label@);
                    }
                    let rel = crate::backend::x86_64::encoder::rel32(target_offset, patch_pos);
                    self.encoder.patch_i32_le(patch_pos, rel);
                },
                None => {
                    proof {
                        crate::backend::elf::lemma_lookup_offset_found(block_offsets@, target_label@);
                        assert(is_target(bs, bs.len() as int, jumps@[x as int].1@));
                        let (bb, t) = choose|bb: int, t: int|
                            0 <= bb < bs.len() && 0 <= t < term_targets(bs[bb].terminator).len()
                                && #[trigger] term_targets(bs[bb].terminator)[t] == jumps@[x as int].1@;
                        if has_label(*func, target_label@) {
                            let w = choose|w: int| 0 <= w < bs.len() && (#[trigger] bs[w]).label@ == target_label@;
                            assert(block_offsets@[w].0@ == target_label@);
                        }
                        assert(!has_label(*func, term_targets(bs[bb].terminator)[t]));
                    }
                    let msg = concat("Undefined jump target block: ", target_label.as_str());
                    return Err(ForgeError::codegen(msg));
                },
            }
            x += 1;
        }
        proof {
            assert forall|bb: int, t: int|
                0 <= bb < bs.len() && 0 <= t < term_targets(bs[bb].terminator).len() implies has_label(
                *func,
                #[trigger] term_targets(bs[bb].terminator)[t],
            ) by {
                assert(jump_recorded(jumps@, term_targets(bs[bb].terminator)[t]));
                let y = choose|y: int|
                    0 <= y < jumps@.len() && (#[trigger] jumps@[y]).1@ == term_targets(bs[bb].terminator)[t];
            }
        }
        Ok(())
    }

    /// Compiles one block: its instructions, then its terminator, recording
    /// the jumps still to be patched.
    fn compile_block(
        &mut self,
        block: &crate::ir::BasicBlock,
        a: &Allocation,
        vars: &Vec<(String, i32)>,
        pending: &mut Pending,
        jumps: &mut Vec<(usize, String)>,
    ) -> (r: Result<(), ForgeError>)
        requires
            alloc_ok(*a),
            vars_ok(vars@),
            forall|j: int| 0 <= j < block.insts@.len() ==> inst_allocated(*a, #[trigger] block.insts@[j]),
            term_allocated(*a, block.terminator),
            forall|j: int|
                0 <= j < block.insts@.len() && (inst_var(#[trigger] block.insts@[j]) is Some) ==> var_slot(
                    vars@,
                    inst_var(block.insts@[j])->0,
                ),
            pending_ok(*old(pending), old(self).encoder.code@.len()),
            forall|x: int| 0 <= x < old(jumps)@.len() ==> (#[trigger] old(jumps)@[x]).0 + 4 <= old(self).encoder.code@.len(),
        ensures
            pending_after(*old(pending), *final(pending), old(self).encoder.code@.len()),
            forall|x: int|
                old(jumps)@.len() <= x < final(jumps)@.len() ==> (#[trigger] final(jumps)@[x]).0
                    >= old(self).encoder.code@.len(),
            r is Ok <==> forall|j: int| 0 <= j < block.insts@.len() ==> inst_compilable(#[trigger] block.insts@[j]),
            grows(*old(self), *final(self)),
            pending_ok(*final(pending), final(self).encoder.code@.len()),
            old(pending).calls@.len() <= final(pending).calls@.len(),
            forall|x: int| 0 <= x < old(pending).calls@.len() ==> final(pending).calls@[x] == old(pending).calls@[x],
            forall|x: int|
                old(pending).calls@.len() <= x < final(pending).calls@.len() ==> insts_call(
                    block.insts@,
                    (#[trigger] final(pending).calls@[x]).1@,
                ),
            r is Ok ==> forall|j: int|
                0 <= j < block.insts@.len() && (#[trigger] block.insts@[j]) is Call ==> call_recorded(
                    final(pending).calls@,
                    call_target(block.insts@[j])->0,
                ),
            forall|x: int| 0 <= x < final(jumps)@.len() ==> (#[trigger] final(jumps)@[x]).0 + 4 <= final(self).encoder.code@.len(),
            r is Ok ==> final(jumps)@.len() == old(jumps)@.len() + term_targets(block.terminator).len(),
            r is Ok ==> forall|x: int| 0 <= x < old(jumps)@.len() ==> final(jumps)@[x] == old(jumps)@[x],
            r is Ok ==> forall|t: int|
                0 <= t < term_targets(block.terminator).len() ==> final(jumps)@[old(jumps)@.len() + t].1@
                    == term_targets(block.terminator)[t],
    {
        let ghost calls0 = pending.calls@;
        let mut i: usize = 0;
        while i < block.insts.len()
            invariant
                i <= block.insts@.len(),
                alloc_ok(*a),
                vars_ok(vars@),
                forall|j: int| 0 <= j < block.insts@.len() ==> inst_allocated(*a, #[trigger] block.insts@[j]),
                forall|j: int|
                    0 <= j < block.insts@.len() && (inst_var(#[trigger] block.insts@[j]) is Some) ==> var_slot(
                        vars@,
                        inst_var(block.insts@[j])->0,
                    ),
                grows(*old(self), *self),
                pending_ok(*pending, self.encoder.code@.len()),
                pending_after(*old(pending), *pending, old(self).encoder.code@.len()),
                *jumps == *old(jumps),
                forall|x: int| 0 <= x < jumps@.len() ==> (#[trigger] jumps@[x]).0 + 4 <= self.encoder.code@.len(),
                forall|j: int| 0 <= j < i ==> inst_compilable(#[trigger] block.insts@[j]),
                calls0 == old(pending).calls@,
                calls0.len() <= pending.calls@.len(),
                forall|x: int| 0 <= x < calls0.len() ==> pending.calls@[x] == calls0[x],
                forall|x: int|
                    calls0.len() <= x < pending.calls@.len() ==> insts_call(block.insts@, (#[trigger] pending.calls@[x]).1@),
                forall|j: int|
                    0 <= j < i && (#[trigger] block.insts@[j]) is Call ==> call_recorded(
                        pending.calls@,
                        call_target(block.insts@[j])->0,
                    ),
            decreases block.insts.len() - i,
        {
            let ghost before = pending.calls@;
            let ghost p_before = *pending;
            let ghost len_before = self.encoder.code@.len();
            let res = self.compile_inst(&block.insts[i], a, vars, pending);
            proof {
                lemma_pending_after_trans(*old(pending), p_before, *pending, old(self).encoder.code@.len(), len_before);
            }
            if res.is_err() {
                return res;
            }
            proof {
                assert forall|x: int|
                    calls0.len() <= x < pending.calls@.len() implies insts_call(block.insts@, (#[trigger] pending.calls@[x]).1@) by {
                    if x < before.len() {
                        assert(pending.calls@[x] == before[x]);
                    } else {
                        assert(call_target(block.insts@[i as int]) == Some(pending.calls@[x].1@));
                    }
                }
                assert forall|j: int|
                    0 <= j < i + 1 && (#[trigger] block.insts@[j]) is Call implies call_recorded(
                        pending.calls@,
                        call_target(block.insts@[j])->0,
                    ) by {
                    if j < i {
                        let x = choose|x: int|
                            0 <= x < before.len() && (#[trigger] before[x]).1@ == call_target(block.insts@[j])->0;
                        assert(pending.calls@[x] == before[x]);
                    } else {
                        assert(pending.calls@[pending.calls@.len() - 1].1@ == call_target(block.insts@[j])->0);
                    }
                }
            }
            i += 1;
        }
        match &block.terminator {
            IrTerminator::Ret(opt_op) => {
                match opt_op {
                    Some(op) => self.load_operand(Reg::RAX, op, a),
                    None => self.encoder.mov_reg_imm64(Reg::RAX, 0),
                }
                self.restore_callee_saved();
                self.encoder.leave();
                self.encoder.ret();
            },
            IrTerminator::Jump(target) => {
                let patch_pos = self.encoder.jmp_rel32(0);
                jumps.push((patch_pos, target.clone()));
            },
            IrTerminator::Branch { cond, true_label, false_label } => {
                self.emit_condition_test(cond, a);
                let patch_jne = self.encoder.jne_rel32(0);
                jumps.push((patch_jne, true_label.clone()));
                let patch_jmp = self.encoder.jmp_rel32(0);
                jumps.push((patch_jmp, false_label.clone()));
            },
        }
        Ok(())
    }

    /// Compares a branch condition with zero.
    fn emit_condition_test(&mut self, cond: &Operand, a: &Allocation)
        requires
            alloc_ok(*a),
            operand_allocated(*a, *cond),
        ensures
            grows(*old(self), *final(self)),
            final(self).encoder.code@ == old(self).encoder.code@ + load_operand_code(Reg::R10, *cond, *a)
                + mov_imm64_code(Reg::R11, 0) + rr_code(0x39, Reg::R10, Reg::R11),
    {
        self.load_operand(Reg::R10, cond, a);
        self.encoder.mov_reg_imm64(Reg::R11, 0);
        self.encoder.cmp_reg_reg(Reg::R10, Reg::R11);
    }

    fn restore_callee_saved(&mut self)
        ensures
            grows(*old(self), *final(self)),
            final(self).encoder.code@ == old(self).encoder.code@ + load_code(Reg::RBX, 8) + load_code(Reg::R12, 16)
                + load_code(Reg::R13, 24) + load_code(Reg::R14, 32) + load_code(Reg::R15, 40),
    {
        self.encoder.load_rbp_disp32(Reg::RBX, 8);
        self.encoder.load_rbp_disp32(Reg::R12, 16);
        self.encoder.load_rbp_disp32(Reg::R13, 24);
        self.encoder.load_rbp_disp32(Reg::R14, 32);
        self.encoder.load_rbp_disp32(Reg::R15, 40);
    }
}

} // verus!
