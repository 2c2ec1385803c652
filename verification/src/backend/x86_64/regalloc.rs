//! Linear-scan register allocation of virtual registers.
//!
//! Every instruction of a function, in block order, gets a position; the
//! terminator of a block takes the position after the block's last instruction.
//! A virtual register lives from the first position that names it to the last.

use vstd::prelude::*;

use crate::backend::x86_64::encoder::Reg;
use crate::ir::{
    inst_defs, inst_uses, operand_uses, operands_uses, term_uses, BasicBlock, IrFunction, IrInst,
    IrTerminator, Operand, VReg,
};

verus! {

/// Where a virtual register is kept.
#[derive(Debug, Clone, Copy, PartialEq, Eq, Structural)]
pub enum VRegLocation {
    /// In a callee-saved machine register.
    Reg(Reg),
    /// In the stack frame, at this distance below the frame pointer.
    Spill(i32),
}

/// The positions between which a virtual register is live, both included.
#[derive(Debug, Clone, Copy, PartialEq, Eq, Structural)]
pub struct LiveInterval {
    pub vreg: VReg,
    pub start: usize,
    pub end: usize,
}

/// The outcome of register allocation for one function.
pub struct Allocation {
    /// One interval per virtual register of the function, by first use.
    pub intervals: Vec<LiveInterval>,
    /// The location of the virtual register of the interval at the same index.
    pub locations: Vec<VRegLocation>,
    /// The number of stack slots used for spilled registers.
    pub spill_count: usize,
}

/// The most stack slots for spilled registers: slot `m` lies `48 + 8 * m`
/// bytes below the frame base, and that displacement must fit the signed
/// 32-bit field that addresses it.
pub const MAX_SPILL_SLOTS: usize = 268435450;

/// The registers handed out by the allocator, in order of preference.
pub open spec fn allocatable_reg(i: int) -> Reg {
    if i == 0 {
        Reg::RBX
    } else if i == 1 {
        Reg::R12
    } else if i == 2 {
        Reg::R13
    } else if i == 3 {
        Reg::R14
    } else {
        Reg::R15
    }
}

/// Whether the allocator may hand out `r`.
pub open spec fn is_allocatable(r: Reg) -> bool {
    r == Reg::RBX || r == Reg::R12 || r == Reg::R13 || r == Reg::R14 || r == Reg::R15
}

/// The `i`-th allocatable register.
pub fn allocatable_regs(i: usize) -> (r: Reg)
    requires
        i < 5,
    ensures
        r == allocatable_reg(i as int),
        is_allocatable(r),
{
    if i == 0 {
        Reg::RBX
    } else if i == 1 {
        Reg::R12
    } else if i == 2 {
        Reg::R13
    } else if i == 3 {
        Reg::R14
    } else {
        Reg::R15
    }
}

/// Each register of `vs` paired with position `p`.
pub open spec fn at_pos(vs: Seq<VReg>, p: int) -> Seq<(VReg, int)> {
    vs.map_values(|v: VReg| (v, p))
}

/// The register occurrences of a run of instructions starting at position `p`.
pub open spec fn insts_occ(insts: Seq<IrInst>, p: int) -> Seq<(VReg, int)>
    decreases insts.len(),
{
    if insts.len() == 0 {
        seq![]
    } else {
        insts_occ(insts.drop_last(), p) + at_pos(
            inst_uses(insts.last()) + inst_defs(insts.last()),
            p + insts.len() - 1,
        )
    }
}

/// The register occurrences of a block starting at position `p`.
pub open spec fn block_occ(b: BasicBlock, p: int) -> Seq<(VReg, int)> {
    insts_occ(b.insts@, p) + at_pos(term_uses(b.terminator), p + b.insts@.len())
}

/// The number of positions a run of blocks takes.
pub open spec fn blocks_span(bs: Seq<BasicBlock>) -> int
    decreases bs.len(),
{
    if bs.len() == 0 {
        0
    } else {
        blocks_span(bs.drop_last()) + bs.last().insts@.len() + 1
    }
}

/// The register occurrences of a run of blocks, in order.
pub open spec fn blocks_occ(bs: Seq<BasicBlock>) -> Seq<(VReg, int)>
    decreases bs.len(),
{
    if bs.len() == 0 {
        seq![]
    } else {
        blocks_occ(bs.drop_last()) + block_occ(bs.last(), blocks_span(bs.drop_last()))
    }
}

/// The register occurrences of a function, with their positions, in order.
pub open spec fn func_occ(f: IrFunction) -> Seq<(VReg, int)> {
    blocks_occ(f.blocks@)
}

/// Whether the positions of a function's instructions can be counted in a
/// machine word.
pub open spec fn function_fits(f: IrFunction) -> bool {
    blocks_span(f.blocks@) < usize::MAX
}

/// The view of collected occurrences.
pub open spec fn occ_view(v: Seq<(VReg, usize)>) -> Seq<(VReg, int)> {
    v.map_values(|x: (VReg, usize)| (x.0, x.1 as int))
}

/// Whether `iv` is exactly the live interval of its register among the first
/// `n` occurrences: it starts at the first position naming the register and
/// ends at the last.
#[verifier::opaque]
pub open spec fn is_live_interval(occ: Seq<(VReg, int)>, n: int, iv: LiveInterval) -> bool {
    &&& iv.start <= iv.end
    &&& exists|i: int| 0 <= i < n && occ[i] == (iv.vreg, iv.start as int)
    &&& exists|i: int| 0 <= i < n && occ[i] == (iv.vreg, iv.end as int)
    &&& forall|i: int|
        0 <= i < n && (#[trigger] occ[i]).0 == iv.vreg ==> iv.start <= occ[i].1 <= iv.end
}

/// Whether `ivs` holds exactly one live interval for each register named by the
/// first `n` occurrences, ordered by start.
#[verifier::opaque]
pub open spec fn live_intervals_upto(
    occ: Seq<(VReg, int)>,
    n: int,
    ivs: Seq<LiveInterval>,
) -> bool {
    &&& forall|k: int| 0 <= k < ivs.len() ==> is_live_interval(occ, n, #[trigger] ivs[k])
    &&& forall|k: int, l: int| 0 <= k < l < ivs.len() ==> ivs[k].vreg != ivs[l].vreg
    &&& forall|k: int, l: int| 0 <= k <= l < ivs.len() ==> ivs[k].start <= ivs[l].start
    &&& forall|i: int|
        0 <= i < n ==> exists|k: int|
            0 <= k < ivs.len() && (#[trigger] ivs[k]).vreg == (#[trigger] occ[i]).0
}

/// Whether `ivs` holds exactly one live interval for each register of `occ`,
/// ordered by start.
pub open spec fn live_intervals_of(occ: Seq<(VReg, int)>, ivs: Seq<LiveInterval>) -> bool {
    live_intervals_upto(occ, occ.len() as int, ivs)
}

/// Whether two intervals share a position.
pub open spec fn overlap(a: LiveInterval, b: LiveInterval) -> bool {
    !(a.end < b.start || b.end < a.start)
}

/// Whether a location is one the allocator hands out: a callee-saved register,
/// or one of the first `spill_count` stack slots after the callee-save area.
pub open spec fn valid_location(loc: VRegLocation, spill_count: int) -> bool {
    match loc {
        VRegLocation::Reg(r) => is_allocatable(r),
        VRegLocation::Spill(d) => 48 <= d < 48 + 8 * spill_count && (d - 48) % 8 == 0,
    }
}

/// The displacement of the `m`-th spill slot below the frame pointer.
pub open spec fn spill_disp(m: int) -> i32 {
    (48 + 8 * m) as i32
}

/// Whether no two virtual registers share a stack slot, and each of the
/// `spill_count` slots holds one.
pub open spec fn slots_exact(locs: Seq<VRegLocation>, spill_count: int) -> bool {
    &&& forall|i: int, j: int|
        0 <= i < locs.len() && 0 <= j < locs.len() && i != j && locs[i] is Spill ==> #[trigger] locs[i]
            != #[trigger] locs[j]
    &&& forall|m: int|
        0 <= m < spill_count ==> exists|i: int|
            0 <= i < locs.len() && locs[i] == VRegLocation::Spill(#[trigger] spill_disp(m))
}

/// Whether `locs` is a register assignment for `ivs` in which no two
/// overlapping intervals share a register.
pub open spec fn sound_assignment(
    ivs: Seq<LiveInterval>,
    locs: Seq<VRegLocation>,
    spill_count: int,
) -> bool {
    &&& locs.len() == ivs.len()
    &&& forall|k: int| 0 <= k < locs.len() ==> valid_location(#[trigger] locs[k], spill_count)
    &&& forall|i: int, j: int|
        0 <= i < ivs.len() && 0 <= j < ivs.len() && i != j && locs[i] is Reg && locs[i]
            == locs[j] ==> !overlap(#[trigger] ivs[i], #[trigger] ivs[j])
}

/// Appends the register an operand reads, if any.
pub fn operand_vregs(op: &Operand, uses: &mut Vec<VReg>)
    ensures
        final(uses)@ == old(uses)@ + operand_uses(*op),
{
    if let Operand::Reg(vreg) = op {
        uses.push(*vreg);
    } else {
        assert(final(uses)@ =~= old(uses)@ + operand_uses(*op));
    }
}

/// Appends the registers an instruction reads to `uses` and those it writes to
/// `defs`.
pub fn inst_vregs(inst: &IrInst, uses: &mut Vec<VReg>, defs: &mut Vec<VReg>)
    ensures
        final(uses)@ == old(uses)@ + inst_uses(*inst),
        final(defs)@ == old(defs)@ + inst_defs(*inst),
{
    match inst {
        IrInst::Const { dest, .. }
        | IrInst::ConstStr { dest, .. }
        | IrInst::Input { dest, .. }
        | IrInst::Param { dest, .. }
        | IrInst::LoadVar { dest, .. } => {
            defs.push(*dest);
            assert(uses@ =~= old(uses)@ + inst_uses(*inst));
        },
        IrInst::Copy { dest, src } => {
            defs.push(*dest);
            operand_vregs(src, uses);
        },
        IrInst::BinOp { dest, lhs, rhs, .. } => {
            defs.push(*dest);
            operand_vregs(lhs, uses);
            operand_vregs(rhs, uses);
            assert(uses@ =~= old(uses)@ + inst_uses(*inst));
        },
        IrInst::Call { dest, args, .. } => {
            defs.push(*dest);
            let mut i: usize = 0;
            while i < args.len()
                invariant
                    i <= args.len(),
                    uses@ == old(uses)@ + operands_uses(args@.take(i as int)),
                decreases args.len() - i,
            {
                operand_vregs(&args[i], uses);
                assert(args@.take(i + 1).drop_last() =~= args@.take(i as int));
                assert(uses@ =~= old(uses)@ + operands_uses(args@.take(i + 1)));
                i += 1;
            }
            assert(args@.take(args.len() as int) =~= args@);
        },
        IrInst::StoreVar { src, .. }
        | IrInst::Print { src, .. }
        | IrInst::PrintInline { src, .. }
        | IrInst::SysExit { status: src } => {
            operand_vregs(src, uses);
            assert(defs@ =~= old(defs)@ + inst_defs(*inst));
        },
        IrInst::PrintConstStr { .. } => {
            assert(uses@ =~= old(uses)@ + inst_uses(*inst));
            assert(defs@ =~= old(defs)@ + inst_defs(*inst));
        },
    }
}

/// The registers a terminator reads.
fn terminator_vregs(t: &IrTerminator, uses: &mut Vec<VReg>)
    ensures
        final(uses)@ == old(uses)@ + term_uses(*t),
{
    match t {
        IrTerminator::Ret(Some(op)) => operand_vregs(op, uses),
        IrTerminator::Branch { cond, .. } => operand_vregs(cond, uses),
        _ => {
            assert(uses@ =~= old(uses)@ + term_uses(*t));
        },
    }
}

pub proof fn lemma_blocks_span_mono(bs: Seq<BasicBlock>, k: int)
    requires
        0 <= k <= bs.len(),
    ensures
        0 <= blocks_span(bs.take(k)) <= blocks_span(bs),
    decreases bs.len(),
{
    if bs.len() > 0 {
        if k == bs.len() {
            assert(bs.take(k) =~= bs);
            lemma_blocks_span_mono(bs.drop_last(), k - 1);
        } else {
            assert(bs.drop_last().take(k) =~= bs.take(k));
            lemma_blocks_span_mono(bs.drop_last(), k);
        }
    }
}

/// The number of positions of a function, or `usize::MAX` where it does not
/// fit in a `usize`.
pub fn function_span(func: &IrFunction) -> (n: usize)
    ensures
        n as int == if blocks_span(func.blocks@) < usize::MAX {
            blocks_span(func.blocks@)
        } else {
            usize::MAX as int
        },
{
    let mut n: usize = 0;
    let mut b: usize = 0;
    while b < func.blocks.len()
        invariant
            b <= func.blocks.len(),
            n as int == if blocks_span(func.blocks@.take(b as int)) < usize::MAX {
                blocks_span(func.blocks@.take(b as int))
            } else {
                usize::MAX as int
            },
        decreases func.blocks.len() - b,
    {
        assert(func.blocks@.take(b + 1).drop_last() =~= func.blocks@.take(b as int));
        proof {
            lemma_blocks_span_mono(func.blocks@, b as int);
        }
        let step = func.blocks[b].insts.len();
        n = n.saturating_add(step).saturating_add(1);
        b += 1;
    }
    assert(func.blocks@.take(func.blocks.len() as int) =~= func.blocks@);
    n
}

proof fn lemma_occ_push(v: Seq<(VReg, usize)>, x: (VReg, usize))
    ensures
        occ_view(v.push(x)) == occ_view(v).push((x.0, x.1 as int)),
{
    assert(occ_view(v.push(x)) =~= occ_view(v).push((x.0, x.1 as int)));
}

proof fn lemma_at_pos_take(s: Seq<VReg>, u: int, p: int)
    requires
        0 <= u < s.len(),
    ensures
        at_pos(s.take(u + 1), p) == at_pos(s.take(u), p).push((s[u], p)),
{
    assert(s.take(u + 1) =~= s.take(u).push(s[u]));
    assert(at_pos(s.take(u + 1), p) =~= at_pos(s.take(u), p).push((s[u], p)));
}

/// Lists every register occurrence of a function with its position, in order.
pub fn collect_occurrences(func: &IrFunction) -> (occ: Vec<(VReg, usize)>)
    requires
        blocks_span(func.blocks@) < usize::MAX,
    ensures
        occ_view(occ@) == func_occ(*func),
        forall|i: int, j: int| 0 <= i <= j < occ@.len() ==> occ@[i].1 <= occ@[j].1,
{
    let mut occ: Vec<(VReg, usize)> = Vec::new();
    let mut position: usize = 0;
    let mut b: usize = 0;
    let ghost bs = func.blocks@;
    while b < func.blocks.len()
        invariant
            bs == func.blocks@,
            b <= bs.len(),
            blocks_span(bs) < usize::MAX,
            position as int == blocks_span(bs.take(b as int)),
            occ_view(occ@) == blocks_occ(bs.take(b as int)),
            forall|i: int, j: int| 0 <= i <= j < occ@.len() ==> occ@[i].1 <= occ@[j].1,
            forall|i: int| 0 <= i < occ@.len() ==> occ@[i].1 < position,
        decreases bs.len() - b,
    {
        let block = &func.blocks[b];
        proof {
            assert(bs.take(b + 1).drop_last() =~= bs.take(b as int));
            assert(bs.take(b + 1).last() == bs[b as int]);
            lemma_blocks_span_mono(bs, b + 1);
        }
        let ghost base = position as int;
        let ghost before = occ_view(occ@);
        let mut i: usize = 0;
        while i < block.insts.len()
            invariant
                bs == func.blocks@,
                b < bs.len(),
                *block == bs[b as int],
                i <= block.insts@.len(),
                base + block.insts@.len() + 1 <= blocks_span(bs),
                blocks_span(bs) < usize::MAX,
                position as int == base + i,
                occ_view(occ@) == before + insts_occ(block.insts@.take(i as int), base),
                forall|x: int, y: int| 0 <= x <= y < occ@.len() ==> occ@[x].1 <= occ@[y].1,
                forall|x: int| 0 <= x < occ@.len() ==> occ@[x].1 <= position,
            decreases block.insts.len() - i,
        {
            let mut uses: Vec<VReg> = Vec::new();
            let mut defs: Vec<VReg> = Vec::new();
            inst_vregs(&block.insts[i], &mut uses, &mut defs);
            let ghost names = uses@ + defs@;
            let ghost start = occ_view(occ@);
            let mut u: usize = 0;
            while u < uses.len()
                invariant
                    u <= uses@.len(),
                    position as int == base + i,
                    occ_view(occ@) == start + at_pos(uses@.take(u as int), position as int),
                    forall|x: int, y: int| 0 <= x <= y < occ@.len() ==> occ@[x].1 <= occ@[y].1,
                    forall|x: int| 0 <= x < occ@.len() ==> occ@[x].1 <= position,
                decreases uses.len() - u,
            {
                proof {
                    lemma_occ_push(occ@, (uses@[u as int], position));
                    lemma_at_pos_take(uses@, u as int, position as int);
                }
                occ.push((uses[u], position));
                u += 1;
                assert(occ_view(occ@) =~= start + at_pos(uses@.take(u as int), position as int));
            }
            let mut d: usize = 0;
            while d < defs.len()
                invariant
                    d <= defs@.len(),
                    u == uses@.len(),
                    position as int == base + i,
                    occ_view(occ@) == start + at_pos(uses@ + defs@.take(d as int), position as int),
                    forall|x: int, y: int| 0 <= x <= y < occ@.len() ==> occ@[x].1 <= occ@[y].1,
                    forall|x: int| 0 <= x < occ@.len() ==> occ@[x].1 <= position,
                decreases defs.len() - d,
            {
                proof {
                    lemma_occ_push(occ@, (defs@[d as int], position));
                    lemma_at_pos_take(uses@ + defs@, (uses@.len() + d) as int, position as int);
                    assert((uses@ + defs@).take((uses@.len() + d) as int) =~= uses@ + defs@.take(d as int));
                    assert((uses@ + defs@).take((uses@.len() + d + 1) as int) =~= uses@ + defs@.take(d + 1));
                }
                occ.push((defs[d], position));
                d += 1;
                assert(occ_view(occ@) =~= start + at_pos(
                    uses@ + defs@.take(d as int),
                    position as int,
                ));
            }
            proof {
                assert(uses@.take(uses@.len() as int) =~= uses@);
                assert(defs@.take(defs@.len() as int) =~= defs@);
                assert(block.insts@.take(i + 1).drop_last() =~= block.insts@.take(i as int));
                assert(block.insts@.take(i + 1).last() == block.insts@[i as int]);
                assert(occ_view(occ@) =~= before + insts_occ(block.insts@.take(i + 1), base));
            }
            position += 1;
            i += 1;
        }
        let mut tuses: Vec<VReg> = Vec::new();
        terminator_vregs(&block.terminator, &mut tuses);
        let ghost start = occ_view(occ@);
        let mut u: usize = 0;
        while u < tuses.len()
            invariant
                u <= tuses@.len(),
                position as int == base + block.insts@.len(),
                occ_view(occ@) == start + at_pos(tuses@.take(u as int), position as int),
                forall|x: int, y: int| 0 <= x <= y < occ@.len() ==> occ@[x].1 <= occ@[y].1,
                forall|x: int| 0 <= x < occ@.len() ==> occ@[x].1 <= position,
            decreases tuses.len() - u,
        {
            proof {
                lemma_occ_push(occ@, (tuses@[u as int], position));
                lemma_at_pos_take(tuses@, u as int, position as int);
            }
            occ.push((tuses[u], position));
            u += 1;
            assert(occ_view(occ@) =~= start + at_pos(tuses@.take(u as int), position as int));
        }
        proof {
            assert(tuses@.take(tuses@.len() as int) =~= tuses@);
            assert(block.insts@.take(block.insts@.len() as int) =~= block.insts@);
            assert(occ_view(occ@) =~= blocks_occ(bs.take(b + 1)));
        }
        position += 1;
        b += 1;
    }
    assert(bs.take(bs.len() as int) =~= bs);
    occ
}

proof fn lemma_interval_grow(ov: Seq<(VReg, int)>, n: int, iv: LiveInterval)
    requires
        0 <= n < ov.len(),
        is_live_interval(ov, n, iv),
        ov[n].0 != iv.vreg,
    ensures
        is_live_interval(ov, n + 1, iv),
{
    reveal(is_live_interval);
    let w1 = choose|i: int| 0 <= i < n && ov[i] == (iv.vreg, iv.start as int);
    let w2 = choose|i: int| 0 <= i < n && ov[i] == (iv.vreg, iv.end as int);
    assert(0 <= w1 < n + 1 && ov[w1] == (iv.vreg, iv.start as int));
    assert(0 <= w2 < n + 1 && ov[w2] == (iv.vreg, iv.end as int));
}

proof fn lemma_interval_extend(ov: Seq<(VReg, int)>, n: int, iv: LiveInterval, p: usize)
    requires
        0 <= n < ov.len(),
        forall|i: int| 0 <= i < n ==> (#[trigger] ov[i]).1 <= ov[n].1,
        is_live_interval(ov, n, iv),
        ov[n] == (iv.vreg, p as int),
    ensures
        is_live_interval(ov, n + 1, LiveInterval { vreg: iv.vreg, start: iv.start, end: p }),
{
    reveal(is_live_interval);
    let w1 = choose|i: int| 0 <= i < n && ov[i] == (iv.vreg, iv.start as int);
    assert(ov[w1].1 <= ov[n].1);
    assert(0 <= w1 < n + 1 && ov[w1] == (iv.vreg, iv.start as int));
    assert(0 <= n < n + 1 && ov[n] == (iv.vreg, p as int));
}

proof fn lemma_interval_fresh(ov: Seq<(VReg, int)>, n: int, v: VReg, p: usize)
    requires
        0 <= n < ov.len(),
        ov[n] == (v, p as int),
        forall|i: int| 0 <= i < n ==> (#[trigger] ov[i]).0 != v,
    ensures
        is_live_interval(ov, n + 1, LiveInterval { vreg: v, start: p, end: p }),
{
    reveal(is_live_interval);
    assert(0 <= n < n + 1 && ov[n] == (v, p as int));
}

proof fn lemma_start_before(ov: Seq<(VReg, int)>, n: int, iv: LiveInterval)
    requires
        0 <= n < ov.len(),
        forall|i: int| 0 <= i < n ==> (#[trigger] ov[i]).1 <= ov[n].1,
        is_live_interval(ov, n, iv),
    ensures
        iv.start <= ov[n].1,
{
    reveal(is_live_interval);
    let w1 = choose|i: int| 0 <= i < n && ov[i] == (iv.vreg, iv.start as int);
    assert(ov[w1].1 <= ov[n].1);
}

proof fn lemma_extend_found(ov: Seq<(VReg, int)>, n: int, ivs: Seq<LiveInterval>, k: int, p: usize)
    requires
        0 <= n < ov.len(),
        0 <= k < ivs.len(),
        forall|i: int| 0 <= i < n ==> (#[trigger] ov[i]).1 <= ov[n].1,
        live_intervals_upto(ov, n, ivs),
        ov[n] == (ivs[k].vreg, p as int),
    ensures
        live_intervals_upto(
            ov,
            n + 1,
            ivs.update(k, LiveInterval { vreg: ivs[k].vreg, start: ivs[k].start, end: p }),
        ),
{
    reveal(live_intervals_upto);
    let v = ivs[k].vreg;
    let new_ivs = ivs.update(k, LiveInterval { vreg: v, start: ivs[k].start, end: p });
    assert(forall|l: int| 0 <= l < ivs.len() ==> new_ivs[l].vreg == ivs[l].vreg && new_ivs[l].start
        == ivs[l].start);
    assert forall|l: int| 0 <= l < new_ivs.len() implies is_live_interval(
        ov,
        n + 1,
        #[trigger] new_ivs[l],
    ) by {
        if l == k {
            lemma_interval_extend(ov, n, ivs[k], p);
        } else {
            lemma_interval_grow(ov, n, ivs[l]);
        }
    }
    assert forall|i: int| 0 <= i < n + 1 implies exists|m: int|
        0 <= m < new_ivs.len() && (#[trigger] new_ivs[m]).vreg == (#[trigger] ov[i]).0 by {
        if i == n {
            assert(new_ivs[k].vreg == ov[i].0);
        } else {
            let m = choose|m: int| 0 <= m < ivs.len() && (#[trigger] ivs[m]).vreg == ov[i].0;
            assert(new_ivs[m].vreg == ov[i].0);
        }
    }
}

proof fn lemma_extend_new(ov: Seq<(VReg, int)>, n: int, ivs: Seq<LiveInterval>, v: VReg, p: usize)
    requires
        0 <= n < ov.len(),
        forall|i: int| 0 <= i < n ==> (#[trigger] ov[i]).1 <= ov[n].1,
        live_intervals_upto(ov, n, ivs),
        ov[n] == (v, p as int),
        forall|l: int| 0 <= l < ivs.len() ==> ivs[l].vreg != v,
    ensures
        live_intervals_upto(ov, n + 1, ivs.push(LiveInterval { vreg: v, start: p, end: p })),
{
    reveal(live_intervals_upto);
    let new_ivs = ivs.push(LiveInterval { vreg: v, start: p, end: p });
    assert forall|l: int| 0 <= l < new_ivs.len() implies is_live_interval(
        ov,
        n + 1,
        #[trigger] new_ivs[l],
    ) by {
        if l < ivs.len() {
            lemma_interval_grow(ov, n, ivs[l]);
        } else {
            assert forall|i: int| 0 <= i < n implies (#[trigger] ov[i]).0 != v by {
                let m = choose|m: int| 0 <= m < ivs.len() && (#[trigger] ivs[m]).vreg == ov[i].0;
            }
            lemma_interval_fresh(ov, n, v, p);
        }
    }
    assert forall|l: int| 0 <= l < ivs.len() implies ivs[l].start <= p by {
        lemma_start_before(ov, n, ivs[l]);
    }
    assert forall|i: int| 0 <= i < n + 1 implies exists|m: int|
        0 <= m < new_ivs.len() && (#[trigger] new_ivs[m]).vreg == (#[trigger] ov[i]).0 by {
        if i == n {
            assert(new_ivs[ivs.len() as int].vreg == ov[i].0);
        } else {
            let m = choose|m: int| 0 <= m < ivs.len() && (#[trigger] ivs[m]).vreg == ov[i].0;
            assert(new_ivs[m].vreg == ov[i].0);
        }
    }
}

/// The live interval of every register of `occ`, whose positions must be in
/// order, listed by first occurrence.
pub fn live_intervals(occ: &Vec<(VReg, usize)>) -> (ivs: Vec<LiveInterval>)
    requires
        forall|i: int, j: int| 0 <= i <= j < occ@.len() ==> occ@[i].1 <= occ@[j].1,
    ensures
        live_intervals_of(occ_view(occ@), ivs@),
        ivs@.len() <= occ@.len(),
{
    let ghost ov = occ_view(occ@);
    let mut ivs: Vec<LiveInterval> = Vec::new();
    let mut n: usize = 0;
    proof {
        reveal(live_intervals_upto);
    }
    while n < occ.len()
        invariant
            ov == occ_view(occ@),
            n <= occ@.len(),
            ivs@.len() <= n,
            forall|i: int, j: int| 0 <= i <= j < ov.len() ==> ov[i].1 <= ov[j].1,
            live_intervals_upto(ov, n as int, ivs@),
        decreases occ.len() - n,
    {
        let (v, p) = occ[n];
        assert(ov[n as int] == (v, p as int));
        assert(forall|i: int| 0 <= i < n ==> (#[trigger] ov[i]).1 <= ov[n as int].1);
        let mut k: usize = 0;
        while k < ivs.len() && ivs[k].vreg != v
            invariant
                k <= ivs@.len(),
                forall|l: int| 0 <= l < k ==> ivs@[l].vreg != v,
            decreases ivs.len() - k,
        {
            k += 1;
        }
        if k < ivs.len() {
            let start = ivs[k].start;
            proof {
                lemma_extend_found(ov, n as int, ivs@, k as int, p);
            }
            ivs.set(k, LiveInterval { vreg: v, start, end: p });
        } else {
            proof {
                lemma_extend_new(ov, n as int, ivs@, v, p);
            }
            ivs.push(LiveInterval { vreg: v, start: p, end: p });
        }
        n += 1;
    }
    proof {
        reveal(live_intervals_upto);
    }
    ivs
}

/// The preference index of an allocatable register.
pub open spec fn slot_of(r: Reg) -> int {
    if r == Reg::RBX {
        0
    } else if r == Reg::R12 {
        1
    } else if r == Reg::R13 {
        2
    } else if r == Reg::R14 {
        3
    } else {
        4
    }
}

/// The interval holding a slot, or -1 for a free slot.
pub open spec fn slot_holder(o: Option<(usize, usize)>) -> int {
    match o {
        Some((h, _)) => h as int,
        None => -1,
    }
}

/// The end of the interval holding a slot.
pub open spec fn slot_end(o: Option<(usize, usize)>) -> int {
    match o {
        Some((_, e)) => e as int,
        None => -1,
    }
}

/// The first `n` intervals, ordered by start, each starting before it ends.
pub open spec fn ordered_intervals(ivs: Seq<LiveInterval>) -> bool {
    &&& forall|k: int| 0 <= k < ivs.len() ==> (#[trigger] ivs[k]).start <= ivs[k].end
    &&& forall|k: int, l: int| 0 <= k <= l < ivs.len() ==> ivs[k].start <= ivs[l].start
}

/// Interval `i` ends before every interval from `k` on starts.
pub open spec fn expired(ivs: Seq<LiveInterval>, i: int, k: int) -> bool {
    forall|m: int| k <= m < ivs.len() ==> ivs[i].end < (#[trigger] ivs[m]).start
}

/// The slots of the allocatable registers: which interval holds each, and
/// where that interval ends.
pub open spec fn slots_consistent(
    slots: Seq<Option<(usize, usize)>>,
    ivs: Seq<LiveInterval>,
    locs: Seq<VRegLocation>,
    k: int,
) -> bool {
    forall|s: int|
        0 <= s < 5 && (#[trigger] slots[s]) is Some ==> {
            let (h, e) = slots[s]->0;
            &&& h < k
            &&& e == ivs[h as int].end
            &&& locs[h as int] == VRegLocation::Reg(allocatable_reg(s))
        }
}

/// Every interval below `k` kept in a register still holds its slot, or has
/// expired before interval `k`.
pub open spec fn held_or_expired(
    slots: Seq<Option<(usize, usize)>>,
    ivs: Seq<LiveInterval>,
    locs: Seq<VRegLocation>,
    k: int,
) -> bool {
    forall|i: int|
        0 <= i < k && (#[trigger] locs[i]) is Reg ==> (slots[slot_of(locs[i]->Reg_0)] is Some
            && slot_holder(slots[slot_of(locs[i]->Reg_0)]) == i) || expired(ivs, i, k)
}

/// The assignment of the first `k` intervals shares no register between
/// overlapping intervals.
pub open spec fn sound_upto(ivs: Seq<LiveInterval>, locs: Seq<VRegLocation>, k: int) -> bool {
    forall|i: int, j: int|
        0 <= i < k && 0 <= j < k && i != j && locs[i] is Reg && locs[i] == locs[j] ==> !overlap(
            #[trigger] ivs[i],
            #[trigger] ivs[j],
        )
}

/// Assigns each interval, in order, a callee-saved register or a stack slot,
/// spilling the active interval that ends last when no register is free.
#[verifier::rlimit(40)]
#[verifier::spinoff_prover]
///
/// Fails, as `None`, when a register would need a stack slot whose
/// displacement does not fit a signed 32-bit field, which can only happen
/// when there are more than `MAX_SPILL_SLOTS` intervals.
pub fn linear_scan(ivs: &Vec<LiveInterval>) -> (r: Option<(Vec<VRegLocation>, usize)>)
    requires
        ordered_intervals(ivs@),
    ensures
        r matches Some((locs, k)) ==> {
            &&& sound_assignment(ivs@, locs@, k as int)
            &&& slots_exact(locs@, k as int)
            &&& k <= ivs@.len()
            &&& k <= MAX_SPILL_SLOTS
        },
        r is None ==> ivs@.len() > MAX_SPILL_SLOTS,
{
    let n = ivs.len();
    let mut locations: Vec<VRegLocation> = Vec::new();
    let mut slots: Vec<Option<(usize, usize)>> = Vec::new();
    slots.push(None);
    slots.push(None);
    slots.push(None);
    slots.push(None);
    slots.push(None);
    let mut spill_count: usize = 0;
    let mut k: usize = 0;
    while k < n
        invariant
            n == ivs@.len(),
            ordered_intervals(ivs@),
            k <= n,
            locations@.len() == k,
            slots@.len() == 5,
            spill_count <= k,
            spill_count <= MAX_SPILL_SLOTS,
            slots_consistent(slots@, ivs@, locations@, k as int),
            held_or_expired(slots@, ivs@, locations@, k as int),
            sound_upto(ivs@, locations@, k as int),
            forall|i: int|
                0 <= i < k ==> valid_location(#[trigger] locations@[i], spill_count as int),
            slots_exact(locations@, spill_count as int),
        decreases n - k,
    {
        let iv = ivs[k];
        let ghost before = slots@;
        let mut s: usize = 0;
        while s < 5
            invariant
                s <= 5,
                slots@.len() == 5,
                forall|t: int|
                    0 <= t < 5 ==> #[trigger] slots@[t] == if t < s && before[t] is Some
                        && slot_end(before[t]) < iv.start {
                        None
                    } else {
                        before[t]
                    },
            decreases 5 - s,
        {
            if let Some((_, e)) = slots[s] {
                if e < iv.start {
                    slots.set(s, None);
                }
            }
            s += 1;
        }
        proof {
            assert forall|i: int|
                0 <= i < k && (#[trigger] locations@[i]) is Reg implies (slots@[slot_of(
                    locations@[i]->Reg_0,
                )] is Some && slot_holder(slots@[slot_of(locations@[i]->Reg_0)]) == i) || expired(
                ivs@,
                i,
                k as int,
            ) by {
                let t = slot_of(locations@[i]->Reg_0);
                if before[t] is Some && slot_holder(before[t]) == i && slot_end(before[t]) < iv.start {
                    assert forall|m: int| k <= m < ivs@.len() implies ivs@[i].end < (
                    #[trigger] ivs@[m]).start by {
                        assert(ivs@[k as int].start <= ivs@[m].start);
                    }
                }
            }
        }
        let mut f: usize = 0;
        while f < 5 && slots[f].is_some()
            invariant
                f <= 5,
                slots@.len() == 5,
                forall|t: int| 0 <= t < f ==> (#[trigger] slots@[t]) is Some,
            decreases 5 - f,
        {
            f += 1;
        }
        let ghost mid = slots@;
        let ghost locs0 = locations@;
        if f < 5 {
            let reg = allocatable_regs(f);
            locations.push(VRegLocation::Reg(reg));
            slots.set(f, Some((k, iv.end)));
            proof {
                assert forall|m: int| 0 <= m < spill_count implies exists|i: int|
                    0 <= i < locations@.len() && locations@[i] == VRegLocation::Spill(#[trigger] spill_disp(m)) by {
                    let i = choose|i: int| 0 <= i < locs0.len() && locs0[i] == VRegLocation::Spill(spill_disp(m));
                    assert(locations@[i] == locs0[i]);
                }
                assert forall|j: int|
                    0 <= j < k && locations@[j] == VRegLocation::Reg(reg) implies ivs@[j].end
                    < iv.start by {
                    assert(locs0[j] is Reg);
                    assert(slot_of(reg) == f as int);
                }
                assert(sound_upto(ivs@, locations@, k + 1));
            }
        } else {
            let mut best: usize = 0;
            let mut t: usize = 1;
            while t < 5
                invariant
                    1 <= t <= 5,
                    best < t,
                    slots@.len() == 5,
                    forall|u: int| 0 <= u < 5 ==> (#[trigger] slots@[u]) is Some,
                    forall|u: int|
                        0 <= u < t ==> slot_end(slots@[best as int]) <= (#[trigger] slot_end(slots@[u])),
                decreases 5 - t,
            {
                let (h, e) = slots[t].unwrap();
                let (bh, be) = slots[best].unwrap();
                if e < be || (e == be && h < bh) {
                    best = t;
                }
                t += 1;
            }
            let (bh, be) = slots[best].unwrap();
            if spill_count >= MAX_SPILL_SLOTS {
                return None;
            }
            let offset: i32 = (48 + 8 * spill_count) as i32;
            assert(offset == spill_disp(spill_count as int));
            if be > iv.end {
                locations.set(bh, VRegLocation::Spill(offset));
                let reg = allocatable_regs(best);
                locations.push(VRegLocation::Reg(reg));
                slots.set(best, Some((k, iv.end)));
                proof {
                    assert(locs0[bh as int] is Reg);
                    assert forall|i: int, j: int|
                        0 <= i < locations@.len() && 0 <= j < locations@.len() && i != j && locations@[i] is Spill
                            implies #[trigger] locations@[i] != #[trigger] locations@[j] by {
                        if i != bh && i < k {
                            assert(locations@[i] == locs0[i]);
                        }
                        if j != bh && j < k {
                            assert(locations@[j] == locs0[j]);
                        }
                    }
                    assert forall|m: int| 0 <= m < spill_count + 1 implies exists|i: int|
                        0 <= i < locations@.len() && locations@[i] == VRegLocation::Spill(#[trigger] spill_disp(m)) by {
                        if m < spill_count {
                            let i = choose|i: int| 0 <= i < locs0.len() && locs0[i] == VRegLocation::Spill(spill_disp(m));
                            assert(i != bh);
                            assert(locations@[i] == locs0[i]);
                        } else {
                            assert(locations@[bh as int] == VRegLocation::Spill(spill_disp(m)));
                        }
                    }
                    assert(slot_of(reg) == best as int);
                    assert forall|j: int|
                        0 <= j < k && locations@[j] == VRegLocation::Reg(reg) implies ivs@[j].end
                        < iv.start by {
                        assert(locs0[j] is Reg);
                        assert(j != bh);
                    }
                    assert forall|u: int| 0 <= u < 5 && u != best implies slot_holder(mid[u]) != bh by {
                        assert(locs0[slot_holder(mid[u])] == VRegLocation::Reg(allocatable_reg(u)));
                    }
                    assert(sound_upto(ivs@, locations@, k + 1));
                }
            } else {
                locations.push(VRegLocation::Spill(offset));
                proof {
                    assert forall|i: int, j: int|
                        0 <= i < locations@.len() && 0 <= j < locations@.len() && i != j && locations@[i] is Spill
                            implies #[trigger] locations@[i] != #[trigger] locations@[j] by {
                        if i < k {
                            assert(locations@[i] == locs0[i]);
                        }
                        if j < k {
                            assert(locations@[j] == locs0[j]);
                        }
                    }
                    assert forall|m: int| 0 <= m < spill_count + 1 implies exists|i: int|
                        0 <= i < locations@.len() && locations@[i] == VRegLocation::Spill(#[trigger] spill_disp(m)) by {
                        if m < spill_count {
                            let i = choose|i: int| 0 <= i < locs0.len() && locs0[i] == VRegLocation::Spill(spill_disp(m));
                            assert(locations@[i] == locs0[i]);
                        } else {
                            assert(locations@[k as int] == VRegLocation::Spill(spill_disp(m)));
                        }
                    }
                    assert(sound_upto(ivs@, locations@, k + 1));
                }
            }
            spill_count += 1;
        }
        k += 1;
    }
    Some((locations, spill_count))
}

/// Whether the allocation gives `v` a location.
pub open spec fn allocated(a: Allocation, v: VReg) -> bool {
    exists|k: int| 0 <= k < a.intervals@.len() && (#[trigger] a.intervals@[k]).vreg == v
}

/// Whether the register an operand reads, if any, has a location.
pub open spec fn operand_allocated(a: Allocation, op: Operand) -> bool {
    match op {
        Operand::Reg(v) => allocated(a, v),
        Operand::Const(_) => true,
    }
}

/// Whether every register an instruction names has a location.
pub open spec fn inst_allocated(a: Allocation, inst: IrInst) -> bool {
    match inst {
        IrInst::Const { dest, .. } => allocated(a, dest),
        IrInst::ConstStr { dest, .. } => allocated(a, dest),
        IrInst::Input { dest, .. } => allocated(a, dest),
        IrInst::Param { dest, .. } => allocated(a, dest),
        IrInst::LoadVar { dest, .. } => allocated(a, dest),
        IrInst::Copy { dest, src } => allocated(a, dest) && operand_allocated(a, src),
        IrInst::BinOp { dest, lhs, rhs, .. } => allocated(a, dest) && operand_allocated(a, lhs)
            && operand_allocated(a, rhs),
        IrInst::Call { dest, args, .. } => allocated(a, dest) && forall|j: int|
            0 <= j < args@.len() ==> operand_allocated(a, #[trigger] args@[j]),
        IrInst::StoreVar { src, .. } => operand_allocated(a, src),
        IrInst::Print { src, .. } => operand_allocated(a, src),
        IrInst::PrintInline { src, .. } => operand_allocated(a, src),
        IrInst::SysExit { status } => operand_allocated(a, status),
        IrInst::PrintConstStr { .. } => true,
    }
}

/// Whether the register a terminator reads, if any, has a location.
pub open spec fn term_allocated(a: Allocation, t: IrTerminator) -> bool {
    match t {
        IrTerminator::Ret(Some(op)) => operand_allocated(a, op),
        IrTerminator::Branch { cond, .. } => operand_allocated(a, cond),
        _ => true,
    }
}

/// Whether `a` is a sound register allocation for `f`: one live interval per
/// register of `f`, and no register shared by two overlapping intervals.
pub open spec fn allocation_of(f: IrFunction, a: Allocation) -> bool {
    &&& live_intervals_of(func_occ(f), a.intervals@)
    &&& sound_assignment(a.intervals@, a.locations@, a.spill_count as int)
    &&& slots_exact(a.locations@, a.spill_count as int)
    &&& a.spill_count <= a.intervals@.len()
    &&& a.spill_count <= MAX_SPILL_SLOTS
    &&& a.intervals@.len() <= func_occ(f).len()
}

proof fn lemma_operands_uses_contains(ops: Seq<Operand>, j: int)
    requires
        0 <= j < ops.len(),
        ops[j] is Reg,
    ensures
        operands_uses(ops).contains(ops[j]->Reg_0),
    decreases ops.len(),
{
    if j == ops.len() - 1 {
        let u = operands_uses(ops.drop_last());
        assert(operands_uses(ops)[u.len() as int] == ops[j]->Reg_0);
    } else {
        lemma_operands_uses_contains(ops.drop_last(), j);
        let w = choose|x: int|
            0 <= x < operands_uses(ops.drop_last()).len() && operands_uses(ops.drop_last())[x]
                == ops[j]->Reg_0;
        assert(operands_uses(ops)[w] == ops[j]->Reg_0);
    }
}

proof fn lemma_insts_occ_contains(insts: Seq<IrInst>, p: int, i: int, v: VReg)
    requires
        0 <= i < insts.len(),
        (inst_uses(insts[i]) + inst_defs(insts[i])).contains(v),
    ensures
        exists|o: int| 0 <= o < insts_occ(insts, p).len() && (#[trigger] insts_occ(insts, p)[o]).0 == v,
    decreases insts.len(),
{
    let prev = insts_occ(insts.drop_last(), p);
    if i == insts.len() - 1 {
        let names = inst_uses(insts[i]) + inst_defs(insts[i]);
        let x = choose|x: int| 0 <= x < names.len() && names[x] == v;
        assert(insts_occ(insts, p)[prev.len() + x].0 == v);
    } else {
        lemma_insts_occ_contains(insts.drop_last(), p, i, v);
        let o = choose|o: int| 0 <= o < prev.len() && (#[trigger] prev[o]).0 == v;
        assert(insts_occ(insts, p)[o] == prev[o]);
    }
}

proof fn lemma_blocks_occ_contains(bs: Seq<BasicBlock>, b: int, i: int, v: VReg)
    requires
        0 <= b < bs.len(),
        0 <= i < bs[b].insts@.len() && (inst_uses(bs[b].insts@[i]) + inst_defs(
            bs[b].insts@[i],
        )).contains(v) || i == -1 && term_uses(bs[b].terminator).contains(v),
    ensures
        exists|o: int| 0 <= o < blocks_occ(bs).len() && (#[trigger] blocks_occ(bs)[o]).0 == v,
    decreases bs.len(),
{
    let prev = blocks_occ(bs.drop_last());
    if b == bs.len() - 1 {
        let base = blocks_span(bs.drop_last());
        let io = insts_occ(bs[b].insts@, base);
        if i >= 0 {
            lemma_insts_occ_contains(bs[b].insts@, base, i, v);
            let o = choose|o: int| 0 <= o < io.len() && (#[trigger] io[o]).0 == v;
            assert(blocks_occ(bs)[prev.len() + o].0 == v);
        } else {
            let tu = term_uses(bs[b].terminator);
            let x = choose|x: int| 0 <= x < tu.len() && tu[x] == v;
            assert(blocks_occ(bs)[prev.len() + io.len() + x].0 == v);
        }
    } else {
        lemma_blocks_occ_contains(bs.drop_last(), b, i, v);
        let o = choose|o: int| 0 <= o < prev.len() && (#[trigger] prev[o]).0 == v;
        assert(blocks_occ(bs)[o] == prev[o]);
    }
}

proof fn lemma_occurs_allocated(f: IrFunction, a: Allocation, b: int, i: int, v: VReg)
    requires
        allocation_of(f, a),
        0 <= b < f.blocks@.len(),
        0 <= i < f.blocks@[b].insts@.len() && (inst_uses(f.blocks@[b].insts@[i]) + inst_defs(
            f.blocks@[b].insts@[i],
        )).contains(v) || i == -1 && term_uses(f.blocks@[b].terminator).contains(v),
    ensures
        allocated(a, v),
{
    lemma_blocks_occ_contains(f.blocks@, b, i, v);
    let occ = func_occ(f);
    let o = choose|o: int| 0 <= o < occ.len() && (#[trigger] occ[o]).0 == v;
    reveal(live_intervals_upto);
    let k = choose|k: int|
        0 <= k < a.intervals@.len() && (#[trigger] a.intervals@[k]).vreg == (#[trigger] occ[o]).0;
}

/// Every register an instruction of `f` names has a location in a sound
/// allocation for `f`.
pub proof fn lemma_inst_allocated(f: IrFunction, a: Allocation, b: int, i: int)
    requires
        allocation_of(f, a),
        0 <= b < f.blocks@.len(),
        0 <= i < f.blocks@[b].insts@.len(),
    ensures
        inst_allocated(a, f.blocks@[b].insts@[i]),
{
    let inst = f.blocks@[b].insts@[i];
    let names = inst_uses(inst) + inst_defs(inst);
    assert forall|x: int| 0 <= x < names.len() implies allocated(a, #[trigger] names[x]) by {
        assert(names.contains(names[x]));
        lemma_occurs_allocated(f, a, b, i, names[x]);
    }
    match inst {
        IrInst::Copy { dest, src } => {
            assert(names[names.len() - 1] == dest);
            if src is Reg {
                assert(names[0] == src->Reg_0);
            }
        },
        IrInst::BinOp { dest, lhs, rhs, .. } => {
            assert(names[names.len() - 1] == dest);
            if lhs is Reg {
                assert(names[0] == lhs->Reg_0);
            }
            if rhs is Reg {
                assert(names[operand_uses(lhs).len() as int] == rhs->Reg_0);
            }
        },
        IrInst::Call { dest, args, .. } => {
            assert(names[names.len() - 1] == dest);
            assert forall|j: int| 0 <= j < args@.len() implies operand_allocated(
                a,
                #[trigger] args@[j],
            ) by {
                if args@[j] is Reg {
                    lemma_operands_uses_contains(args@, j);
                    let u = operands_uses(args@);
                    let x = choose|x: int| 0 <= x < u.len() && u[x] == args@[j]->Reg_0;
                    assert(names[x] == args@[j]->Reg_0);
                }
            }
        },
        IrInst::StoreVar { src, .. } => {
            if src is Reg {
                assert(names[0] == src->Reg_0);
            }
        },
        IrInst::Print { src, .. } => {
            if src is Reg {
                assert(names[0] == src->Reg_0);
            }
        },
        IrInst::PrintInline { src, .. } => {
            if src is Reg {
                assert(names[0] == src->Reg_0);
            }
        },
        IrInst::SysExit { status } => {
            if status is Reg {
                assert(names[0] == status->Reg_0);
            }
        },
        IrInst::PrintConstStr { .. } => {},
        _ => {
            assert(names[0] == names[names.len() - 1]);
        },
    }
}

/// The register a terminator of `f` reads has a location in a sound
/// allocation for `f`.
pub proof fn lemma_term_allocated(f: IrFunction, a: Allocation, b: int)
    requires
        allocation_of(f, a),
        0 <= b < f.blocks@.len(),
    ensures
        term_allocated(a, f.blocks@[b].terminator),
{
    let t = f.blocks@[b].terminator;
    let tu = term_uses(t);
    if tu.len() > 0 {
        assert(tu.contains(tu[0]));
        lemma_occurs_allocated(f, a, b, -1, tu[0]);
    }
}

/// Allocates the virtual registers of a function to callee-saved registers
/// and stack slots by linear scan over their live intervals.
///
/// Fails, as `None`, when a spilled register's stack slot would lie beyond
/// the reach of a signed 32-bit displacement.
pub fn allocate_vregs(func: &IrFunction) -> (r: Option<Allocation>)
    requires
        function_fits(*func),
    ensures
        r matches Some(a) ==> allocation_of(*func, a),
        r is None ==> func_occ(*func).len() > MAX_SPILL_SLOTS,
{
    let occ = collect_occurrences(func);
    let intervals = live_intervals(&occ);
    proof {
        reveal(live_intervals_upto);
        assert forall|k: int| 0 <= k < intervals@.len() implies (#[trigger] intervals@[k]).start
            <= intervals@[k].end by {
            reveal(is_live_interval);
        }
    }
    match linear_scan(&intervals) {
        Some((locations, spill_count)) => Some(Allocation { intervals, locations, spill_count }),
        None => None,
    }
}

/// Whether `k` is the first interval of `v`.
pub open spec fn first_interval(a: Allocation, v: VReg, k: int) -> bool {
    &&& 0 <= k < a.intervals@.len()
    &&& a.intervals@[k].vreg == v
    &&& forall|l: int| 0 <= l < k ==> a.intervals@[l].vreg != v
}

/// The location of a virtual register: that of its first interval.
pub open spec fn vreg_location(a: Allocation, v: VReg) -> VRegLocation {
    a.locations@[choose|k: int| first_interval(a, v, k)]
}

/// The location of a virtual register: that of its first interval.
pub fn location_of(a: &Allocation, v: VReg) -> (loc: VRegLocation)
    requires
        allocated(*a, v),
        a.locations@.len() == a.intervals@.len(),
        forall|k: int| 0 <= k < a.locations@.len() ==> valid_location(#[trigger] a.locations@[k], a.spill_count as int),
    ensures
        valid_location(loc, a.spill_count as int),
        loc == vreg_location(*a, v),
{
    let mut k: usize = 0;
    while k < a.intervals.len() && a.intervals[k].vreg != v
        invariant
            k <= a.intervals@.len(),
            forall|l: int| 0 <= l < k ==> a.intervals@[l].vreg != v,
        decreases a.intervals.len() - k,
    {
        k += 1;
    }
    proof {
        assert(first_interval(*a, v, k as int));
        let c = choose|c: int| first_interval(*a, v, c);
        if c < k {
            assert(a.intervals@[c].vreg != v);
        } else if k < c {
            assert(a.intervals@[k as int].vreg != v);
        }
    }
    a.locations[k]
}

} // verus!
