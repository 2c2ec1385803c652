//! The intermediate representation consumed by the native backend.

use vstd::prelude::*;

verus! {

/// A virtual register.
pub type VReg = usize;

/// An instruction operand.
#[derive(Debug, Clone, Copy, PartialEq, Eq, Structural)]
pub enum Operand {
    Reg(VReg),
    Const(i64),
}

/// Binary operations of the IR.
#[derive(Debug, Clone, Copy, PartialEq, Eq, Structural)]
pub enum IrBinOp {
    Add,
    Sub,
    Mul,
    Div,
    Rem,
    Pow,
    And,
    Or,
    Xor,
    Eq,
    Ne,
    Lt,
    Gt,
    Le,
    Ge,
}

/// What an IR operation computes from two integer operands, truths being
/// nonzero integers and coming out as 1 or 0 (see `operator_value` for the
/// operators of the language).
pub open spec fn ir_value(op: IrBinOp, a: int, b: int) -> Option<int> {
    match op {
        IrBinOp::Add => Some(a + b),
        IrBinOp::Sub => Some(a - b),
        IrBinOp::Mul => Some(a * b),
        IrBinOp::Div => if b == 0 {
            None
        } else {
            Some(crate::ast::quotient_toward_zero(a, b))
        },
        IrBinOp::Rem => if b == 0 {
            None
        } else {
            Some(a - b * crate::ast::quotient_toward_zero(a, b))
        },
        IrBinOp::Pow => if b < 0 {
            None
        } else {
            Some(vstd::arithmetic::power::pow(a, b as nat))
        },
        IrBinOp::And => Some(crate::ast::truth_value(a != 0 && b != 0)),
        IrBinOp::Or => Some(crate::ast::truth_value(a != 0 || b != 0)),
        IrBinOp::Xor => Some(crate::ast::truth_value((a != 0) != (b != 0))),
        IrBinOp::Eq => Some(crate::ast::truth_value(a == b)),
        IrBinOp::Ne => Some(crate::ast::truth_value(a != b)),
        IrBinOp::Lt => Some(crate::ast::truth_value(a < b)),
        IrBinOp::Gt => Some(crate::ast::truth_value(a > b)),
        IrBinOp::Le => Some(crate::ast::truth_value(a <= b)),
        IrBinOp::Ge => Some(crate::ast::truth_value(a >= b)),
    }
}

/// Whether an IR operation is one of the six comparisons.
pub open spec fn ir_comparison(op: IrBinOp) -> bool {
    op == IrBinOp::Eq || op == IrBinOp::Ne || op == IrBinOp::Lt || op == IrBinOp::Gt || op == IrBinOp::Le
        || op == IrBinOp::Ge
}

/// How a printed value is rendered.
#[derive(Debug, Clone, Copy, PartialEq, Eq, Structural)]
pub enum PrintKind {
    Int,
    Bool,
    Str,
}

/// What an input instruction reads.
#[derive(Debug, Clone, Copy, PartialEq, Eq, Structural)]
pub enum InputKind {
    Int,
    Float,
    Str,
}

/// IR instructions.
#[derive(Debug, Clone)]
pub enum IrInst {
    Const { dest: VReg, value: i64 },
    ConstStr { dest: VReg, value: String },
    Input { dest: VReg, kind: InputKind },
    Copy { dest: VReg, src: Operand },
    BinOp { dest: VReg, op: IrBinOp, lhs: Operand, rhs: Operand },
    Call { dest: VReg, func: String, args: Vec<Operand> },
    Param { dest: VReg, index: usize },
    LoadVar { dest: VReg, var_name: String },
    StoreVar { var_name: String, src: Operand },
    Print { src: Operand, kind: PrintKind },
    PrintInline { src: Operand, kind: PrintKind },
    PrintConstStr { str_val: String },
    SysExit { status: Operand },
}

/// Block terminators.
#[derive(Debug, Clone)]
pub enum IrTerminator {
    Ret(Option<Operand>),
    Jump(String),
    Branch { cond: Operand, true_label: String, false_label: String },
}

/// A labelled basic block.
#[derive(Debug, Clone)]
pub struct BasicBlock {
    pub label: String,
    pub insts: Vec<IrInst>,
    pub terminator: IrTerminator,
}

/// A function of the IR.
#[derive(Debug, Clone)]
pub struct IrFunction {
    pub name: String,
    pub param_names: Vec<String>,
    pub blocks: Vec<BasicBlock>,
}

/// A whole IR program.
#[derive(Debug, Clone)]
pub struct IrProgram {
    pub functions: Vec<IrFunction>,
}

/// The virtual registers an operand reads.
pub open spec fn operand_uses(op: Operand) -> Seq<VReg> {
    match op {
        Operand::Reg(v) => seq![v],
        Operand::Const(_) => seq![],
    }
}

/// The virtual registers a list of operands reads, in order.
pub open spec fn operands_uses(ops: Seq<Operand>) -> Seq<VReg>
    decreases ops.len(),
{
    if ops.len() == 0 {
        seq![]
    } else {
        operands_uses(ops.drop_last()) + operand_uses(ops.last())
    }
}

/// The virtual registers an instruction reads, in order.
pub open spec fn inst_uses(inst: IrInst) -> Seq<VReg> {
    match inst {
        IrInst::Copy { src, .. } => operand_uses(src),
        IrInst::BinOp { lhs, rhs, .. } => operand_uses(lhs) + operand_uses(rhs),
        IrInst::Call { args, .. } => operands_uses(args@),
        IrInst::StoreVar { src, .. } => operand_uses(src),
        IrInst::Print { src, .. } => operand_uses(src),
        IrInst::PrintInline { src, .. } => operand_uses(src),
        IrInst::SysExit { status } => operand_uses(status),
        _ => seq![],
    }
}

/// The virtual registers an instruction writes.
pub open spec fn inst_defs(inst: IrInst) -> Seq<VReg> {
    match inst {
        IrInst::Const { dest, .. } => seq![dest],
        IrInst::ConstStr { dest, .. } => seq![dest],
        IrInst::Input { dest, .. } => seq![dest],
        IrInst::Copy { dest, .. } => seq![dest],
        IrInst::BinOp { dest, .. } => seq![dest],
        IrInst::Call { dest, .. } => seq![dest],
        IrInst::Param { dest, .. } => seq![dest],
        IrInst::LoadVar { dest, .. } => seq![dest],
        _ => seq![],
    }
}

/// The virtual registers a terminator reads.
pub open spec fn term_uses(t: IrTerminator) -> Seq<VReg> {
    match t {
        IrTerminator::Ret(Some(op)) => operand_uses(op),
        IrTerminator::Branch { cond, .. } => operand_uses(cond),
        _ => seq![],
    }
}

} // verus!
