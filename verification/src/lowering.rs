//! Lowering of the AST to the IR the native backend compiles: each function
//! becomes a list of basic blocks over virtual registers, with variables kept
//! in named stack slots.

use vstd::prelude::*;

use crate::backend::x86_64::{has_label, term_targets};
use crate::ast::{
    lemma_branches_shaped, lemma_stmts_shaped, stmt_shaped, stmts_shaped, branches_shaped, else_shaped,
    AssignmentTarget, BinOp, Expr, ForNode, FunctionDecl, IncrOp, Program, RetKind, Statement,
    StringPart, Subtype, TypeDecl, UnOp, VarDecl, WhileNode,
};
use crate::errors::ForgeError;
use crate::ir::{
    BasicBlock, InputKind, IrBinOp, IrFunction, IrInst, IrProgram, IrTerminator, Operand, PrintKind,
};
use crate::text::{append, concat, copy_string, decimal_string, owned, str_eq};
use crate::render::{expr_text_of, ret_kind_text_of, type_text_of};

verus! {

/// The labels `Skip` and `Stop` jump to inside a loop or an `If`.
struct LoopCtx {
    continue_label: String,
    exit_label: String,
}

/// What lowering needs to know of a variable's or a function's type.
#[derive(Clone, Copy, PartialEq, Eq, Structural)]
pub enum ValueKind {
    Bool,
    Weld,
    Other,
}

/// The state of lowering one function.
struct Lowerer {
    vreg_counter: usize,
    block_counter: usize,
    current_label: String,
    current_insts: Vec<IrInst>,
    blocks: Vec<BasicBlock>,
    terminated: bool,
    known_functions: Vec<String>,
    function_ret_kinds: Vec<(String, ValueKind)>,
    break_stack: Vec<LoopCtx>,
    var_types: Vec<(String, ValueKind)>,
    var_storage: Vec<(String, String)>,
    storage_counter: usize,
}

/// The names of a list of strings.
pub open spec fn names_of(v: Seq<String>) -> Seq<Seq<char>> {
    v.map_values(|s: String| s@)
}

/// What the native backend needs of a lowered instruction: a parameter comes
/// from one of the six argument registers, and a call passes at most six
/// arguments to a function of the program.
pub open spec fn lowered_inst_ok(inst: IrInst, known: Seq<Seq<char>>) -> bool {
    match inst {
        IrInst::Param { index, .. } => index < 6,
        IrInst::Call { func, args, .. } => args@.len() <= 6 && known.contains(func@),
        _ => true,
    }
}

/// Every instruction of the blocks satisfies `lowered_inst_ok`.
pub open spec fn blocks_ok(blocks: Seq<BasicBlock>, known: Seq<Seq<char>>) -> bool {
    forall|b: int, i: int|
        0 <= b < blocks.len() && 0 <= i < blocks[b].insts@.len() ==> lowered_inst_ok(
            #[trigger] blocks[b].insts@[i],
            known,
        )
}

spec fn lowerer_ok(l: Lowerer) -> bool {
    &&& blocks_ok(l.blocks@, names_of(l.known_functions@))
    &&& forall|i: int|
        0 <= i < l.current_insts@.len() ==> lowered_inst_ok(
            #[trigger] l.current_insts@[i],
            names_of(l.known_functions@),
        )
}

/// Lowering only adds well-formed code and keeps the known functions.
spec fn lowering_step(o: Lowerer, n: Lowerer) -> bool {
    &&& lowerer_ok(n)
    &&& n.known_functions@ == o.known_functions@
    &&& o.blocks@.len() <= n.blocks@.len()
}

/// Whether some block of `bs` carries the label `x`.
pub open spec fn block_labelled(bs: Seq<BasicBlock>, x: Seq<char>) -> bool {
    exists|b: int| 0 <= b < bs.len() && (#[trigger] bs[b]).label@ == x
}

/// Whether some terminator of `bs` may jump to the label `x`.
pub open spec fn jumps_to(bs: Seq<BasicBlock>, x: Seq<char>) -> bool {
    exists|b: int, t: int|
        0 <= b < bs.len() && 0 <= t < term_targets(bs[b].terminator).len()
            && #[trigger] term_targets(bs[b].terminator)[t] == x
}

/// Whether `Stop` or `Skip` may jump to `x` from inside the open constructs.
spec fn stacked(st: Seq<LoopCtx>, x: Seq<char>) -> bool {
    exists|k: int|
        0 <= k < st.len() && ((#[trigger] st[k]).exit_label@ == x || (st[k].continue_label@ == x
            && x.len() > 0))
}

/// Whether the label `x` names a finished block or the open one.
spec fn defines(l: Lowerer, x: Seq<char>) -> bool {
    block_labelled(l.blocks@, x) || (!l.terminated && l.current_label@ == x)
}

/// Whether code may jump to the label `x` that names no block yet.
spec fn dangling(l: Lowerer, x: Seq<char>) -> bool {
    (jumps_to(l.blocks@, x) || stacked(l.break_stack@, x)) && !defines(l, x)
}

/// The blocks, the open block and the enclosing constructs are unchanged.
spec fn flow_same(o: Lowerer, n: Lowerer) -> bool {
    &&& n.blocks@ == o.blocks@
    &&& n.terminated == o.terminated
    &&& n.current_label@ == o.current_label@
    &&& n.break_stack@ == o.break_stack@
}

/// Every label stays defined, no jump to an undefined label is added, and the
/// enclosing constructs are restored.
spec fn flow_closes(o: Lowerer, n: Lowerer) -> bool {
    &&& forall|x: Seq<char>| #[trigger] defines(o, x) ==> defines(n, x)
    &&& forall|x: Seq<char>| #[trigger] dangling(n, x) ==> dangling(o, x)
    &&& n.break_stack@ == o.break_stack@
}

/// Every jump of a function names one of its blocks.
pub open spec fn jumps_closed(f: IrFunction) -> bool {
    forall|b: int, t: int|
        0 <= b < f.blocks@.len() && 0 <= t < term_targets(f.blocks@[b].terminator).len() ==> has_label(
            f,
            #[trigger] term_targets(f.blocks@[b].terminator)[t],
        )
}

proof fn lemma_same_closes(o: Lowerer, n: Lowerer)
    requires
        flow_same(o, n),
    ensures
        flow_closes(o, n),
{
    assert forall|x: Seq<char>| #[trigger] defines(o, x) implies defines(n, x) by {}
    assert forall|x: Seq<char>| #[trigger] dangling(n, x) implies dangling(o, x) by {}
}

/// Whether `x` is the join label, the else label, or a branch or condition
/// label of an `If` whose block is not started yet, from branch `from` on.
spec fn if_pending(
    bl: Seq<String>,
    cl: Seq<String>,
    from: int,
    j: Seq<char>,
    el: Seq<char>,
    x: Seq<char>,
) -> bool {
    ||| x == j
    ||| x == el
    ||| exists|k: int|
        #![trigger bl[k]]
        #![trigger cl[k]]
        from <= k < bl.len() && (bl[k]@ == x || (k >= 1 && cl[k]@ == x))
}

proof fn lemma_blocks_ok_push(bs: Seq<BasicBlock>, blk: BasicBlock, known: Seq<Seq<char>>)
    requires
        blocks_ok(bs, known),
        forall|i: int| 0 <= i < blk.insts@.len() ==> lowered_inst_ok(#[trigger] blk.insts@[i], known),
    ensures
        blocks_ok(bs.push(blk), known),
{
    let n = bs.push(blk);
    assert forall|b: int, i: int|
        0 <= b < n.len() && 0 <= i < n[b].insts@.len() implies lowered_inst_ok(#[trigger] n[b].insts@[i], known) by {
        if b < bs.len() {
            assert(n[b] == bs[b]);
        } else {
            assert(n[b] == blk);
        }
    }
}

proof fn lemma_push_block(bs: Seq<BasicBlock>, blk: BasicBlock)
    ensures
        forall|x: Seq<char>| #[trigger] block_labelled(bs.push(blk), x) == (block_labelled(bs, x) || blk.label@ == x),
        forall|x: Seq<char>|
            #[trigger] jumps_to(bs.push(blk), x) == (jumps_to(bs, x) || term_targets(blk.terminator).contains(x)),
{
    let n = bs.push(blk);
    assert forall|x: Seq<char>| #[trigger] block_labelled(n, x) == (block_labelled(bs, x) || blk.label@ == x) by {
        if block_labelled(bs, x) {
            let b = choose|b: int| 0 <= b < bs.len() && (#[trigger] bs[b]).label@ == x;
            assert(n[b] == bs[b]);
        }
        if blk.label@ == x {
            assert(n[bs.len() as int] == blk);
        }
        if block_labelled(n, x) {
            let b = choose|b: int| 0 <= b < n.len() && (#[trigger] n[b]).label@ == x;
            if b < bs.len() {
                assert(n[b] == bs[b]);
            }
        }
    }
    assert forall|x: Seq<char>|
        #[trigger] jumps_to(n, x) == (jumps_to(bs, x) || term_targets(blk.terminator).contains(x)) by {
        if jumps_to(bs, x) {
            let (b, t) = choose|b: int, t: int|
                0 <= b < bs.len() && 0 <= t < term_targets(bs[b].terminator).len()
                    && #[trigger] term_targets(bs[b].terminator)[t] == x;
            assert(n[b] == bs[b]);
            assert(term_targets(n[b].terminator)[t] == x);
        }
        if term_targets(blk.terminator).contains(x) {
            let t = choose|t: int| 0 <= t < term_targets(blk.terminator).len() && term_targets(blk.terminator)[t] == x;
            assert(n[bs.len() as int] == blk);
            assert(term_targets(n[bs.len() as int].terminator)[t] == x);
        }
        if jumps_to(n, x) {
            let (b, t) = choose|b: int, t: int|
                0 <= b < n.len() && 0 <= t < term_targets(n[b].terminator).len()
                    && #[trigger] term_targets(n[b].terminator)[t] == x;
            if b < bs.len() {
                assert(n[b] == bs[b]);
                assert(term_targets(bs[b].terminator)[t] == x);
            } else {
                assert(n[b] == blk);
            }
        }
    }
}

proof fn lemma_push_ctx(st: Seq<LoopCtx>, c: LoopCtx)
    ensures
        forall|x: Seq<char>|
            #[trigger] stacked(st.push(c), x) == (stacked(st, x) || c.exit_label@ == x || (c.continue_label@
                == x && x.len() > 0)),
{
    let n = st.push(c);
    assert forall|x: Seq<char>|
        #[trigger] stacked(n, x) == (stacked(st, x) || c.exit_label@ == x || (c.continue_label@ == x
            && x.len() > 0)) by {
        if stacked(st, x) {
            let k = choose|k: int|
                0 <= k < st.len() && ((#[trigger] st[k]).exit_label@ == x || (st[k].continue_label@ == x
                    && x.len() > 0));
            assert(n[k] == st[k]);
        }
        if c.exit_label@ == x || (c.continue_label@ == x && x.len() > 0) {
            assert(n[st.len() as int] == c);
        }
        if stacked(n, x) {
            let k = choose|k: int|
                0 <= k < n.len() && ((#[trigger] n[k]).exit_label@ == x || (n[k].continue_label@ == x
                    && x.len() > 0));
            if k < st.len() {
                assert(n[k] == st[k]);
            }
        }
    }
}

/// What lowering records of a declared type.
spec fn type_kind(t: TypeDecl) -> ValueKind {
    match t {
        TypeDecl::Bool => ValueKind::Bool,
        TypeDecl::Weld => ValueKind::Weld,
        _ => ValueKind::Other,
    }
}

/// What lowering records of a return kind.
spec fn ret_value_kind(r: RetKind) -> ValueKind {
    match r {
        RetKind::Bool => ValueKind::Bool,
        RetKind::Weld => ValueKind::Weld,
        _ => ValueKind::Other,
    }
}

/// The successor of a counter, wrapping to 0 after the largest `usize`.
spec fn wrapped_next(n: usize) -> usize {
    if n == usize::MAX {
        0
    } else {
        (n + 1) as usize
    }
}

/// Whether `i` is the first entry of `l` whose key is `name`.
pub open spec fn key_at<V>(l: Seq<(String, V)>, name: Seq<char>, i: int) -> bool {
    &&& 0 <= i < l.len()
    &&& l[i].0@ == name
    &&& forall|j: int| 0 <= j < i ==> l[j].0@ != name
}

/// Whether no entry of `l` has the key `name`.
spec fn key_absent<V>(l: Seq<(String, V)>, name: Seq<char>) -> bool {
    forall|j: int| 0 <= j < l.len() ==> l[j].0@ != name
}

/// The value of the first entry of `l` whose key is `name`, if any.
pub open spec fn assoc_value<V>(l: Seq<(String, V)>, name: Seq<char>) -> Option<V> {
    if exists|i: int| key_at(l, name, i) {
        Some(l[choose|i: int| key_at(l, name, i)].1)
    } else {
        None
    }
}

/// The value of the last entry of `l` whose key is `name`, if any.
spec fn last_value<V>(l: Seq<(String, V)>, name: Seq<char>) -> Option<V>
    decreases l.len(),
{
    if l.len() == 0 {
        None
    } else if l.last().0@ == name {
        Some(l.last().1)
    } else {
        last_value(l.drop_last(), name)
    }
}

proof fn lemma_key_unique<V>(l: Seq<(String, V)>, name: Seq<char>, i: int, k: int)
    requires
        key_at(l, name, i),
        key_at(l, name, k),
    ensures
        i == k,
{
    if i < k {
        assert(l[i].0@ != name);
    } else if k < i {
        assert(l[k].0@ != name);
    }
}

proof fn lemma_assoc_value<V>(l: Seq<(String, V)>, name: Seq<char>, i: int)
    requires
        key_at(l, name, i),
    ensures
        assoc_value(l, name) == Some(l[i].1),
{
    let k = choose|k: int| key_at(l, name, k);
    lemma_key_unique(l, name, i, k);
}

fn kind_of_type(t: &TypeDecl) -> (k: ValueKind)
    ensures
        k == type_kind(*t),
{
    match t {
        TypeDecl::Bool => ValueKind::Bool,
        TypeDecl::Weld => ValueKind::Weld,
        _ => ValueKind::Other,
    }
}

fn kind_of_ret(r: &RetKind) -> (k: ValueKind)
    ensures
        k == ret_value_kind(*r),
{
    match r {
        RetKind::Bool => ValueKind::Bool,
        RetKind::Weld => ValueKind::Weld,
        _ => ValueKind::Other,
    }
}

/// The entry for `name` in an association list, if any.
fn assoc_index<V>(list: &Vec<(String, V)>, name: &str) -> (r: Option<usize>)
    ensures
        match r {
            Some(i) => key_at(list@, name@, i as int),
            None => key_absent(list@, name@),
        },
{
    let mut i: usize = 0;
    while i < list.len()
        invariant
            i <= list@.len(),
            forall|j: int| 0 <= j < i ==> list@[j].0@ != name@,
        decreases list.len() - i,
    {
        if str_eq(list[i].0.as_str(), name) {
            return Some(i);
        }
        i += 1;
    }
    None
}

/// Sets the kind recorded for `name`.
fn set_kind(list: &mut Vec<(String, ValueKind)>, name: &String, kind: ValueKind)
    ensures
        forall|i: int| #[trigger] key_at(old(list)@, name@, i) ==> final(list)@ == old(list)@.update(i, (*name, kind)),
        key_absent(old(list)@, name@) ==> final(list)@ == old(list)@.push((*name, kind)),
{
    match assoc_index(list, name.as_str()) {
        Some(i) => {
            list.set(i, (name.clone(), kind));
        },
        None => {
            list.push((name.clone(), kind));
        },
    }
}

/// Sets the storage slot recorded for `name`.
fn set_storage(list: &mut Vec<(String, String)>, name: &String, storage: String)
    ensures
        forall|i: int| #[trigger] key_at(old(list)@, name@, i) ==> final(list)@ == old(list)@.update(i, (*name, storage)),
        key_absent(old(list)@, name@) ==> final(list)@ == old(list)@.push((*name, storage)),
{
    match assoc_index(list, name.as_str()) {
        Some(i) => {
            list.set(i, (name.clone(), storage));
        },
        None => {
            list.push((name.clone(), storage));
        },
    }
}

/// Removes the entry for `name`, if any.
fn remove_entry<V>(list: &mut Vec<(String, V)>, name: &String)
    ensures
        forall|i: int| #[trigger] key_at(old(list)@, name@, i) ==> final(list)@ == old(list)@.remove(i),
        key_absent(old(list)@, name@) ==> final(list)@ == old(list)@,
{
    match assoc_index(list, name.as_str()) {
        Some(i) => {
            list.remove(i);
        },
        None => {},
    }
}

impl Lowerer {
    fn new(known_functions: Vec<String>, function_ret_kinds: Vec<(String, ValueKind)>) -> (l: Self)
        ensures
            l.current_insts@.len() == 0,
            lowerer_ok(l),
            l.known_functions@ == known_functions@,
            l.blocks@.len() == 0,
            l.break_stack@.len() == 0,
    {
        let l = Lowerer {
            vreg_counter: 0,
            block_counter: 0,
            current_label: String::new(),
            current_insts: Vec::new(),
            blocks: Vec::new(),
            terminated: false,
            known_functions,
            function_ret_kinds,
            break_stack: Vec::new(),
            var_types: Vec::new(),
            var_storage: Vec::new(),
            storage_counter: 0,
        };
        l
    }

    fn alloc_vreg(&mut self) -> (v: usize)
        requires
            lowerer_ok(*old(self)),
        ensures
            lowering_step(*old(self), *final(self)),
            flow_same(*old(self), *final(self)),
            v == old(self).vreg_counter,
            final(self).vreg_counter == wrapped_next(old(self).vreg_counter),
            final(self).block_counter == old(self).block_counter,
            final(self).current_insts@ == old(self).current_insts@,
            final(self).var_types@ == old(self).var_types@,
            final(self).var_storage@ == old(self).var_storage@,
            final(self).function_ret_kinds@ == old(self).function_ret_kinds@,
    {
        let v = self.vreg_counter;
        self.vreg_counter = self.vreg_counter.wrapping_add(1);
        v
    }

    fn alloc_label(&mut self, prefix: &str) -> (label: String)
        requires
            lowerer_ok(*old(self)),
        ensures
            lowering_step(*old(self), *final(self)),
            flow_same(*old(self), *final(self)),
            label@ == prefix@ + "_"@ + crate::text::decimal(old(self).block_counter as nat),
            final(self).block_counter == wrapped_next(old(self).block_counter),
            final(self).vreg_counter == old(self).vreg_counter,
            final(self).current_insts@ == old(self).current_insts@,
            final(self).var_types@ == old(self).var_types@,
            final(self).var_storage@ == old(self).var_storage@,
            final(self).function_ret_kinds@ == old(self).function_ret_kinds@,
    {
        let id = self.block_counter;
        self.block_counter = self.block_counter.wrapping_add(1);
        let mut label = concat(prefix, "_");
        append(&mut label, decimal_string(id as u64).as_str());
        label
    }

    fn start_block(&mut self, label: String)
        requires
            lowerer_ok(*old(self)),
        ensures
            final(self).current_insts@.len() == 0,
            lowering_step(*old(self), *final(self)),
            !final(self).terminated,
            final(self).blocks@ == old(self).blocks@,
            final(self).break_stack@ == old(self).break_stack@,
            final(self).current_label@ == label@,
            names_same(*old(self), *final(self)),
    {
        self.current_label = label;
        self.current_insts = Vec::new();
        self.terminated = false;
    }

    fn finish_block(&mut self, terminator: IrTerminator)
        requires
            lowerer_ok(*old(self)),
        ensures
            lowerer_no_input(*old(self)) ==> lowerer_no_input(*final(self)),
            lowering_step(*old(self), *final(self)),
            final(self).terminated,
            final(self).break_stack@ == old(self).break_stack@,
            names_same(*old(self), *final(self)),
            !old(self).terminated ==> final(self).blocks@.len() == old(self).blocks@.len() + 1,
            !old(self).terminated ==> final(self).blocks@.last().insts@ == old(self).current_insts@
                && final(self).blocks@.last().terminator == terminator
                && final(self).blocks@.last().label@ == old(self).current_label@,
            forall|x: Seq<char>| #[trigger] defines(*final(self), x) == defines(*old(self), x),
            forall|x: Seq<char>|
                #[trigger] jumps_to(final(self).blocks@, x) == (jumps_to(old(self).blocks@, x) || (
                !old(self).terminated && term_targets(terminator).contains(x))),
    {
        if self.terminated {
            return;
        }
        let mut label = String::new();
        std::mem::swap(&mut label, &mut self.current_label);
        let mut insts: Vec<IrInst> = Vec::new();
        std::mem::swap(&mut insts, &mut self.current_insts);
        let ghost old_blocks = self.blocks@;
        let ghost iv = insts@;
        assert(iv == old(self).current_insts@);
        self.blocks.push(BasicBlock { label, insts, terminator });
        proof {
            assert(old_blocks.push(self.blocks@.last()) =~= self.blocks@);
            lemma_blocks_ok_push(old_blocks, self.blocks@.last(), names_of(self.known_functions@));
            lemma_push_block(old_blocks, self.blocks@.last());
        }
        self.terminated = true;
    }

    fn emit(&mut self, inst: IrInst)
        requires
            lowerer_ok(*old(self)),
            lowered_inst_ok(inst, names_of(old(self).known_functions@)),
        ensures
            lowering_step(*old(self), *final(self)),
            flow_same(*old(self), *final(self)),
            final(self).current_insts@ == if old(self).terminated {
                old(self).current_insts@
            } else {
                old(self).current_insts@.push(inst)
            },
            final(self).vreg_counter == old(self).vreg_counter,
            final(self).block_counter == old(self).block_counter,
            final(self).var_types@ == old(self).var_types@,
            final(self).var_storage@ == old(self).var_storage@,
            final(self).function_ret_kinds@ == old(self).function_ret_kinds@,
    {
        if !self.terminated {
            self.current_insts.push(inst);
        }
    }

    fn storage_name(&self, name: &str) -> (r: String)
        ensures
            r@ == match assoc_value(self.var_storage@, name@) {
                Some(slot) => slot@,
                None => name@,
            },
    {
        match assoc_index(&self.var_storage, name) {
            Some(i) => {
                proof {
                    lemma_assoc_value(self.var_storage@, name@, i as int);
                }
                copy_string(&self.var_storage[i].1)
            },
            None => owned(name),
        }
    }

    fn var_kind(&self, name: &str) -> (r: Option<ValueKind>)
        ensures
            r == assoc_value(self.var_types@, name@),
    {
        match assoc_index(&self.var_types, name) {
            Some(i) => {
                proof {
                    lemma_assoc_value(self.var_types@, name@, i as int);
                }
                Some(self.var_types[i].1)
            },
            None => None,
        }
    }

    fn ret_kind_of(&self, name: &str) -> (r: Option<ValueKind>)
        ensures
            r == last_value(self.function_ret_kinds@, name@),
    {
        let mut r: Option<ValueKind> = None;
        let mut i: usize = 0;
        while i < self.function_ret_kinds.len()
            invariant
                i <= self.function_ret_kinds@.len(),
                r == last_value(self.function_ret_kinds@.take(i as int), name@),
            decreases self.function_ret_kinds.len() - i,
        {
            proof {
                assert(self.function_ret_kinds@.take(i + 1).drop_last() =~= self.function_ret_kinds@.take(
                    i as int,
                ));
            }
            if str_eq(self.function_ret_kinds[i].0.as_str(), name) {
                r = Some(self.function_ret_kinds[i].1);
            }
            i += 1;
        }
        proof {
            assert(self.function_ret_kinds@.take(i as int) =~= self.function_ret_kinds@);
        }
        r
    }

    fn is_known_function(&self, name: &String) -> (r: bool)
        ensures
            r == names_of(self.known_functions@).contains(name@),
    {
        let mut i: usize = 0;
        while i < self.known_functions.len()
            invariant
                i <= self.known_functions@.len(),
                forall|j: int| 0 <= j < i ==> self.known_functions@[j]@ != name@,
            decreases self.known_functions.len() - i,
        {
            if str_eq(self.known_functions[i].as_str(), name.as_str()) {
                assert(names_of(self.known_functions@)[i as int] == name@);
                return true;
            }
            i += 1;
        }
        false
    }
}

fn codegen_error(msg: &str) -> (e: ForgeError)
    ensures
        e.message@ == msg@,
        e.line == 0,
{
    ForgeError::codegen(owned(msg))
}

fn clone_ctx(c: &LoopCtx) -> (r: LoopCtx)
    ensures
        r.continue_label@ == c.continue_label@,
        r.exit_label@ == c.exit_label@,
{
    LoopCtx { continue_label: copy_string(&c.continue_label), exit_label: copy_string(&c.exit_label) }
}

/// Whether lowering prints an expression as a boolean: a literal, a
/// comparison or logical operation, or a variable or call known to be one.
spec fn bool_expr(expr: Expr, l: Lowerer) -> bool {
    match expr {
        Expr::Bool(_) => true,
        Expr::Identifier(name) => assoc_value(l.var_types@, name@) == Some(ValueKind::Bool),
        Expr::Call { callee, .. } => last_value(l.function_ret_kinds@, callee@) == Some(ValueKind::Bool),
        Expr::BinaryOp { op, .. } => match op {
            BinOp::Eq | BinOp::Ne | BinOp::Lt | BinOp::Gt | BinOp::Le | BinOp::Ge | BinOp::And
            | BinOp::Or | BinOp::Xor => true,
            _ => false,
        },
        _ => false,
    }
}

/// Whether lowering prints an expression as a string: a literal, or a
/// variable or call known to be a `Weld`.
spec fn string_expr(expr: Expr, l: Lowerer) -> bool {
    match expr {
        Expr::Str(_) => true,
        Expr::Identifier(name) => assoc_value(l.var_types@, name@) == Some(ValueKind::Weld),
        Expr::Call { callee, .. } => last_value(l.function_ret_kinds@, callee@) == Some(ValueKind::Weld),
        _ => false,
    }
}

/// How lowering prints the value of an expression.
spec fn print_kind(expr: Expr, l: Lowerer) -> PrintKind {
    if string_expr(expr, l) {
        PrintKind::Str
    } else if bool_expr(expr, l) {
        PrintKind::Bool
    } else {
        PrintKind::Int
    }
}

/// Lowering keeps what every binary operator computes: on any two integer
/// operands the IR operation it lowers to gives the operator's own value
/// (so `>=` stays `>=`, and so on).
pub proof fn lemma_lowering_keeps_meaning(op: BinOp, a: int, b: int)
    ensures
        crate::ir::ir_value(ir_op(op), a, b) == crate::ast::operator_value(op, a, b),
{
}

/// The IR operation of a binary operator.
pub open spec fn ir_op(op: BinOp) -> IrBinOp {
    match op {
        BinOp::Add => IrBinOp::Add,
        BinOp::Sub => IrBinOp::Sub,
        BinOp::Mul => IrBinOp::Mul,
        BinOp::Div => IrBinOp::Div,
        BinOp::Rem => IrBinOp::Rem,
        BinOp::Pow => IrBinOp::Pow,
        BinOp::And => IrBinOp::And,
        BinOp::Or => IrBinOp::Or,
        BinOp::Xor => IrBinOp::Xor,
        BinOp::Eq => IrBinOp::Eq,
        BinOp::Ne => IrBinOp::Ne,
        BinOp::Lt => IrBinOp::Lt,
        BinOp::Gt => IrBinOp::Gt,
        BinOp::Le => IrBinOp::Le,
        BinOp::Ge => IrBinOp::Ge,
    }
}

fn is_bool_expr(expr: &Expr, lowerer: &Lowerer) -> (r: bool)
    ensures
        r == bool_expr(*expr, *lowerer),
{
    match expr {
        Expr::Bool(_) => true,
        Expr::Identifier(name) => lowerer.var_kind(name.as_str()) == Some(ValueKind::Bool),
        Expr::Call { callee, .. } => lowerer.ret_kind_of(callee.as_str()) == Some(ValueKind::Bool),
        Expr::BinaryOp { op, .. } => match op {
            BinOp::Eq | BinOp::Ne | BinOp::Lt | BinOp::Gt | BinOp::Le | BinOp::Ge | BinOp::And
            | BinOp::Or | BinOp::Xor => true,
            _ => false,
        },
        _ => false,
    }
}

fn is_string_expr(expr: &Expr, lowerer: &Lowerer) -> (r: bool)
    ensures
        r == string_expr(*expr, *lowerer),
{
    match expr {
        Expr::Str(_) => true,
        Expr::Identifier(name) => lowerer.var_kind(name.as_str()) == Some(ValueKind::Weld),
        Expr::Call { callee, .. } => lowerer.ret_kind_of(callee.as_str()) == Some(ValueKind::Weld),
        _ => false,
    }
}

fn ir_bin_op(op: BinOp) -> (r: IrBinOp)
    ensures
        r == ir_op(op),
{
    match op {
        BinOp::Add => IrBinOp::Add,
        BinOp::Sub => IrBinOp::Sub,
        BinOp::Mul => IrBinOp::Mul,
        BinOp::Div => IrBinOp::Div,
        BinOp::Rem => IrBinOp::Rem,
        BinOp::Pow => IrBinOp::Pow,
        BinOp::And => IrBinOp::And,
        BinOp::Or => IrBinOp::Or,
        BinOp::Xor => IrBinOp::Xor,
        BinOp::Eq => IrBinOp::Eq,
        BinOp::Ne => IrBinOp::Ne,
        BinOp::Lt => IrBinOp::Lt,
        BinOp::Gt => IrBinOp::Gt,
        BinOp::Le => IrBinOp::Le,
        BinOp::Ge => IrBinOp::Ge,
    }
}

/// Whether the native backend lowers an expression: integer literals,
/// inputs, booleans and strings, declared variables, arithmetic, comparison
/// and logic, and calls of known functions with at most six arguments that
/// it lowers.
pub open spec fn expr_lowers(e: Expr, vt: Seq<(String, ValueKind)>, known: Seq<Seq<char>>) -> bool
    decreases e,
{
    match e {
        Expr::Number(n) => !n.is_float,
        Expr::Input(_) => true,
        Expr::Bool(_) => true,
        Expr::Str(_) => true,
        Expr::Identifier(name) => assoc_value(vt, name@) is Some,
        Expr::BinaryOp { lhs, rhs, .. } => expr_lowers(*lhs, vt, known) && expr_lowers(*rhs, vt, known),
        Expr::UnaryOp { operand, .. } => expr_lowers(*operand, vt, known),
        Expr::Call { callee, args } => {
            proof {
                assert(decreases_to!(e => args));
                assert(decreases_to!(args => args@));
            }
            args@.len() <= 6 && known.contains(callee@) && args_lower(args@, vt, known)
        },
        _ => false,
    }
}

/// Whether the native backend lowers every expression of a list.
pub open spec fn args_lower(args: Seq<Expr>, vt: Seq<(String, ValueKind)>, known: Seq<Seq<char>>) -> bool
    decreases args,
{
    if args.len() == 0 {
        true
    } else {
        proof {
            assert(decreases_to!(args => args.subrange(0, args.len() - 1)));
            assert(decreases_to!(args => args[args.len() - 1]));
        }
        args_lower(args.subrange(0, args.len() - 1), vt, known) && expr_lowers(args[args.len() - 1], vt, known)
    }
}

proof fn lemma_args_lower(s: Seq<Expr>, vt: Seq<(String, ValueKind)>, known: Seq<Seq<char>>)
    ensures
        args_lower(s, vt, known) <==> forall|j: int| 0 <= j < s.len() ==> #[trigger] expr_lowers(s[j], vt, known),
    decreases s.len(),
{
    if s.len() > 0 {
        let q = s.subrange(0, s.len() - 1);
        lemma_args_lower(q, vt, known);
        assert forall|j: int| 0 <= j < q.len() implies q[j] == s[j] by {}
        assert(args_lower(s, vt, known) == (args_lower(q, vt, known) && expr_lowers(s[s.len() - 1], vt, known)));
        if forall|j: int| 0 <= j < s.len() ==> #[trigger] expr_lowers(s[j], vt, known) {
            assert forall|j: int| 0 <= j < q.len() implies #[trigger] expr_lowers(q[j], vt, known) by {
                assert(q[j] == s[j]);
            }
        }
        if args_lower(s, vt, known) {
            assert forall|j: int| 0 <= j < s.len() implies #[trigger] expr_lowers(s[j], vt, known) by {
                if j < s.len() - 1 {
                    assert(q[j] == s[j]);
                }
            }
        }
    }
}

/// The names, kinds and storage of variables, and the functions' return
/// kinds, are unchanged.
spec fn names_same(o: Lowerer, n: Lowerer) -> bool {
    &&& n.var_types@ == o.var_types@
    &&& n.var_storage@ == o.var_storage@
    &&& n.function_ret_kinds@ == o.function_ret_kinds@
}

/// The storage slot lowering uses for a variable name.
spec fn storage_of(l: Lowerer, name: Seq<char>) -> Seq<char> {
    match assoc_value(l.var_storage@, name) {
        Some(slot) => slot@,
        None => name,
    }
}

/// Lowering a value into a variable's slot: the value's instructions, then a
/// store of its result into `slot`.
spec fn store_emitted(value: Expr, before: Seq<IrInst>, after: Seq<IrInst>, slot: Seq<char>) -> bool {
    &&& after.len() > 0
    &&& after.last() matches IrInst::StoreVar { var_name, src }
    &&& var_name@ == slot
    &&& expr_emits(value, before, after.drop_last(), src)
}

/// Lowering a variable declaration: its initializer's instructions (or the
/// constant 0) stored into the variable's slot.
spec fn decl_emitted(d: VarDecl, before: Seq<IrInst>, l: Lowerer) -> bool {
    match d.initializer {
        Some(init) => store_emitted(init, before, l.current_insts@, storage_of(l, d.name@)),
        None => {
            &&& l.current_insts@.len() > 0
            &&& l.current_insts@.drop_last() == before
            &&& l.current_insts@.last() matches IrInst::StoreVar { var_name, src }
            &&& var_name@ == storage_of(l, d.name@)
            &&& src == Operand::Const(0)
        },
    }
}

/// The literal parts of a string, one after another.
spec fn literal_join(parts: Seq<StringPart>) -> Seq<char>
    decreases parts.len(),
{
    if parts.len() == 0 {
        seq![]
    } else {
        literal_join(parts.drop_last()) + match parts.last() {
            StringPart::Literal(t) => t@,
            StringPart::Interp(_) => seq![],
        }
    }
}

/// What printing appends to the current block, for a string without
/// interpolation (its text and a newline, as one constant) and for a value
/// that is no string literal (its instructions, then a print of its result).
spec fn print_emitted(e: Expr, before: Seq<IrInst>, after: Seq<IrInst>) -> bool {
    match e {
        Expr::Str(parts) => (forall|j: int| 0 <= j < parts@.len() ==> #[trigger] parts@[j] is Literal) ==> {
            &&& after.len() == before.len() + 1
            &&& after.drop_last() == before
            &&& after.last() matches IrInst::PrintConstStr { str_val }
            &&& str_val@ == literal_join(parts@) + "\n"@
        },
        _ => {
            &&& after.len() > 0
            &&& after.last() matches IrInst::Print { src, .. }
            &&& expr_emits(e, before, after.drop_last(), src)
        },
    }
}

/// Whether no instruction of `s` reads standard input.
pub open spec fn no_input_in(s: Seq<IrInst>) -> bool {
    forall|i: int| 0 <= i < s.len() ==> !(#[trigger] s[i] is Input)
}

/// Whether no instruction lowered so far reads standard input.
spec fn lowerer_no_input(l: Lowerer) -> bool {
    &&& no_input_in(l.current_insts@)
    &&& forall|b: int| 0 <= b < l.blocks@.len() ==> no_input_in(#[trigger] l.blocks@[b].insts@)
}

/// `after` keeps `before` as its beginning.
spec fn insts_extend(before: Seq<IrInst>, after: Seq<IrInst>) -> bool {
    &&& before.len() <= after.len()
    &&& after.subrange(0, before.len() as int) == before
}

/// What lowering an expression appends to the current block: nothing for a
/// literal number or boolean, and otherwise an instruction last that
/// computes the result: the operator's IR operation for a binary operation,
/// `0 - x` for a negation, a variable load, a string constant, an input or
/// a call of the named function with one operand per argument.
spec fn expr_emits(e: Expr, before: Seq<IrInst>, after: Seq<IrInst>, res: Operand) -> bool {
    &&& insts_extend(before, after)
    &&& match e {
        Expr::Number(_) | Expr::Bool(_) => after == before,
        Expr::BinaryOp { op, .. } => {
            &&& after.len() > before.len()
            &&& after.last() matches IrInst::BinOp { dest, op: iop, .. }
            &&& iop == ir_op(op)
            &&& res == Operand::Reg(dest)
        },
        Expr::UnaryOp { op: UnOp::Neg, .. } => {
            &&& after.len() > before.len()
            &&& after.last() matches IrInst::BinOp { dest, op: IrBinOp::Sub, lhs: Operand::Const(0), .. }
            &&& res == Operand::Reg(dest)
        },
        Expr::Identifier(_) => {
            &&& after.len() > before.len()
            &&& after.last() matches IrInst::LoadVar { dest, .. }
            &&& res == Operand::Reg(dest)
        },
        Expr::Str(_) => {
            &&& after.len() > before.len()
            &&& after.last() matches IrInst::ConstStr { dest, .. }
            &&& res == Operand::Reg(dest)
        },
        Expr::Input(_) => {
            &&& after.len() > before.len()
            &&& after.last() matches IrInst::Input { dest, .. }
            &&& res == Operand::Reg(dest)
        },
        Expr::Call { callee, args } => {
            &&& after.len() > before.len()
            &&& after.last() matches IrInst::Call { dest, func, args: ops }
            &&& func@ == callee@
            &&& ops@.len() == args@.len()
            &&& res == Operand::Reg(dest)
        },
        _ => true,
    }
}

proof fn lemma_extend_trans(a: Seq<IrInst>, b: Seq<IrInst>, c: Seq<IrInst>)
    requires
        insts_extend(a, b),
        insts_extend(b, c),
    ensures
        insts_extend(a, c),
{
    assert(c.subrange(0, a.len() as int) =~= b.subrange(0, a.len() as int));
}

proof fn lemma_extend_push(a: Seq<IrInst>, x: IrInst)
    ensures
        insts_extend(a, a.push(x)),
{
    assert(a.push(x).subrange(0, a.len() as int) =~= a);
}

/// Lowers the arguments of a call, in order.
fn lower_args(args: &Vec<Expr>, lowerer: &mut Lowerer) -> (r: Result<Vec<Operand>, ForgeError>)
    requires
        lowerer_ok(*old(lowerer)),
    ensures
        lowering_step(*old(lowerer), *final(lowerer)),
        flow_same(*old(lowerer), *final(lowerer)),
        names_same(*old(lowerer), *final(lowerer)),
        r is Ok <==> args_lower(args@, old(lowerer).var_types@, names_of(old(lowerer).known_functions@)),
        r is Ok && !old(lowerer).terminated ==> insts_extend(old(lowerer).current_insts@, final(lowerer).current_insts@),
        r matches Ok(ops) ==> ops@.len() == args@.len(),
        (forall|j: int| 0 <= j < args@.len() ==> !crate::backend::expr_needs_typed(#[trigger] args@[j]))
            && no_input_in(old(lowerer).current_insts@) ==> no_input_in(final(lowerer).current_insts@),
    decreases args@,
{
    proof {
        lemma_args_lower(args@, lowerer.var_types@, names_of(lowerer.known_functions@));
    }
    proof {
        assert(lowerer.current_insts@.subrange(0, lowerer.current_insts@.len() as int) =~= lowerer.current_insts@);
    }
    let mut ops: Vec<Operand> = Vec::new();
    let mut i: usize = 0;
    while i < args.len()
        invariant
            i <= args@.len(),
            ops@.len() == i,
            lowering_step(*old(lowerer), *lowerer),
            !old(lowerer).terminated ==> insts_extend(old(lowerer).current_insts@, lowerer.current_insts@),
            (forall|j: int| 0 <= j < args@.len() ==> !crate::backend::expr_needs_typed(#[trigger] args@[j]))
                && no_input_in(old(lowerer).current_insts@) ==> no_input_in(lowerer.current_insts@),
            flow_same(*old(lowerer), *lowerer),
            names_same(*old(lowerer), *lowerer),
            forall|j: int| 0 <= j < i ==> #[trigger] expr_lowers(args@[j], old(lowerer).var_types@, names_of(old(lowerer).known_functions@)),
            args_lower(args@, old(lowerer).var_types@, names_of(old(lowerer).known_functions@)) <==> forall|j: int|
                0 <= j < args@.len() ==> #[trigger] expr_lowers(args@[j], old(lowerer).var_types@, names_of(old(lowerer).known_functions@)),
        decreases args.len() - i,
    {
        proof {
            assert(decreases_to!(args@ => args@[i as int]));
        }
        let ghost before = lowerer.current_insts@;
        let op = lower_expr(&args[i], lowerer)?;
        proof {
            if !old(lowerer).terminated {
                lemma_extend_trans(old(lowerer).current_insts@, before, lowerer.current_insts@);
            }
        }
        ops.push(op);
        i += 1;
    }
    Ok(ops)
}

/// Lowers an expression, returning the operand that holds its value.
fn lower_expr(expr: &Expr, lowerer: &mut Lowerer) -> (r: Result<Operand, ForgeError>)
    requires
        lowerer_ok(*old(lowerer)),
    ensures
        lowering_step(*old(lowerer), *final(lowerer)),
        flow_same(*old(lowerer), *final(lowerer)),
        names_same(*old(lowerer), *final(lowerer)),
        r is Ok <==> expr_lowers(*expr, old(lowerer).var_types@, names_of(old(lowerer).known_functions@)),
        r matches Ok(op) ==> match *expr {
            Expr::Number(n) => op == Operand::Const(n.int_val),
            Expr::Bool(b) => op == Operand::Const(if b { 1 } else { 0 }),
            Expr::UnaryOp { op: UnOp::Plus, .. } => true,
            _ => op matches Operand::Reg(v) && wrapped_next(v) == final(lowerer).vreg_counter,
        },
        !old(lowerer).terminated ==> (r matches Ok(op) ==> expr_emits(
            *expr,
            old(lowerer).current_insts@,
            final(lowerer).current_insts@,
            op,
        )),
        !crate::backend::expr_needs_typed(*expr) && no_input_in(old(lowerer).current_insts@) ==> no_input_in(
            final(lowerer).current_insts@,
        ),
    decreases expr,
{
    let ghost o0 = lowerer.current_insts@;
    proof {
        assert(o0.subrange(0, o0.len() as int) =~= o0);
    }
    match expr {
        Expr::Number(num) => {
            if num.is_float {
                return Err(codegen_error("Float numbers are not supported in native backend"));
            }
            Ok(Operand::Const(num.int_val))
        },
        Expr::Input(input) => {
            let kind = match input.subtype {
                Some(Subtype::Int) | None => InputKind::Int,
                Some(Subtype::Float) => InputKind::Float,
                Some(Subtype::Weld) | Some(Subtype::Generic) => InputKind::Str,
            };
            let dest = lowerer.alloc_vreg();
            lowerer.emit(IrInst::Input { dest, kind });
            proof {
                lemma_extend_push(o0, IrInst::Input { dest, kind });
            }
            Ok(Operand::Reg(dest))
        },
        Expr::Bool(val) => Ok(Operand::Const(if *val { 1 } else { 0 })),
        Expr::Str(parts) => {
            let mut text = String::new();
            let mut i: usize = 0;
            while i < parts.len()
                decreases parts.len() - i,
            {
                if let StringPart::Literal(l) = &parts[i] {
                    append(&mut text, l.as_str());
                }
                i += 1;
            }
            append(&mut text, "\0");
            let dest = lowerer.alloc_vreg();
            let inst = IrInst::ConstStr { dest, value: text };
            proof {
                lemma_extend_push(o0, inst);
            }
            lowerer.emit(inst);
            Ok(Operand::Reg(dest))
        },
        Expr::Identifier(name) => {
            if lowerer.var_kind(name.as_str()).is_none() {
                return Err(ForgeError::codegen(concat("Undefined variable: ", name.as_str())));
            }
            let dest = lowerer.alloc_vreg();
            let var_name = lowerer.storage_name(name.as_str());
            let inst = IrInst::LoadVar { dest, var_name };
            proof {
                lemma_extend_push(lowerer.current_insts@, inst);
            }
            lowerer.emit(inst);
            Ok(Operand::Reg(dest))
        },
        Expr::BinaryOp { op, lhs, rhs } => {
            let lhs_op = lower_expr(lhs, lowerer)?;
            let ghost o1 = lowerer.current_insts@;
            let rhs_op = lower_expr(rhs, lowerer)?;
            let ghost o2 = lowerer.current_insts@;
            let dest = lowerer.alloc_vreg();
            let inst = IrInst::BinOp { dest, op: ir_bin_op(*op), lhs: lhs_op, rhs: rhs_op };
            proof {
                lemma_extend_push(o2, inst);
                if !old(lowerer).terminated {
                    lemma_extend_trans(o0, o1, o2);
                    lemma_extend_trans(o0, o2, o2.push(inst));
                }
            }
            lowerer.emit(inst);
            Ok(Operand::Reg(dest))
        },
        Expr::UnaryOp { op, operand } => {
            let inner_op = lower_expr(operand, lowerer)?;
            let ghost o1 = lowerer.current_insts@;
            match op {
                UnOp::Plus => Ok(inner_op),
                UnOp::Neg => {
                    let dest = lowerer.alloc_vreg();
                    let inst = IrInst::BinOp { dest, op: IrBinOp::Sub, lhs: Operand::Const(0), rhs: inner_op };
                    proof {
                        lemma_extend_push(o1, inst);
                        if !old(lowerer).terminated {
                            lemma_extend_trans(o0, o1, o1.push(inst));
                        }
                    }
                    lowerer.emit(inst);
                    Ok(Operand::Reg(dest))
                },
            }
        },
        Expr::Call { callee, args } => {
            if args.len() > 6 {
                let mut msg = concat("Function call '", callee.as_str());
                append(&mut msg, "' has ");
                append(&mut msg, decimal_string(args.len() as u64).as_str());
                append(&mut msg, " arguments. Native backend supports at most 6 integer arguments.");
                return Err(ForgeError::codegen(msg));
            }
            if !lowerer.is_known_function(callee) {
                let mut msg = concat("Call to undefined function '", callee.as_str());
                append(&mut msg, "'");
                return Err(ForgeError::codegen(msg));
            }
            proof {
                assert(decreases_to!(*expr => *args));
            }
            let arg_ops = lower_args(args, lowerer)?;
            let ghost o1 = lowerer.current_insts@;
            let dest = lowerer.alloc_vreg();
            let inst = IrInst::Call { dest, func: copy_string(callee), args: arg_ops };
            proof {
                lemma_extend_push(o1, inst);
                if !old(lowerer).terminated {
                    lemma_extend_trans(o0, o1, o1.push(inst));
                }
            }
            lowerer.emit(inst);
            Ok(Operand::Reg(dest))
        },
        _ => {
            let mut msg = concat("Expression ", expr_text_of(expr).as_str());
            append(&mut msg, " is not supported in native backend");
            Err(ForgeError::codegen(msg))
        },
    }
}

/// Whether the native backend stores values of a declared type.
pub open spec fn native_type(t: TypeDecl) -> bool {
    t matches TypeDecl::Number(Subtype::Int) || t is Bool || t is Weld
}

proof fn lemma_first_key<V>(l: Seq<(String, V)>, name: Seq<char>, j: int)
    requires
        0 <= j < l.len(),
        l[j].0@ == name,
    ensures
        exists|k: int| key_at(l, name, k),
    decreases j,
{
    if exists|m: int| 0 <= m < j && l[m].0@ == name {
        let m = choose|m: int| 0 <= m < j && l[m].0@ == name;
        lemma_first_key(l, name, m);
    } else {
        assert(key_at(l, name, j));
    }
}

/// After a kind or slot is set for `name`, looking `name` up finds it.
proof fn lemma_set_found<V>(o: Seq<(String, V)>, n: Seq<(String, V)>, name: String, v: V)
    requires
        forall|i: int| #[trigger] key_at(o, name@, i) ==> n == o.update(i, (name, v)),
        key_absent(o, name@) ==> n == o.push((name, v)),
    ensures
        assoc_value(n, name@) == Some(v),
{
    if exists|i: int| key_at(o, name@, i) {
        let i = choose|i: int| key_at(o, name@, i);
        assert(n == o.update(i, (name, v)));
        assert forall|j: int| 0 <= j < i implies n[j].0@ != name@ by {
            assert(n[j] == o[j]);
        }
        assert(key_at(n, name@, i));
        lemma_assoc_value(n, name@, i);
    } else {
        assert(key_absent(o, name@)) by {
            assert forall|j: int| 0 <= j < o.len() implies o[j].0@ != name@ by {
                if o[j].0@ == name@ {
                    lemma_first_key(o, name@, j);
                }
            }
        }
        let i = o.len() as int;
        assert forall|j: int| 0 <= j < i implies n[j].0@ != name@ by {
            assert(n[j] == o[j]);
        }
        assert(key_at(n, name@, i));
        lemma_assoc_value(n, name@, i);
    }
}

fn lower_var_decl(decl: &VarDecl, lowerer: &mut Lowerer) -> (r: Result<(), ForgeError>)
    requires
        lowerer_ok(*old(lowerer)),
    ensures
        !crate::backend::opt_expr_needs_typed(decl.initializer) && no_input_in(old(lowerer).current_insts@)
            ==> no_input_in(final(lowerer).current_insts@),
        lowering_step(*old(lowerer), *final(lowerer)),
        flow_same(*old(lowerer), *final(lowerer)),
        r is Ok <==> native_type(decl.type_decl) && match decl.initializer {
            Some(init) => expr_lowers(init, old(lowerer).var_types@, names_of(old(lowerer).known_functions@)),
            None => true,
        },
        r is Ok ==> assoc_value(final(lowerer).var_types@, decl.name@) == Some(type_kind(decl.type_decl)),
        r is Ok ==> assoc_value(final(lowerer).var_storage@, decl.name@) is Some,
        r is Ok && !old(lowerer).terminated ==> decl_emitted(*decl, old(lowerer).current_insts@, *final(lowerer)),
        r is Ok ==> covers(old(lowerer).var_types@, final(lowerer).var_types@),
{
    match &decl.type_decl {
        TypeDecl::Number(Subtype::Int) | TypeDecl::Bool | TypeDecl::Weld => {},
        td => {
            let mut msg = concat("Variable '", decl.name.as_str());
            append(&mut msg, "' has unsupported type ");
            append(&mut msg, type_text_of(td).as_str());
            append(&mut msg, ". Native backend supports Int, Bool, Weld.");
            return Err(ForgeError::codegen(msg));
        },
    }
    let src = match &decl.initializer {
        Some(init) => {
            lower_expr(init, lowerer)?
        },
        None => Operand::Const(0),
    };
    let kind = kind_of_type(&decl.type_decl);
    let ghost vt0 = lowerer.var_types@;
    set_kind(&mut lowerer.var_types, &decl.name, kind);
    proof {
        lemma_set_found(vt0, lowerer.var_types@, decl.name, kind);
        lemma_set_covers(vt0, lowerer.var_types@, decl.name, kind);
    }
    let storage_name = if assoc_index(&lowerer.var_storage, decl.name.as_str()).is_some() {
        let mut storage_name = concat(decl.name.as_str(), "#");
        append(&mut storage_name, decimal_string(lowerer.storage_counter as u64).as_str());
        lowerer.storage_counter = lowerer.storage_counter.wrapping_add(1);
        storage_name
    } else {
        copy_string(&decl.name)
    };
    let slot = copy_string(&storage_name);
    let ghost vs0 = lowerer.var_storage@;
    set_storage(&mut lowerer.var_storage, &decl.name, slot);
    proof {
        lemma_set_found(vs0, lowerer.var_storage@, decl.name, slot);
    }
    let ghost mid = lowerer.current_insts@;
    let ghost sn = storage_name@;
    lowerer.emit(IrInst::StoreVar { var_name: storage_name, src });
    proof {
        if !old(lowerer).terminated {
            assert(lowerer.current_insts@.drop_last() =~= mid);
            assert(storage_of(*lowerer, decl.name@) == sn);
        }
    }
    Ok(())
}

/// Whether some entry of `l` has the key `name`.
spec fn has_key<V>(l: Seq<(String, V)>, name: Seq<char>) -> bool {
    exists|j: int| 0 <= j < l.len() && (#[trigger] l[j]).0@ == name
}

/// Every name `vt` gives a kind, `vt2` gives one too.
spec fn covers(vt: Seq<(String, ValueKind)>, vt2: Seq<(String, ValueKind)>) -> bool {
    forall|n: Seq<char>| #[trigger] has_key(vt, n) ==> has_key(vt2, n)
}

proof fn lemma_defined_iff<V>(l: Seq<(String, V)>, n: Seq<char>)
    ensures
        (assoc_value(l, n) is Some) <==> has_key(l, n),
{
    if has_key(l, n) {
        let j = choose|j: int| 0 <= j < l.len() && (#[trigger] l[j]).0@ == n;
        lemma_first_key(l, n, j);
    }
    if assoc_value(l, n) is Some {
        let i = choose|i: int| key_at(l, n, i);
        assert(l[i].0@ == n);
    }
}

proof fn lemma_has_key_push<V>(l: Seq<(String, V)>, x: (String, V), n: Seq<char>)
    ensures
        has_key(l.push(x), n) <==> (has_key(l, n) || x.0@ == n),
{
    if has_key(l, n) {
        let j = choose|j: int| 0 <= j < l.len() && (#[trigger] l[j]).0@ == n;
        assert(l.push(x)[j] == l[j]);
    }
    if x.0@ == n {
        assert(l.push(x)[l.len() as int] == x);
    }
    if has_key(l.push(x), n) {
        let j = choose|j: int| 0 <= j < l.push(x).len() && (#[trigger] l.push(x)[j]).0@ == n;
        if j < l.len() {
            assert(l.push(x)[j] == l[j]);
        }
    }
}

proof fn lemma_set_covers(o: Seq<(String, ValueKind)>, n: Seq<(String, ValueKind)>, name: String, v: ValueKind)
    requires
        forall|i: int| #[trigger] key_at(o, name@, i) ==> n == o.update(i, (name, v)),
        key_absent(o, name@) ==> n == o.push((name, v)),
    ensures
        covers(o, n),
{
    assert forall|m: Seq<char>| #[trigger] has_key(o, m) implies has_key(n, m) by {
        let j = choose|j: int| 0 <= j < o.len() && (#[trigger] o[j]).0@ == m;
        if exists|i: int| key_at(o, name@, i) {
            let i = choose|i: int| key_at(o, name@, i);
            assert(n == o.update(i, (name, v)));
            if j == i {
                assert(n[i].0@ == name@);
            } else {
                assert(n[j] == o[j]);
            }
        } else {
            assert(key_absent(o, name@)) by {
                if !key_absent(o, name@) {
                    let w = choose|w: int| 0 <= w < o.len() && o[w].0@ == name@;
                    lemma_first_key(o, name@, w);
                }
            }
            assert(n == o.push((name, v)));
            assert(n[j] == o[j]);
        }
    }
}

proof fn lemma_expr_lowers_mono(e: Expr, vt: Seq<(String, ValueKind)>, vt2: Seq<(String, ValueKind)>, k: Seq<Seq<char>>)
    requires
        expr_lowers(e, vt, k),
        covers(vt, vt2),
    ensures
        expr_lowers(e, vt2, k),
    decreases e,
{
    match e {
        Expr::Identifier(name) => {
            lemma_defined_iff(vt, name@);
            lemma_defined_iff(vt2, name@);
            assert(has_key(vt, name@));
        },
        Expr::BinaryOp { lhs, rhs, .. } => {
            lemma_expr_lowers_mono(*lhs, vt, vt2, k);
            lemma_expr_lowers_mono(*rhs, vt, vt2, k);
        },
        Expr::UnaryOp { operand, .. } => {
            lemma_expr_lowers_mono(*operand, vt, vt2, k);
        },
        Expr::Call { callee, args } => {
            lemma_args_lower(args@, vt, k);
            lemma_args_lower(args@, vt2, k);
            assert forall|j: int| 0 <= j < args@.len() implies #[trigger] expr_lowers(args@[j], vt2, k) by {
                assert(decreases_to!(e => args));
                assert(decreases_to!(args => args@));
                assert(decreases_to!(args@ => args@[j]));
                lemma_expr_lowers_mono(args@[j], vt, vt2, k);
            }
        },
        _ => {},
    }
}

proof fn lemma_print_lowers_mono(e: Expr, vt: Seq<(String, ValueKind)>, vt2: Seq<(String, ValueKind)>, k: Seq<Seq<char>>)
    requires
        print_lowers(e, vt, k),
        covers(vt, vt2),
    ensures
        print_lowers(e, vt2, k),
{
    match e {
        Expr::Str(parts) => {
            assert forall|i: int| 0 <= i < parts@.len() implies #[trigger] part_prints(parts@[i], vt2) by {
                if let StringPart::Interp(name) = parts@[i] {
                    assert(part_prints(parts@[i], vt));
                    lemma_defined_iff(vt, name@);
                    lemma_defined_iff(vt2, name@);
                    assert(has_key(vt, name@));
                }
            }
        },
        _ => {
            lemma_expr_lowers_mono(e, vt, vt2, k);
        },
    }
}

/// Whether a list of statements stays within straight-line code the native
/// backend lowers: declarations of `Int`, `Bool` or `Weld` variables,
/// assignments to variables, prints, expression statements and a `Return`,
/// each over variables declared before it.
pub open spec fn straight_line(stmts: Seq<Statement>, vt: Seq<(String, ValueKind)>, known: Seq<Seq<char>>) -> bool
    decreases stmts.len(),
{
    if stmts.len() == 0 {
        true
    } else {
        match stmts[0] {
            Statement::VarDecl(d) => native_type(d.type_decl) && match d.initializer {
                Some(init) => expr_lowers(init, vt, known),
                None => true,
            } && straight_line(stmts.drop_first(), vt.push((d.name, ValueKind::Other)), known),
            Statement::Assignment(a) => a.target is Var && expr_lowers(a.value, vt, known) && straight_line(
                stmts.drop_first(),
                vt,
                known,
            ),
            Statement::Print(p) => print_lowers(p.expr, vt, known) && straight_line(stmts.drop_first(), vt, known),
            Statement::ExprStmt(e) => (program_stop(e) || expr_lowers(e, vt, known)) && straight_line(
                stmts.drop_first(),
                vt,
                known,
            ),
            Statement::Return(e) => match e {
                Some(x) => expr_lowers(x, vt, known),
                None => true,
            },
            _ => false,
        }
    }
}

proof fn lemma_straight_line_mono(
    stmts: Seq<Statement>,
    vt: Seq<(String, ValueKind)>,
    vt2: Seq<(String, ValueKind)>,
    k: Seq<Seq<char>>,
)
    requires
        straight_line(stmts, vt, k),
        covers(vt, vt2),
    ensures
        straight_line(stmts, vt2, k),
    decreases stmts.len(),
{
    if stmts.len() > 0 {
        match stmts[0] {
            Statement::VarDecl(d) => {
                if let Some(init) = d.initializer {
                    lemma_expr_lowers_mono(init, vt, vt2, k);
                }
                let x = (d.name, ValueKind::Other);
                assert forall|n: Seq<char>| #[trigger] has_key(vt.push(x), n) implies has_key(vt2.push(x), n) by {
                    lemma_has_key_push(vt, x, n);
                    lemma_has_key_push(vt2, x, n);
                }
                lemma_straight_line_mono(stmts.drop_first(), vt.push(x), vt2.push(x), k);
            },
            Statement::Assignment(a) => {
                lemma_expr_lowers_mono(a.value, vt, vt2, k);
                lemma_straight_line_mono(stmts.drop_first(), vt, vt2, k);
            },
            Statement::Print(p) => {
                lemma_print_lowers_mono(p.expr, vt, vt2, k);
                lemma_straight_line_mono(stmts.drop_first(), vt, vt2, k);
            },
            Statement::ExprStmt(e) => {
                if !program_stop(e) {
                    lemma_expr_lowers_mono(e, vt, vt2, k);
                }
                lemma_straight_line_mono(stmts.drop_first(), vt, vt2, k);
            },
            Statement::Return(e) => {
                if let Some(x) = e {
                    lemma_expr_lowers_mono(x, vt, vt2, k);
                }
            },
            _ => {},
        }
    }
}

/// Lowers statements in order until one ends the current block.
fn lower_statements(stmts: &Vec<Statement>, lowerer: &mut Lowerer) -> (r: Result<(), ForgeError>)
    requires
        lowerer_ok(*old(lowerer)),
    ensures
        lowering_step(*old(lowerer), *final(lowerer)),
        r is Ok && stmts_shaped(stmts@) ==> flow_closes(*old(lowerer), *final(lowerer)),
        old(lowerer).terminated || stmts@.len() == 0 ==> r is Ok && final(lowerer).blocks@ == old(
            lowerer,
        ).blocks@,
        r is Ok && !old(lowerer).terminated && stmts@.len() > 0 ==> stmt_native(stmts@[0], *old(lowerer)),
        !old(lowerer).terminated && straight_line(stmts@, old(lowerer).var_types@, names_of(old(lowerer).known_functions@))
            ==> r is Ok,
        (forall|i: int| 0 <= i < stmts@.len() ==> !crate::backend::stmt_needs_typed(#[trigger] stmts@[i]))
            && !old(lowerer).terminated && straight_line(
            stmts@,
            old(lowerer).var_types@,
            names_of(old(lowerer).known_functions@),
        ) && lowerer_no_input(*old(lowerer)) ==> lowerer_no_input(*final(lowerer)),
    decreases stmts@,
{
    proof {
        lemma_stmts_shaped(stmts@);
        lemma_same_closes(*lowerer, *lowerer);
    }
    proof {
        assert(stmts@.skip(0) =~= stmts@);
    }
    let mut i: usize = 0;
    while i < stmts.len() && !lowerer.terminated
        invariant
            i <= stmts@.len(),
            lowering_step(*old(lowerer), *lowerer),
            stmts_shaped(stmts@) ==> flow_closes(*old(lowerer), *lowerer),
            stmts_shaped(stmts@) ==> forall|j: int| 0 <= j < stmts@.len() ==> #[trigger] stmt_shaped(stmts@[j]),
            i == 0 ==> *lowerer == *old(lowerer),
            i > 0 ==> !old(lowerer).terminated && stmt_native(stmts@[0], *old(lowerer)),
            !old(lowerer).terminated && straight_line(stmts@, old(lowerer).var_types@, names_of(old(lowerer).known_functions@))
                ==> lowerer.terminated || straight_line(
                stmts@.skip(i as int),
                lowerer.var_types@,
                names_of(lowerer.known_functions@),
            ),
            (forall|j: int| 0 <= j < stmts@.len() ==> !crate::backend::stmt_needs_typed(#[trigger] stmts@[j]))
                && !old(lowerer).terminated && straight_line(
                stmts@,
                old(lowerer).var_types@,
                names_of(old(lowerer).known_functions@),
            ) && lowerer_no_input(*old(lowerer)) ==> lowerer_no_input(*lowerer),
        decreases stmts.len() - i,
    {
        proof {
            assert(decreases_to!(stmts@ => stmts@[i as int]));
            assert(stmts@.skip(i as int)[0] == stmts@[i as int]);
            assert(stmts@.skip(i as int).drop_first() =~= stmts@.skip(i + 1));
        }
        let ghost before = *lowerer;
        lower_statement(&stmts[i], lowerer)?;
        proof {
            let k = names_of(before.known_functions@);
            if !old(lowerer).terminated && straight_line(stmts@, old(lowerer).var_types@, names_of(old(lowerer).known_functions@))
                && !lowerer.terminated {
                let rest = stmts@.skip(i as int).drop_first();
                match stmts@[i as int] {
                    Statement::VarDecl(d) => {
                        let x = (d.name, ValueKind::Other);
                        assert forall|n: Seq<char>| #[trigger] has_key(before.var_types@.push(x), n) implies has_key(
                            lowerer.var_types@,
                            n,
                        ) by {
                            lemma_has_key_push(before.var_types@, x, n);
                        }
                        lemma_straight_line_mono(rest, before.var_types@.push(x), lowerer.var_types@, k);
                    },
                    _ => {
                        lemma_straight_line_mono(rest, before.var_types@, lowerer.var_types@, k);
                    },
                }
            }
        }
        i += 1;
    }
    Ok(())
}

/// The two halves of an interpolated `object.member` name.
fn split_member(name: &str) -> (r: (String, String))
    ensures
        r.0@ == name@.take(dot_index(name@, 0)),
        r.1@ == if dot_index(name@, 0) < name@.len() {
            name@.skip(dot_index(name@, 0) + 1)
        } else {
            seq![]
        },
{
    let cs = crate::text::chars_of(name);
    let mut k: usize = 0;
    while k < cs.len() && cs[k] != '.'
        invariant
            cs@ == name@,
            k <= cs@.len(),
            dot_index(cs@, 0) == dot_index(cs@, k as int),
        decreases cs.len() - k,
    {
        k += 1;
    }
    proof {
        lemma_dot_index(cs@, 0);
    }
    let mut object: Vec<char> = Vec::new();
    let mut member: Vec<char> = Vec::new();
    let mut i: usize = 0;
    while i < cs.len()
        invariant
            cs@ == name@,
            k == dot_index(cs@, 0),
            k <= cs@.len(),
            i <= cs@.len(),
            object@ == cs@.take(if i < k { i as int } else { k as int }),
            member@ == if i > k + 1 { cs@.subrange(k + 1, i as int) } else { seq![] },
        decreases cs.len() - i,
    {
        proof {
            if i < k {
                assert(cs@.take(i + 1) =~= cs@.take(i as int).push(cs@[i as int]));
            }
            if i > k {
                assert(cs@.subrange(k + 1, i + 1) =~= (if i > k + 1 { cs@.subrange(k + 1, i as int) } else { seq![] }).push(cs@[i as int]));
            }
        }
        if i < k {
            object.push(cs[i]);
        } else if i > k {
            member.push(cs[i]);
        }
        i += 1;
    }
    proof {
        if k < cs@.len() {
            if cs@.len() > k + 1 {
                assert(cs@.subrange(k + 1, cs@.len() as int) =~= cs@.skip(k + 1));
            } else {
                assert(cs@.skip(k + 1) =~= seq![]);
            }
        }
    }
    (
        crate::text::string_from_chars(object.as_slice()),
        crate::text::string_from_chars(member.as_slice()),
    )
}

/// Where the first `.` from `k` on is, or the length of the text.
spec fn dot_index(s: Seq<char>, k: int) -> int
    decreases s.len() - k,
{
    if 0 <= k < s.len() && s[k] != '.' {
        dot_index(s, k + 1)
    } else {
        k
    }
}

proof fn lemma_dot_index(s: Seq<char>, k: int)
    requires
        0 <= k <= s.len(),
    ensures
        k <= dot_index(s, k) <= s.len(),
        dot_index(s, k) < s.len() ==> s[dot_index(s, k)] == '.',
    decreases s.len() - k,
{
    if k < s.len() && s[k] != '.' {
        lemma_dot_index(s, k + 1);
    }
}

fn print_kind_of(expr: &Expr, lowerer: &Lowerer) -> (k: PrintKind)
    ensures
        k == print_kind(*expr, *lowerer),
{
    if is_string_expr(expr, lowerer) {
        PrintKind::Str
    } else if is_bool_expr(expr, lowerer) {
        PrintKind::Bool
    } else {
        PrintKind::Int
    }
}

/// Whether the native backend prints a part of a string: a literal, or an
/// interpolated plain name of a declared variable.
pub open spec fn part_prints(p: StringPart, vt: Seq<(String, ValueKind)>) -> bool {
    match p {
        StringPart::Literal(_) => true,
        StringPart::Interp(name) => !name@.contains('.') && assoc_value(vt, name@) is Some,
    }
}

/// Whether the native backend prints an expression: a string whose parts it
/// prints, or an expression it lowers.
pub open spec fn print_lowers(e: Expr, vt: Seq<(String, ValueKind)>, known: Seq<Seq<char>>) -> bool {
    match e {
        Expr::Str(parts) => forall|i: int| 0 <= i < parts@.len() ==> #[trigger] part_prints(parts@[i], vt),
        _ => expr_lowers(e, vt, known),
    }
}

fn lower_print(expr: &Expr, lowerer: &mut Lowerer) -> (r: Result<(), ForgeError>)
    requires
        lowerer_ok(*old(lowerer)),
    ensures
        !crate::backend::expr_needs_typed(*expr) && no_input_in(old(lowerer).current_insts@) ==> no_input_in(
            final(lowerer).current_insts@,
        ),
        lowering_step(*old(lowerer), *final(lowerer)),
        flow_same(*old(lowerer), *final(lowerer)),
        names_same(*old(lowerer), *final(lowerer)),
        r is Ok <==> print_lowers(*expr, old(lowerer).var_types@, names_of(old(lowerer).known_functions@)),
        r is Ok && !old(lowerer).terminated ==> print_emitted(
            *expr,
            old(lowerer).current_insts@,
            final(lowerer).current_insts@,
        ),
{
    if let Expr::Str(parts) = expr {
        let mut interpolated = false;
        let mut i: usize = 0;
        while i < parts.len()
            invariant
                i <= parts@.len(),
                !interpolated ==> forall|j: int| 0 <= j < i ==> #[trigger] parts@[j] is Literal,
                interpolated ==> exists|j: int| 0 <= j < i && #[trigger] parts@[j] is Interp,
            decreases parts.len() - i,
        {
            if let StringPart::Interp(_) = &parts[i] {
                interpolated = true;
            }
            i += 1;
        }
        if interpolated {
            proof {
                assert(print_lowers(*expr, old(lowerer).var_types@, names_of(old(lowerer).known_functions@)) == (
                forall|j: int|
                    0 <= j < parts@.len() ==> #[trigger] part_prints(parts@[j], old(lowerer).var_types@)));
            }
            let mut i: usize = 0;
            while i < parts.len()
                invariant
                    i <= parts@.len(),
                    lowering_step(*old(lowerer), *lowerer),
                    flow_same(*old(lowerer), *lowerer),
                    names_same(*old(lowerer), *lowerer),
                    forall|j: int| 0 <= j < i ==> #[trigger] part_prints(parts@[j], old(lowerer).var_types@),
                    !crate::backend::expr_needs_typed(*expr) && no_input_in(old(lowerer).current_insts@)
                        ==> no_input_in(lowerer.current_insts@),
                    print_lowers(*expr, old(lowerer).var_types@, names_of(old(lowerer).known_functions@)) == (
                    forall|j: int|
                        0 <= j < parts@.len() ==> #[trigger] part_prints(parts@[j], old(lowerer).var_types@)),
                decreases parts.len() - i,
            {
                match &parts[i] {
                    StringPart::Literal(text) => {
                        if text.as_str().len() > 0 {
                            lowerer.emit(IrInst::PrintConstStr { str_val: copy_string(text) });
                        }
                    },
                    StringPart::Interp(name) => {
                        let part_expr = if crate::text::contains_char(name.as_str(), '.') {
                            let (object, member) = split_member(name.as_str());
                            Expr::MemberAccess {
                                object: Box::new(Expr::Identifier(object)),
                                member,
                            }
                        } else {
                            Expr::Identifier(copy_string(name))
                        };
                        assert(!crate::backend::expr_needs_typed(part_expr)) by {
                            reveal_with_fuel(crate::backend::expr_needs_typed, 2);
                        }
                        let kind = print_kind_of(&part_expr, lowerer);
                        let ghost vt = lowerer.var_types@;
                        let src = match lower_expr(&part_expr, lowerer) {
                            Ok(src) => src,
                            Err(e) => {
                                proof {
                                    assert(!part_prints(parts@[i as int], vt));
                                    assert(vt == old(lowerer).var_types@);

                                }
                                return Err(e);
                            },
                        };
                        proof {
                            assert(part_prints(parts@[i as int], vt));
                        }
                        lowerer.emit(IrInst::PrintInline { src, kind });
                    },
                }
                i += 1;
            }
            lowerer.emit(IrInst::PrintConstStr { str_val: owned("\n") });
        } else {
            let mut text = String::new();
            let mut i: usize = 0;
            while i < parts.len()
                invariant
                    i <= parts@.len(),
                    text@ == literal_join(parts@.take(i as int)),
                decreases parts.len() - i,
            {
                proof {
                    assert(parts@.take(i + 1).drop_last() =~= parts@.take(i as int));
                }
                if let StringPart::Literal(l) = &parts[i] {
                    append(&mut text, l.as_str());
                }
                i += 1;
            }
            proof {
                assert(parts@.take(i as int) =~= parts@);
            }
            append(&mut text, "\n");
            let ghost before = lowerer.current_insts@;
            lowerer.emit(IrInst::PrintConstStr { str_val: text });
            proof {
                if !old(lowerer).terminated {
                    assert(lowerer.current_insts@.drop_last() =~= before);
                }
            }
        }
    } else {
        let kind = print_kind_of(expr, lowerer);
        let src = lower_expr(expr, lowerer)?;
        let ghost mid = lowerer.current_insts@;
        lowerer.emit(IrInst::Print { src, kind });
        proof {
            if !old(lowerer).terminated {
                assert(lowerer.current_insts@.drop_last() =~= mid);
            }
        }
    }
    Ok(())
}

fn lower_if(node: &crate::ast::IfNode, lowerer: &mut Lowerer) -> (r: Result<(), ForgeError>)
    requires
        lowerer_ok(*old(lowerer)),
    ensures
        lowering_step(*old(lowerer), *final(lowerer)),
        r is Ok && node.branches@.len() > 0 && branches_shaped(node.branches@) && else_shaped(
            node.else_body,
        ) ==> flow_closes(
            *old(lowerer),
            *final(lowerer),
        ),
        node.branches@.len() > 0 && !expr_lowers(
            node.branches@[0].0,
            old(lowerer).var_types@,
            names_of(old(lowerer).known_functions@),
        ) ==> r is Err,
        r is Ok ==> !final(lowerer).terminated,
    decreases node,
{
    let ghost o = *lowerer;
    let join_label = lowerer.alloc_label("if_join");
    let ghost jl = join_label@;
    let is_top_level_if = lowerer.break_stack.len() == 0;
    if is_top_level_if {
        let ctx = LoopCtx { continue_label: String::new(), exit_label: copy_string(&join_label) };
        let ghost cx = ctx;
        lowerer.break_stack.push(ctx);
        proof {
            lemma_push_ctx(o.break_stack@, cx);
            assert(cx.continue_label@.len() == 0);
        }
    }
    let ghost a0 = *lowerer;
    let n = node.branches.len();
    let mut cond_labels: Vec<String> = Vec::new();
    let mut branch_labels: Vec<String> = Vec::new();
    let mut i: usize = 0;
    while i < n
        invariant
            n == node.branches@.len(),
            i <= n,
            cond_labels@.len() == i,
            branch_labels@.len() == i,
            lowering_step(*old(lowerer), *lowerer),
            flow_same(a0, *lowerer),
            names_same(o, *lowerer),
        decreases n - i,
    {
        if i == 0 {
            cond_labels.push(copy_string(&lowerer.current_label));
        } else {
            let prefix = concat("if_cond_", decimal_string(i as u64).as_str());
            let label = lowerer.alloc_label(prefix.as_str());
            cond_labels.push(label);
        }
        let prefix = concat("if_branch_", decimal_string(i as u64).as_str());
        let label = lowerer.alloc_label(prefix.as_str());
        branch_labels.push(label);
        i += 1;
    }
    let else_label = if node.else_body.is_some() {
        lowerer.alloc_label("if_else")
    } else {
        copy_string(&join_label)
    };
    let ghost el = else_label@;
    let ghost a = *lowerer;
    let ghost shaped = node.branches@.len() > 0 && branches_shaped(node.branches@) && else_shaped(
        node.else_body,
    );
    proof {
        lemma_branches_shaped(node.branches@);
        assert forall|x: Seq<char>| #[trigger] dangling(a, x) implies dangling(o, x) || if_pending(
            branch_labels@,
            cond_labels@,
            0,
            jl,
            el,
            x,
        ) by {
            assert(!defines(o, x));
        }
    }
    let mut i: usize = 0;
    while i < n
        invariant
            n == node.branches@.len(),
            i <= n,
            cond_labels@.len() == n,
            branch_labels@.len() == n,
            lowering_step(*old(lowerer), *lowerer),
            shaped ==> a.break_stack@ == lowerer.break_stack@,
            i == 0 ==> names_same(o, *lowerer),
            i > 0 ==> expr_lowers(node.branches@[0].0, o.var_types@, names_of(o.known_functions@)),
            o == *old(lowerer),
            join_label@ == jl,
            else_label@ == el,
            i > 0 ==> lowerer.terminated,
            shaped ==> forall|x: Seq<char>| #[trigger] defines(o, x) ==> defines(*lowerer, x),
            shaped ==> forall|j: int| 0 <= j < n ==> #[trigger] stmts_shaped(node.branches@[j].1@),
            shaped ==> forall|x: Seq<char>|
                #[trigger] dangling(*lowerer, x) ==> dangling(o, x) || if_pending(
                    branch_labels@,
                    cond_labels@,
                    i as int,
                    jl,
                    el,
                    x,
                ),
        decreases n - i,
    {
        let ghost c0 = *lowerer;
        if i > 0 {
            lowerer.start_block(copy_string(&cond_labels[i]));
        }
        let ghost c1 = *lowerer;
        proof {
            assert(decreases_to!(*node => node.branches));
            assert(decreases_to!(node.branches => node.branches@));
            assert(decreases_to!(node.branches@ => node.branches@[i as int]));
            assert(decreases_to!(node.branches@[i as int] => node.branches@[i as int].0));
            assert(decreases_to!(node.branches@[i as int] => node.branches@[i as int].1));
        }
        let cond_op = lower_expr(&node.branches[i].0, lowerer)?;
        let ghost c2 = *lowerer;
        let false_target = if i + 1 < n {
            copy_string(&cond_labels[i + 1])
        } else {
            copy_string(&else_label)
        };
        let ghost ft = false_target@;
        let ghost bi = branch_labels@[i as int]@;
        let branch = IrTerminator::Branch {
            cond: cond_op,
            true_label: copy_string(&branch_labels[i]),
            false_label: false_target,
        };
        proof {
            assert(term_targets(branch) =~= seq![bi, ft]);
        }
        lowerer.finish_block(branch);
        let ghost c3 = *lowerer;
        lowerer.start_block(copy_string(&branch_labels[i]));
        let ghost c4 = *lowerer;
        lower_statements(&node.branches[i].1, lowerer)?;
        let ghost c5 = *lowerer;
        if !lowerer.terminated {
            let to_join = IrTerminator::Jump(copy_string(&join_label));
            proof {
                assert(term_targets(to_join) =~= seq![jl]);
            }
            lowerer.finish_block(to_join);
        }
        proof {
            if shaped {
                assert forall|x: Seq<char>| #[trigger] defines(o, x) implies defines(*lowerer, x) by {
                    assert(defines(c0, x));
                    assert(defines(c1, x));
                    assert(defines(c2, x));
                    assert(defines(c3, x));
                    assert(defines(c4, x));
                    assert(defines(c5, x));
                }
                assert(stmts_shaped(node.branches@[i as int].1@));
                assert(defines(c4, bi));
                assert(defines(c5, bi));
                assert(defines(*lowerer, bi));
                if i > 0 {
                    let ci = cond_labels@[i as int]@;
                    assert(defines(c1, ci));
                    assert(defines(c2, ci));
                    assert(defines(c3, ci));
                    assert(defines(c4, ci));
                    assert(defines(c5, ci));
                }
                assert(if_pending(branch_labels@, cond_labels@, i + 1, jl, el, ft)) by {
                    if i + 1 < n {
                        let k = i + 1;
                        assert(branch_labels@[k] == branch_labels@[k]);
                        assert(cond_labels@[k]@ == ft);
                    }
                }
                assert forall|x: Seq<char>| #[trigger] dangling(*lowerer, x) implies dangling(o, x)
                    || if_pending(branch_labels@, cond_labels@, i + 1, jl, el, x) by {
                    if x != jl && x != ft && x != el {
                        assert(!defines(c5, x));
                        assert(!defines(c4, x));
                        assert(defines(c3, x) ==> defines(c4, x));
                        assert(defines(c2, x) ==> defines(c3, x));
                        assert(defines(c1, x) ==> defines(c2, x));
                        assert(defines(c0, x) ==> defines(c1, x));
                        assert(!defines(c0, x));
                        assert(x != bi);
                        assert(jumps_to(c5.blocks@, x) || stacked(c5.break_stack@, x));
                        assert(dangling(c5, x));
                        assert(dangling(c4, x));
                        if jumps_to(c4.blocks@, x) {
                            assert(jumps_to(c2.blocks@, x));
                        }
                        assert(dangling(c0, x));
                        if if_pending(branch_labels@, cond_labels@, i as int, jl, el, x) {
                            let k = choose|k: int|
                                #![trigger branch_labels@[k]]
                                #![trigger cond_labels@[k]]
                                i <= k < n && (branch_labels@[k]@ == x || (k >= 1
                                    && cond_labels@[k]@ == x));
                            if k == i {
                                if i > 0 && cond_labels@[k]@ == x {
                                    assert(defines(c1, x));
                                }
                            }
                            assert(k != i);
                            assert(if_pending(branch_labels@, cond_labels@, i + 1, jl, el, x));
                        }
                    }
                }
            }
        }
        i += 1;
    }
    let ghost l0 = *lowerer;
    if let Some(else_body) = &node.else_body {
        lowerer.start_block(else_label);
        let ghost l1 = *lowerer;
        proof {
            assert(decreases_to!(*node => node.else_body));
        }
        lower_statements(else_body, lowerer)?;
        let ghost l2 = *lowerer;
        if !lowerer.terminated {
            let to_join = IrTerminator::Jump(copy_string(&join_label));
            proof {
                assert(term_targets(to_join) =~= seq![jl]);
            }
            lowerer.finish_block(to_join);
        }
        proof {
            if shaped {
                assert(defines(l1, el));
                assert(defines(l2, el));
                assert(defines(*lowerer, el));
                assert forall|x: Seq<char>| #[trigger] defines(o, x) implies defines(*lowerer, x) by {
                    assert(defines(l0, x));
                    assert(defines(l1, x));
                    assert(defines(l2, x));
                }
                assert forall|x: Seq<char>| #[trigger] dangling(*lowerer, x) implies dangling(o, x)
                    || if_pending(branch_labels@, cond_labels@, n as int, jl, el, x) by {
                    if x != jl {
                        assert(!defines(l2, x));
                        assert(dangling(l2, x));
                        assert(dangling(l1, x));
                        assert(dangling(l0, x));
                    }
                }
            }
        }
    } else {
        proof {
            assert(el == jl);
        }
    }
    let ghost l3 = *lowerer;
    if is_top_level_if {
        lowerer.break_stack.pop();
    }
    let ghost l4 = *lowerer;
    lowerer.start_block(join_label);
    proof {
        if shaped {
            assert(l4.break_stack@ =~= o.break_stack@);
            assert(l3.terminated);
            assert(defines(*lowerer, jl));
            assert forall|x: Seq<char>| #[trigger] defines(o, x) implies defines(*lowerer, x) by {
                assert(defines(l3, x));
                assert(defines(l4, x));
            }
            assert(defines(*lowerer, el)) by {
                if el != jl {
                    assert(defines(l3, el));
                    assert(defines(l4, el));
                }
            }
            assert forall|x: Seq<char>| #[trigger] dangling(*lowerer, x) implies dangling(o, x) by {
                assert(x != jl && x != el);
                assert(!defines(l4, x));
                assert(!defines(l3, x));
                if stacked(l4.break_stack@, x) {
                    assert(stacked(a.break_stack@, x));
                }
                assert(dangling(l3, x));
                if if_pending(branch_labels@, cond_labels@, n as int, jl, el, x) {
                    let k = choose|k: int|
                        #![trigger branch_labels@[k]]
                        #![trigger cond_labels@[k]]
                        n <= k < n && (branch_labels@[k]@ == x || (k >= 1 && cond_labels@[k]@ == x));
                }
            }
        }
    }
    Ok(())
}

fn lower_while_stmt(node: &WhileNode, lowerer: &mut Lowerer) -> (r: Result<(), ForgeError>)
    requires
        lowerer_ok(*old(lowerer)),
    ensures
        lowering_step(*old(lowerer), *final(lowerer)),
        r is Ok && stmts_shaped(node.body@) ==> flow_closes(*old(lowerer), *final(lowerer)),
        !expr_lowers(node.condition, old(lowerer).var_types@, names_of(old(lowerer).known_functions@)) ==> r is Err,
        r is Ok ==> !final(lowerer).terminated && final(lowerer).blocks@.len() > old(lowerer).blocks@.len(),
    decreases node,
{
    let ghost o = *lowerer;
    let cond_label = lowerer.alloc_label("while_cond");
    let body_label = lowerer.alloc_label("while_body");
    let exit_label = lowerer.alloc_label("while_exit");
    let ghost c = cond_label@;
    let ghost b = body_label@;
    let ghost e = exit_label@;
    let ctx = LoopCtx { continue_label: copy_string(&cond_label), exit_label: copy_string(&exit_label) };
    let ghost cx = ctx;
    lowerer.break_stack.push(ctx);
    proof {
        lemma_push_ctx(o.break_stack@, cx);
    }
    let ghost s1 = *lowerer;
    let to_cond = IrTerminator::Jump(copy_string(&cond_label));
    let ghost t1 = to_cond;
    lowerer.finish_block(to_cond);
    let ghost s2 = *lowerer;
    lowerer.start_block(copy_string(&cond_label));
    let ghost s3 = *lowerer;
    let cond_op = lower_expr(&node.condition, lowerer)?;
    let ghost s3b = *lowerer;
    let branch = IrTerminator::Branch {
        cond: cond_op,
        true_label: copy_string(&body_label),
        false_label: copy_string(&exit_label),
    };
    let ghost t2 = branch;
    lowerer.finish_block(branch);
    let ghost s4 = *lowerer;
    lowerer.start_block(body_label);
    let ghost s5 = *lowerer;
    lower_statements(&node.body, lowerer)?;
    let ghost s6 = *lowerer;
    if !lowerer.terminated {
        let back = IrTerminator::Jump(cond_label);
        proof {
            assert(term_targets(back) =~= seq![c]);
        }
        lowerer.finish_block(back);
    }
    let ghost s7 = *lowerer;
    lowerer.break_stack.pop();
    let ghost s8 = *lowerer;
    lowerer.start_block(exit_label);
    proof {
        if stmts_shaped(node.body@) {
            assert(term_targets(t1) =~= seq![c]);
            assert(term_targets(t2) =~= seq![b, e]);
            assert(s8.break_stack@ =~= o.break_stack@);
            assert(s7.terminated);
            assert forall|x: Seq<char>| #[trigger] defines(o, x) implies defines(*lowerer, x) by {
                assert(defines(s1, x));
                assert(defines(s2, x));
                assert(defines(s3, x));
                assert(defines(s4, x));
                assert(defines(s5, x));
                assert(defines(s6, x));
                assert(defines(s7, x));
            }
            assert(defines(s3, c));
            assert(defines(s3b, c));
            assert(defines(s4, c));
            assert(defines(s5, c));
            assert(defines(s5, b));
            assert(defines(s6, c) && defines(s6, b));
            assert(defines(s7, c) && defines(s7, b));
            assert(defines(*lowerer, c) && defines(*lowerer, b) && defines(*lowerer, e));
            assert forall|x: Seq<char>| #[trigger] dangling(*lowerer, x) implies dangling(o, x) by {
                assert(x != c && x != b && x != e);
                assert(!defines(s7, x));
                assert(!defines(s6, x));
                assert(!defines(s5, x));
                assert(!defines(o, x));
                if jumps_to(s7.blocks@, x) {
                    assert(jumps_to(s6.blocks@, x));
                    assert(dangling(s6, x));
                    assert(dangling(s5, x));
                    if stacked(s5.break_stack@, x) {
                        assert(stacked(o.break_stack@, x));
                    } else {
                        assert(jumps_to(s4.blocks@, x));
                        assert(jumps_to(s3b.blocks@, x));
                        assert(jumps_to(s2.blocks@, x));
                        assert(jumps_to(s1.blocks@, x));
                    }
                }
            }
        }
    }
    Ok(())
}

fn lower_for_stmt(node: &ForNode, lowerer: &mut Lowerer) -> (r: Result<(), ForgeError>)
    requires
        lowerer_ok(*old(lowerer)),
    ensures
        lowering_step(*old(lowerer), *final(lowerer)),
        r is Ok && stmts_shaped(node.body@) ==> flow_closes(*old(lowerer), *final(lowerer)),
        r is Ok ==> !final(lowerer).terminated && final(lowerer).blocks@.len() >= old(lowerer).blocks@.len() + 2,
    decreases node,
{
    let ghost o = *lowerer;
    let old_type = lowerer.var_kind(node.init.name.as_str());
    let old_storage = match assoc_index(&lowerer.var_storage, node.init.name.as_str()) {
        Some(i) => Some(copy_string(&lowerer.var_storage[i].1)),
        None => None,
    };
    if old_storage.is_some() {
        let mut storage_name = concat(node.init.name.as_str(), "#");
        append(&mut storage_name, decimal_string(lowerer.storage_counter as u64).as_str());
        lowerer.storage_counter = lowerer.storage_counter.wrapping_add(1);
        set_kind(&mut lowerer.var_types, &node.init.name, kind_of_type(&node.init.type_decl));
        set_storage(&mut lowerer.var_storage, &node.init.name, copy_string(&storage_name));
        lowerer.emit(
            IrInst::StoreVar { var_name: copy_string(&storage_name), src: Operand::Const(0) },
        );
        let src = match &node.init.initializer {
            Some(init) => {
                lower_expr(init, lowerer)?
            },
            None => Operand::Const(0),
        };
        lowerer.emit(IrInst::StoreVar { var_name: storage_name, src });
    } else {
        lower_var_decl(&node.init, lowerer)?;
    }
    let cond_label = lowerer.alloc_label("for_cond");
    let body_label = lowerer.alloc_label("for_body");
    let incr_label = lowerer.alloc_label("for_incr");
    let exit_label = lowerer.alloc_label("for_exit");
    let ghost c = cond_label@;
    let ghost b = body_label@;
    let ghost inc = incr_label@;
    let ghost e = exit_label@;
    let ctx = LoopCtx { continue_label: copy_string(&incr_label), exit_label: copy_string(&exit_label) };
    let ghost cx = ctx;
    let ghost s0 = *lowerer;
    lowerer.break_stack.push(ctx);
    proof {
        lemma_push_ctx(o.break_stack@, cx);
    }
    let ghost s1 = *lowerer;
    let to_cond = IrTerminator::Jump(copy_string(&cond_label));
    let ghost t1 = to_cond;
    lowerer.finish_block(to_cond);
    let ghost s2 = *lowerer;
    lowerer.start_block(copy_string(&cond_label));
    let ghost s3 = *lowerer;
    let cond_op = lower_expr(&node.condition, lowerer)?;
    let ghost s3b = *lowerer;
    let branch = IrTerminator::Branch {
        cond: cond_op,
        true_label: copy_string(&body_label),
        false_label: copy_string(&exit_label),
    };
    let ghost t2 = branch;
    lowerer.finish_block(branch);
    let ghost s4 = *lowerer;
    lowerer.start_block(body_label);
    let ghost s5 = *lowerer;
    lower_statements(&node.body, lowerer)?;
    let ghost s6 = *lowerer;
    if !lowerer.terminated {
        let to_incr = IrTerminator::Jump(copy_string(&incr_label));
        proof {
            assert(term_targets(to_incr) =~= seq![inc]);
        }
        lowerer.finish_block(to_incr);
    }
    let ghost s7 = *lowerer;
    lowerer.start_block(incr_label);
    let ghost s8 = *lowerer;
    let increment_storage = lowerer.storage_name(node.increment_var.as_str());
    let var_vreg = lowerer.alloc_vreg();
    lowerer.emit(IrInst::LoadVar { dest: var_vreg, var_name: copy_string(&increment_storage) });
    let new_var_vreg = lowerer.alloc_vreg();
    let op = match node.increment_op {
        IncrOp::Inc => IrBinOp::Add,
        IncrOp::Dec => IrBinOp::Sub,
    };
    lowerer.emit(
        IrInst::BinOp {
            dest: new_var_vreg,
            op,
            lhs: Operand::Reg(var_vreg),
            rhs: Operand::Const(1),
        },
    );
    lowerer.emit(IrInst::StoreVar { var_name: increment_storage, src: Operand::Reg(new_var_vreg) });
    let ghost s9 = *lowerer;
    let back = IrTerminator::Jump(cond_label);
    let ghost t3 = back;
    lowerer.finish_block(back);
    let ghost s10 = *lowerer;
    lowerer.break_stack.pop();
    match old_type {
        Some(kind) => set_kind(&mut lowerer.var_types, &node.init.name, kind),
        None => remove_entry(&mut lowerer.var_types, &node.init.name),
    }
    match old_storage {
        Some(storage_name) => set_storage(&mut lowerer.var_storage, &node.init.name, storage_name),
        None => remove_entry(&mut lowerer.var_storage, &node.init.name),
    }
    let ghost s11 = *lowerer;
    lowerer.start_block(exit_label);
    proof {
        if stmts_shaped(node.body@) {
            assert(term_targets(t1) =~= seq![c]);
            assert(term_targets(t2) =~= seq![b, e]);
            assert(term_targets(t3) =~= seq![c]);
            assert(s11.break_stack@ =~= o.break_stack@);
            assert(s7.terminated);
            assert forall|x: Seq<char>| #[trigger] defines(o, x) implies defines(*lowerer, x) by {
                assert(defines(s0, x));
                assert(defines(s1, x));
                assert(defines(s2, x));
                assert(defines(s3, x));
                assert(defines(s4, x));
                assert(defines(s5, x));
                assert(defines(s6, x));
                assert(defines(s7, x));
                assert(defines(s8, x));
                assert(defines(s10, x));
            }
            assert(defines(s3, c));
            assert(defines(s3b, c));
            assert(defines(s4, c));
            assert(defines(s5, c));
            assert(defines(s5, b));
            assert(defines(s6, c) && defines(s6, b));
            assert(defines(s7, c) && defines(s7, b));
            assert(defines(s8, c) && defines(s8, b) && defines(s8, inc));
            assert(defines(s10, c) && defines(s10, b) && defines(s10, inc));
            assert(defines(*lowerer, c) && defines(*lowerer, b) && defines(*lowerer, inc) && defines(
                *lowerer,
                e,
            ));
            assert forall|x: Seq<char>| #[trigger] dangling(*lowerer, x) implies dangling(o, x) by {
                assert(x != c && x != b && x != e && x != inc);
                assert(!defines(s10, x));
                assert(!defines(s7, x));
                assert(!defines(s6, x));
                assert(!defines(s5, x));
                assert(!defines(o, x));
                if jumps_to(s10.blocks@, x) {
                    assert(jumps_to(s9.blocks@, x));
                    assert(jumps_to(s7.blocks@, x));
                    assert(jumps_to(s6.blocks@, x));
                    assert(dangling(s6, x));
                    assert(dangling(s5, x));
                    if stacked(s5.break_stack@, x) {
                        assert(stacked(o.break_stack@, x));
                    } else {
                        assert(jumps_to(s4.blocks@, x));
                        assert(jumps_to(s3b.blocks@, x));
                        assert(jumps_to(s2.blocks@, x));
                        assert(jumps_to(s1.blocks@, x));
                    }
                }
            }
        }
    }
    Ok(())
}

/// Whether an expression is the call `Program.Stop()`.
pub open spec fn program_stop(e: Expr) -> bool {
    e matches Expr::NamespaceCall { namespace, method, args } && namespace@ == "Program"@ && method@
        == "Stop"@ && args@.len() == 0
}

/// What the native backend needs before it lowers a statement: the
/// statement is of a kind it supports, `Stop` is inside a loop or an `If`,
/// and `Skip` inside a loop.
spec fn stmt_native(s: Statement, l: Lowerer) -> bool {
    match s {
        Statement::Stop => l.break_stack@.len() > 0,
        Statement::Skip => l.break_stack@.len() > 0 && l.break_stack@.last().continue_label@.len() > 0,
        Statement::ForEach(_) | Statement::Input(_) | Statement::Use(_) | Statement::Using(_)
        | Statement::DataDecl(_) | Statement::ObjectDecl(_) | Statement::FunctionDecl(_) => false,
        _ => true,
    }
}

/// Lowers one statement.
fn lower_statement(stmt: &Statement, lowerer: &mut Lowerer) -> (r: Result<(), ForgeError>)
    requires
        lowerer_ok(*old(lowerer)),
    ensures
        !crate::backend::stmt_needs_typed(*stmt) && (*stmt is VarDecl || *stmt is Assignment || *stmt is Print
            || *stmt is ExprStmt || *stmt is Return) && lowerer_no_input(*old(lowerer)) ==> lowerer_no_input(
            *final(lowerer),
        ),
        lowering_step(*old(lowerer), *final(lowerer)),
        r is Ok && stmt_shaped(*stmt) ==> flow_closes(*old(lowerer), *final(lowerer)),
        r is Ok ==> stmt_native(*stmt, *old(lowerer)),
        match *stmt {
            Statement::VarDecl(d) => (r is Ok <==> native_type(d.type_decl) && match d.initializer {
                Some(init) => expr_lowers(init, old(lowerer).var_types@, names_of(old(lowerer).known_functions@)),
                None => true,
            }) && (r is Ok && !old(lowerer).terminated ==> decl_emitted(d, old(lowerer).current_insts@, *final(lowerer))),
            Statement::Assignment(a) => (r is Ok <==> a.target is Var && expr_lowers(
                a.value,
                old(lowerer).var_types@,
                names_of(old(lowerer).known_functions@),
            )) && (r is Ok && !old(lowerer).terminated ==> store_emitted(
                a.value,
                old(lowerer).current_insts@,
                final(lowerer).current_insts@,
                storage_of(*old(lowerer), a.target->Var_0@),
            )),
            Statement::Return(e) => (r is Ok <==> match e {
                Some(x) => expr_lowers(x, old(lowerer).var_types@, names_of(old(lowerer).known_functions@)),
                None => true,
            }) && (r is Ok ==> final(lowerer).terminated) && (r is Ok && !old(lowerer).terminated ==> {
                let blk = final(lowerer).blocks@.last();
                &&& final(lowerer).blocks@.len() == old(lowerer).blocks@.len() + 1
                &&& blk.label@ == old(lowerer).current_label@
                &&& match e {
                    Some(x) => blk.terminator matches IrTerminator::Ret(Some(op)) && expr_emits(
                        x,
                        old(lowerer).current_insts@,
                        blk.insts@,
                        op,
                    ),
                    None => blk.terminator matches IrTerminator::Ret(None) && blk.insts@
                        == old(lowerer).current_insts@,
                }
            }),
            Statement::Print(p) => (r is Ok <==> print_lowers(
                p.expr,
                old(lowerer).var_types@,
                names_of(old(lowerer).known_functions@),
            )) && (r is Ok && !old(lowerer).terminated ==> print_emitted(
                p.expr,
                old(lowerer).current_insts@,
                final(lowerer).current_insts@,
            )),
            Statement::Stop | Statement::Skip => r is Ok ==> final(lowerer).terminated,
            Statement::ExprStmt(e) => r is Ok <==> (program_stop(e) || expr_lowers(
                e,
                old(lowerer).var_types@,
                names_of(old(lowerer).known_functions@),
            )),
            _ => true,
        },
        r is Ok && (*stmt is VarDecl || *stmt is Assignment || *stmt is Print || *stmt is ExprStmt) ==> covers(
            old(lowerer).var_types@,
            final(lowerer).var_types@,
        ) && final(lowerer).terminated == old(lowerer).terminated,
        r is Ok ==> match *stmt {
            Statement::VarDecl(d) => has_key(final(lowerer).var_types@, d.name@),
            _ => true,
        },
    decreases stmt,
{
    let ghost o = *lowerer;
    match stmt {
        Statement::VarDecl(decl) => {
            lower_var_decl(decl, lowerer)?;
            proof {
                lemma_same_closes(o, *lowerer);
                lemma_defined_iff(lowerer.var_types@, decl.name@);
            }
        },
        Statement::Assignment(assign) => {
            let var_name = match &assign.target {
                AssignmentTarget::Var(name) => copy_string(name),
                _ => {
                    return Err(
                        codegen_error("Native backend only supports variable assignment targets"),
                    );
                },
            };
            let src = lower_expr(&assign.value, lowerer)?;
            let ghost mid = lowerer.current_insts@;
            let storage_name = lowerer.storage_name(var_name.as_str());
            let inst = IrInst::StoreVar { var_name: storage_name, src };
            lowerer.emit(inst);
            proof {
                if !o.terminated {
                    assert(lowerer.current_insts@.drop_last() =~= mid);
                }
            }
            proof {
                lemma_same_closes(o, *lowerer);
            }
        },
        Statement::Return(opt_expr) => {
            let ret_op = match opt_expr {
                Some(expr) => Some(lower_expr(expr, lowerer)?),
                None => None,
            };
            let ghost m = *lowerer;
            let ret = IrTerminator::Ret(ret_op);
            proof {
                assert(term_targets(ret) =~= seq![]);
            }
            lowerer.finish_block(ret);
            proof {
                assert forall|x: Seq<char>| #[trigger] defines(o, x) implies defines(*lowerer, x) by {
                    assert(defines(m, x));
                }
                assert forall|x: Seq<char>| #[trigger] dangling(*lowerer, x) implies dangling(o, x) by {
                    assert(!defines(m, x));
                }
            }
        },
        Statement::Print(print_node) => {
            lower_print(&print_node.expr, lowerer)?;
            proof {
                lemma_same_closes(o, *lowerer);
            }
        },
        Statement::If(if_node) => {
            lower_if(if_node, lowerer)?;
        },
        Statement::While(while_node) => {
            lower_while_stmt(while_node, lowerer)?;
        },
        Statement::For(for_node) => {
            lower_for_stmt(for_node, lowerer)?;
        },
        Statement::ForEach(_) => {
            return Err(codegen_error("ForEach requires the typed backend"));
        },
        Statement::Stop => {
            let n = lowerer.break_stack.len();
            if n == 0 {
                return Err(codegen_error("Stop can only be used inside a loop or If statement"));
            }
            let exit = copy_string(&lowerer.break_stack[n - 1].exit_label);
            let ghost ex = exit@;
            let jump = IrTerminator::Jump(exit);
            proof {
                assert(term_targets(jump) =~= seq![ex]);
                assert(o.break_stack@[n - 1].exit_label@ == ex);
                assert(stacked(o.break_stack@, ex));
            }
            lowerer.finish_block(jump);
            proof {
                assert forall|x: Seq<char>| #[trigger] dangling(*lowerer, x) implies dangling(o, x) by {
                    assert(!defines(o, x));
                }
            }
        },
        Statement::Skip => {
            let n = lowerer.break_stack.len();
            if n == 0 {
                return Err(codegen_error("Skip can only be used inside a loop"));
            }
            let target = copy_string(&lowerer.break_stack[n - 1].continue_label);
            if target.as_str().is_empty() {
                return Err(codegen_error("Skip can only be used inside a loop"));
            }
            let ghost tg = target@;
            let jump = IrTerminator::Jump(target);
            proof {
                assert(term_targets(jump) =~= seq![tg]);
                assert(o.break_stack@[n - 1].continue_label@ == tg);
                assert(stacked(o.break_stack@, tg));
            }
            lowerer.finish_block(jump);
            proof {
                assert forall|x: Seq<char>| #[trigger] dangling(*lowerer, x) implies dangling(o, x) by {
                    assert(!defines(o, x));
                }
            }
        },
        Statement::ExprStmt(expr) => {
            if let Expr::NamespaceCall { namespace, method, args } = expr {
                if str_eq(namespace.as_str(), "Program") && str_eq(method.as_str(), "Stop")
                    && args.len() == 0 {
                    lowerer.emit(IrInst::SysExit { status: Operand::Const(0) });
                    proof {
                        lemma_same_closes(o, *lowerer);
                    }
                    return Ok(());
                }
            }
            lower_expr(expr, lowerer)?;
            proof {
                lemma_same_closes(o, *lowerer);
            }
        },
        Statement::Input(_) => {
            return Err(
                codegen_error("Input statements are not supported; use Input(...) as an expression"),
            );
        },
        Statement::Use(_) | Statement::Using(_) => {
            return Err(codegen_error("Imports are not yet supported in native backend"));
        },
        Statement::DataDecl(_) => {
            return Err(codegen_error("Data declarations are not yet supported in native backend"));
        },
        Statement::ObjectDecl(_) => {
            return Err(
                codegen_error("Object declarations are not yet supported in native backend"),
            );
        },
        Statement::FunctionDecl(_) => {
            return Err(codegen_error("Nested function declarations are not supported"));
        },
    }
    Ok(())
}

/// The names of the functions a list of top-level statements declares, in
/// order.
pub open spec fn function_names(stmts: Seq<Statement>) -> Seq<Seq<char>>
    decreases stmts.len(),
{
    if stmts.len() == 0 {
        seq![]
    } else {
        let prev = function_names(stmts.drop_last());
        match stmts.last() {
            Statement::FunctionDecl(f) => prev.push(f.name@),
            _ => prev,
        }
    }
}

/// The names of the functions of an IR program, in order.
pub open spec fn ir_function_names(ir: IrProgram) -> Seq<Seq<char>> {
    ir.functions@.map_values(|f: IrFunction| f.name@)
}

/// The diagnostic for a function with more parameters than argument registers.
pub open spec fn too_many_params_message(name: Seq<char>, n: nat) -> Seq<char> {
    "Function '"@ + name + "' has "@ + crate::text::decimal(n)
        + " parameters. Native backend supports at most 6 integer parameters."@
}

/// Whether the native backend returns values of a return kind.
pub open spec fn native_ret(r: RetKind) -> bool {
    r is Int || r is Bool || r is Weld || r is Nunction || r is Void
}

/// The variables a function's parameters declare.
pub open spec fn params_vt(ps: Seq<crate::ast::Param>) -> Seq<(String, ValueKind)> {
    ps.map_values(|p: crate::ast::Param| (p.name, ValueKind::Other))
}

/// Whether every top-level statement declares a function.
pub open spec fn only_functions(stmts: Seq<Statement>) -> bool {
    forall|i: int| 0 <= i < stmts.len() ==> #[trigger] stmts[i] is FunctionDecl
}

/// Whether a function is straight-line code the native backend lowers: at
/// most six parameters of types it stores, a return kind it supports, and a
/// body of straight-line statements over the parameters (see
/// `straight_line`), calling only functions among `known`.
pub open spec fn function_straight(f: FunctionDecl, known: Seq<Seq<char>>) -> bool {
    &&& f.params@.len() <= 6
    &&& forall|i: int| 0 <= i < f.params@.len() ==> #[trigger] native_type(f.params@[i].type_decl)
    &&& native_ret(f.ret_kind)
    &&& straight_line(f.body@, params_vt(f.params@), known)
}

fn lower_function(
    f: &FunctionDecl,
    known_funcs: &Vec<String>,
    function_ret_kinds: &Vec<(String, ValueKind)>,
    program: &Program,
) -> (r: Result<IrFunction, ForgeError>)
    ensures
        f.params@.len() > 6 ==> (r matches Err(e) && e.message@ == too_many_params_message(
            f.name@,
            f.params@.len(),
        )),
        r matches Ok(func) ==> {
            &&& func.name@ == f.name@
            &&& f.params@.len() <= 6
            &&& func.param_names@.len() == f.params@.len()
            &&& forall|i: int| 0 <= i < f.params@.len() ==> #[trigger] func.param_names@[i]@ == f.params@[i].name@
            &&& blocks_ok(func.blocks@, names_of(known_funcs@))
            &&& stmts_shaped(f.body@) && stmts_shaped(program.statements@) ==> jumps_closed(func)
        },
        function_straight(*f, names_of(known_funcs@)) && only_functions(program.statements@) ==> r is Ok,
        function_straight(*f, names_of(known_funcs@)) && only_functions(program.statements@) && (forall|i: int|
            0 <= i < f.body@.len() ==> !crate::backend::stmt_needs_typed(#[trigger] f.body@[i])) ==> (r matches Ok(
            func) && forall|b: int| 0 <= b < func.blocks@.len() ==> no_input_in(#[trigger] func.blocks@[b].insts@)),
{
    let ghost shaped = stmts_shaped(f.body@) && stmts_shaped(program.statements@);
    proof {
        lemma_stmts_shaped(program.statements@);
    }
    if f.params.len() > 6 {
        let mut msg = concat("Function '", f.name.as_str());
        append(&mut msg, "' has ");
        append(&mut msg, decimal_string(f.params.len() as u64).as_str());
        append(&mut msg, " parameters. Native backend supports at most 6 integer parameters.");
        return Err(ForgeError::codegen(msg));
    }
    let mut i: usize = 0;
    while i < f.params.len()
        invariant
            f.params@.len() <= 6,
        decreases f.params.len() - i,
    {
        match &f.params[i].type_decl {
            TypeDecl::Number(Subtype::Int) | TypeDecl::Bool | TypeDecl::Weld => {},
            td => {
                let mut msg = concat("Parameter '", f.params[i].name.as_str());
                append(&mut msg, "' in function '");
                append(&mut msg, f.name.as_str());
                append(&mut msg, "' has unsupported type ");
                append(&mut msg, type_text_of(td).as_str());
                append(&mut msg, ". Native backend supports Int, Bool, Weld.");
                proof {
                    assert(!native_type(f.params@[i as int].type_decl));
                }
                return Err(ForgeError::codegen(msg));
            },
        }
        i += 1;
    }
    match &f.ret_kind {
        RetKind::Int | RetKind::Bool | RetKind::Weld | RetKind::Nunction | RetKind::Void => {},
        rk => {
            let mut msg = concat("Function '", f.name.as_str());
            append(&mut msg, "' has unsupported return kind ");
            append(&mut msg, ret_kind_text_of(rk).as_str());
            append(&mut msg, ". Native backend supports Int/Bool/Weld/Void.");
            return Err(ForgeError::codegen(msg));
        },
    }
    let mut known: Vec<String> = Vec::new();
    let mut k: usize = 0;
    while k < known_funcs.len()
        invariant
            k <= known_funcs@.len(),
            known@.len() == k,
            forall|j: int| 0 <= j < k ==> #[trigger] known@[j]@ == known_funcs@[j]@,
        decreases known_funcs.len() - k,
    {
        known.push(copy_string(&known_funcs[k]));
        k += 1;
    }
    assert(names_of(known@) =~= names_of(known_funcs@));
    let mut kinds: Vec<(String, ValueKind)> = Vec::new();
    let mut k: usize = 0;
    while k < function_ret_kinds.len()
        decreases function_ret_kinds.len() - k,
    {
        kinds.push((copy_string(&function_ret_kinds[k].0), function_ret_kinds[k].1));
        k += 1;
    }
    let mut lowerer = Lowerer::new(known, kinds);
    let entry_prefix = {
        let mut p = concat("fn_", f.name.as_str());
        append(&mut p, "_entry");
        p
    };
    let entry_label = lowerer.alloc_label(entry_prefix.as_str());
    lowerer.start_block(entry_label);
    let mut param_names: Vec<String> = Vec::new();
    let mut idx: usize = 0;
    while idx < f.params.len()
        invariant
            f.params@.len() <= 6,
            idx <= f.params@.len(),
            param_names@.len() == idx,
            forall|j: int| 0 <= j < idx ==> #[trigger] param_names@[j]@ == f.params@[j].name@,
            lowerer_ok(lowerer),
            names_of(lowerer.known_functions@) == names_of(known_funcs@),
            lowerer.blocks@.len() == 0,
            lowerer.break_stack@.len() == 0,
            !lowerer.terminated,
            lowerer_no_input(lowerer),
            forall|j: int| 0 <= j < idx ==> has_key(lowerer.var_types@, #[trigger] f.params@[j].name@),
        decreases f.params.len() - idx,
    {
        let param = &f.params[idx];
        param_names.push(copy_string(&param.name));
        let ghost vt0 = lowerer.var_types@;
        let pk = kind_of_type(&param.type_decl);
        set_kind(&mut lowerer.var_types, &param.name, pk);
        proof {
            lemma_set_found(vt0, lowerer.var_types@, param.name, pk);
            lemma_set_covers(vt0, lowerer.var_types@, param.name, pk);
            lemma_defined_iff(lowerer.var_types@, param.name@);
            assert forall|j: int| 0 <= j < idx + 1 implies has_key(lowerer.var_types@, #[trigger] f.params@[j].name@) by {
                if j < idx {
                    assert(has_key(vt0, f.params@[j].name@));
                }
            }
        }
        let dest = lowerer.alloc_vreg();
        lowerer.emit(IrInst::Param { dest, index: idx });
        lowerer.emit(IrInst::StoreVar { var_name: copy_string(&param.name), src: Operand::Reg(dest) });
        idx += 1;
    }
    let ghost lw0 = lowerer;
    if str_eq(f.name.as_str(), "Main") {
        // Loose top-level statements run at the start of Main.
        let mut i: usize = 0;
        proof {
            assert forall|x: Seq<char>| !#[trigger] dangling(lowerer, x) by {}
        }
        while i < program.statements.len()
            invariant
                only_functions(program.statements@) ==> lowerer == lw0,
                f.params@.len() <= 6,
                lowerer_ok(lowerer),
                names_of(lowerer.known_functions@) == names_of(known_funcs@),
                shaped == (stmts_shaped(f.body@) && stmts_shaped(program.statements@)),
                stmts_shaped(program.statements@) ==> forall|j: int|
                    0 <= j < program.statements@.len() ==> #[trigger] stmt_shaped(program.statements@[j]),
                shaped ==> lowerer.break_stack@.len() == 0,
                shaped ==> forall|x: Seq<char>| !#[trigger] dangling(lowerer, x),
            decreases program.statements.len() - i,
        {
            if lowerer.terminated {
                break;
            }
            match &program.statements[i] {
                Statement::FunctionDecl(_) => {},
                stmt => {
                    lower_statement(stmt, &mut lowerer)?;
                },
            }
            i += 1;
        }
    }
    proof {
        if shaped {
            assert forall|x: Seq<char>| !#[trigger] dangling(lowerer, x) by {}
        }
    }
    let ghost b0 = lowerer;
    proof {
        if function_straight(*f, names_of(known_funcs@)) && only_functions(program.statements@) {
            assert(lowerer == lw0);
            let pv = params_vt(f.params@);
            assert forall|n: Seq<char>| #[trigger] has_key(pv, n) implies has_key(lowerer.var_types@, n) by {
                let j = choose|j: int| 0 <= j < pv.len() && (#[trigger] pv[j]).0@ == n;
                assert(pv[j].0 == f.params@[j].name);
                assert(has_key(lowerer.var_types@, f.params@[j].name@));
            }
            lemma_straight_line_mono(f.body@, pv, lowerer.var_types@, names_of(known_funcs@));
        }
    }
    lower_statements(&f.body, &mut lowerer)?;
    let ghost b1 = lowerer;
    if !lowerer.terminated {
        let default_ret = if f.ret_kind.is_void() {
            IrTerminator::Ret(None)
        } else {
            IrTerminator::Ret(Some(Operand::Const(0)))
        };
        proof {
            assert(term_targets(default_ret) =~= seq![]);
        }
        lowerer.finish_block(default_ret);
    }
    let ghost b2 = lowerer;
    let func = IrFunction { name: copy_string(&f.name), param_names, blocks: lowerer.blocks };
    proof {
        if shaped {
            assert forall|b: int, t: int|
                0 <= b < func.blocks@.len() && 0 <= t < term_targets(func.blocks@[b].terminator).len() implies has_label(
                func,
                #[trigger] term_targets(func.blocks@[b].terminator)[t],
            ) by {
                let x = term_targets(func.blocks@[b].terminator)[t];
                assert(jumps_to(func.blocks@, x));
                assert(!dangling(b0, x));
                assert(!dangling(b1, x));
                assert(b2.terminated);
                assert(jumps_to(b1.blocks@, x));
                assert(defines(b1, x));
                assert(defines(b2, x));
                assert(block_labelled(func.blocks@, x));
            }
        }
    }
    Ok(func)
}

/// The function a program declares first, where its first statement
/// declares one.
pub open spec fn leading_function(p: Program) -> Option<FunctionDecl> {
    if p.statements@.len() > 0 {
        match p.statements@[0] {
            Statement::FunctionDecl(f) => Some(f),
            _ => None,
        }
    } else {
        None
    }
}

/// Whether a program is made of function declarations only, each of them
/// straight-line code the native backend lowers (see `function_straight`).
pub open spec fn program_straight(p: Program) -> bool {
    &&& only_functions(p.statements@)
    &&& forall|i: int|
        0 <= i < p.statements@.len() ==> match #[trigger] p.statements@[i] {
            Statement::FunctionDecl(f) => function_straight(f, function_names(p.statements@)),
            _ => false,
        }
}

/// Lowers a program whose every function the native backend supports.
///
/// Fails when no function is named `Main`, and on the first construct the
/// native backend does not support. When every `If` of the program has a
/// condition, every jump of the lowered code names a block of its function.
pub fn lower(program: &Program) -> (r: Result<IrProgram, ForgeError>)
    ensures
        !function_names(program.statements@).contains("Main"@) ==> (r matches Err(e)
            && e.message@ == "No Main function found"@),
        r matches Ok(ir) ==> {
            &&& function_names(program.statements@).contains("Main"@)
            &&& ir_function_names(ir) == function_names(program.statements@)
            &&& forall|g: int|
                0 <= g < ir.functions@.len() ==> blocks_ok(
                    (#[trigger] ir.functions@[g]).blocks@,
                    ir_function_names(ir),
                )
            &&& stmts_shaped(program.statements@) ==> forall|g: int|
                0 <= g < ir.functions@.len() ==> jumps_closed(#[trigger] ir.functions@[g])
        },
        function_names(program.statements@).contains("Main"@) && program_straight(*program) ==> r is Ok,
        r is Ok ==> forall|i: int|
            0 <= i < program.statements@.len() ==> (#[trigger] program.statements@[i] matches Statement::FunctionDecl(
                f,
            ) ==> f.params@.len() <= 6),
        function_names(program.statements@).contains("Main"@) && leading_function(*program) is Some
            && leading_function(*program)->0.params@.len() > 6 ==> (r matches Err(e) && e.message@
            == too_many_params_message(
            leading_function(*program)->0.name@,
            leading_function(*program)->0.params@.len(),
        )),
        function_names(program.statements@).contains("Main"@) && program_straight(*program)
            && !crate::backend::program_needs_typed(*program) ==> (r matches Ok(ir) && forall|g: int, b: int|
            0 <= g < ir.functions@.len() && 0 <= b < ir.functions@[g].blocks@.len() ==> no_input_in(
            #[trigger] ir.functions@[g].blocks@[b].insts@,
        )),
{
    let ghost plain = function_names(program.statements@).contains("Main"@) && program_straight(*program)
        && !crate::backend::program_needs_typed(*program);
    proof {
        lemma_stmts_shaped(program.statements@);
    }
    let mut known_functions: Vec<String> = Vec::new();
    let mut function_ret_kinds: Vec<(String, ValueKind)> = Vec::new();
    let mut i: usize = 0;
    while i < program.statements.len()
        invariant
            i <= program.statements@.len(),
            names_of(known_functions@) == function_names(program.statements@.take(i as int)),
        decreases program.statements.len() - i,
    {
        assert(program.statements@.take(i + 1).drop_last() =~= program.statements@.take(i as int));
        match &program.statements[i] {
            Statement::FunctionDecl(f) => {
                known_functions.push(copy_string(&f.name));
                function_ret_kinds.push((copy_string(&f.name), kind_of_ret(&f.ret_kind)));
                assert(names_of(known_functions@) =~= function_names(program.statements@.take(i + 1)));
            },
            _ => {},
        }
        i += 1;
    }
    assert(program.statements@.take(program.statements.len() as int) =~= program.statements@);
    let mut has_main = false;
    let mut k: usize = 0;
    while k < known_functions.len()
        invariant
            k <= known_functions@.len(),
            has_main == exists|j: int| 0 <= j < k && known_functions@[j]@ == "Main"@,
        decreases known_functions.len() - k,
    {
        if str_eq(known_functions[k].as_str(), "Main") {
            has_main = true;
        }
        k += 1;
    }
    if !has_main {
        proof {
            if names_of(known_functions@).contains("Main"@) {
                let j = choose|j: int| 0 <= j < names_of(known_functions@).len() && names_of(known_functions@)[j] == "Main"@;
                assert(known_functions@[j]@ == "Main"@);
            }
        }
        return Err(codegen_error("No Main function found"));
    }
    proof {
        let j = choose|j: int| 0 <= j < known_functions@.len() && known_functions@[j]@ == "Main"@;
        assert(names_of(known_functions@)[j] == "Main"@);
    }
    let mut ir_functions: Vec<IrFunction> = Vec::new();
    let mut i: usize = 0;
    while i < program.statements.len()
        invariant
            i <= program.statements@.len(),
            function_names(program.statements@).contains("Main"@),
            names_of(known_functions@) == function_names(program.statements@),
            ir_functions@.map_values(|f: IrFunction| f.name@) == function_names(program.statements@.take(i as int)),
            forall|g: int|
                0 <= g < ir_functions@.len() ==> blocks_ok(
                    (#[trigger] ir_functions@[g]).blocks@,
                    names_of(known_functions@),
                ),
            stmts_shaped(program.statements@) ==> forall|j: int|
                0 <= j < program.statements@.len() ==> #[trigger] stmt_shaped(program.statements@[j]),
            stmts_shaped(program.statements@) ==> forall|g: int|
                0 <= g < ir_functions@.len() ==> jumps_closed(#[trigger] ir_functions@[g]),
            plain == (function_names(program.statements@).contains("Main"@) && program_straight(*program)
                && !crate::backend::program_needs_typed(*program)),
            plain ==> forall|g: int, b: int|
                0 <= g < ir_functions@.len() && 0 <= b < ir_functions@[g].blocks@.len() ==> no_input_in(
                #[trigger] ir_functions@[g].blocks@[b].insts@,
            ),
            forall|j: int|
                0 <= j < i ==> (#[trigger] program.statements@[j] matches Statement::FunctionDecl(f) ==> f.params@.len()
                    <= 6),
        decreases program.statements.len() - i,
    {
        assert(program.statements@.take(i + 1).drop_last() =~= program.statements@.take(i as int));
        if let Statement::FunctionDecl(f) = &program.statements[i] {
            proof {
                if stmts_shaped(program.statements@) {
                    assert(stmt_shaped(program.statements@[i as int]));
                }
            }
            proof {
                if program_straight(*program) {
                    assert(function_straight(*f, names_of(known_functions@)));
                }
                if plain {
                    assert forall|j: int| 0 <= j < f.body@.len() implies !crate::backend::stmt_needs_typed(
                        #[trigger] f.body@[j],
                    ) by {
                        assert(!crate::backend::stmt_needs_typed(program.statements@[i as int]));
                    }
                }
            }
            let ir_func = match lower_function(f, &known_functions, &function_ret_kinds, program) {
                Ok(func) => func,
                Err(e) => {
                    return Err(e);
                },
            };
            let ghost prev = ir_functions@;
            ir_functions.push(ir_func);
            proof {
                if stmts_shaped(program.statements@) {
                    assert forall|g: int| 0 <= g < ir_functions@.len() implies jumps_closed(
                        #[trigger] ir_functions@[g],
                    ) by {
                        if g < prev.len() {
                            assert(ir_functions@[g] == prev[g]);
                        }
                    }
                }
                if plain {
                    assert forall|g: int, b: int|
                        0 <= g < ir_functions@.len() && 0 <= b < ir_functions@[g].blocks@.len() implies no_input_in(
                        #[trigger] ir_functions@[g].blocks@[b].insts@,
                    ) by {
                        if g < prev.len() {
                            assert(ir_functions@[g] == prev[g]);
                        }
                    }
                }
            }
            assert(ir_functions@.map_values(|f: IrFunction| f.name@) =~= function_names(program.statements@.take(i + 1)));
        }
        i += 1;
    }
    let ir = IrProgram { functions: ir_functions };
    assert(ir_function_names(ir) =~= function_names(program.statements@));
    Ok(ir)
}

} // verus!
