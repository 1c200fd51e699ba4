//! The analyzer's model of an LLVM function: named basic blocks holding
//! instructions, where each value is carried as its LLVM-printed text form.
//! The IR provider (the bitcode reader) fills this model in; everything the
//! analysis reads of a function is held here as plain values.

use vstd::prelude::*;

verus! {

/// The opcode of an instruction, reduced to the cases the analyzer
/// distinguishes.
#[derive(Clone, Copy, PartialEq, Eq, Structural, Debug)]
pub enum Opcode {
    OpReturn,
    OpBr,
    OpSwitch,
    OpIndirectBr,
    OpInvoke,
    OpCallBr,
    OpResume,
    OpCatchSwitch,
    OpCatchRet,
    OpCleanupRet,
    OpUnreachable,
    OpCall,
    OpLoad,
    OpStore,
    OpAlloca,
    OpXor,
    OpICmp,
    OpExtractValue,
    OpOther,
}

/// The comparison kind of an `icmp` instruction.
#[derive(Clone, Copy, PartialEq, Eq, Structural, Debug)]
pub enum IcmpKind {
    IcmpEq,
    IcmpNe,
    IcmpSgt,
    IcmpSge,
    IcmpSlt,
    IcmpSle,
    IcmpUgt,
    IcmpUge,
    IcmpUlt,
    IcmpUle,
}

/// One operand of an instruction: either a value, given by its printed text
/// form, or a branch target, given as an index into the function's blocks.
pub enum Operand {
    Text(String),
    Target(usize),
}

/// One instruction. `printed` is the full printed text of the instruction,
/// which is also the printed form of its result value; `ty` is the printed
/// result type without quotes (`i32`, `i1`, ...); `callee` names the called
/// operand of a `call`.
pub struct Instr {
    pub opcode: Opcode,
    pub printed: String,
    pub ty: String,
    pub operands: Vec<Operand>,
    pub icmp: Option<IcmpKind>,
    pub callee: Option<String>,
}

/// A basic block: a name unique within its function and an ordered
/// instruction list whose last element is the terminator, when one exists.
pub struct BasicBlock {
    pub name: String,
    pub instrs: Vec<Instr>,
}

/// A function parameter, as its printed text form and printed type.
pub struct Param {
    pub printed: String,
    pub ty: String,
}

/// A function: its (mangled) symbol name, parameters and basic blocks.
pub struct Function {
    pub name: String,
    pub params: Vec<Param>,
    pub blocks: Vec<BasicBlock>,
}

/// A module: its name and its functions.
pub struct Module {
    pub name: String,
    pub functions: Vec<Function>,
}

/// The name of the synthetic terminal node that unifies all exits.
pub open spec fn common_end_name() -> Seq<char> {
    "common_end"@
}

/// The name of the boolean flag that records "this path ended at an
/// `unreachable` terminator".
pub open spec fn panic_var_name() -> Seq<char> {
    "panic_var"@
}

pub fn common_end_string() -> (r: String)
    ensures
        r@ == common_end_name(),
{
    "common_end".to_owned()
}

pub fn panic_var_string() -> (r: String)
    ensures
        r@ == panic_var_name(),
{
    "panic_var".to_owned()
}

pub open spec fn is_terminator_opcode(op: Opcode) -> bool {
    match op {
        Opcode::OpReturn => true,
        Opcode::OpBr => true,
        Opcode::OpSwitch => true,
        Opcode::OpIndirectBr => true,
        Opcode::OpInvoke => true,
        Opcode::OpCallBr => true,
        Opcode::OpResume => true,
        Opcode::OpCatchSwitch => true,
        Opcode::OpCatchRet => true,
        Opcode::OpCleanupRet => true,
        Opcode::OpUnreachable => true,
        _ => false,
    }
}

pub fn opcode_is_terminator(op: Opcode) -> (r: bool)
    ensures
        r == is_terminator_opcode(op),
{
    match op {
        Opcode::OpReturn => true,
        Opcode::OpBr => true,
        Opcode::OpSwitch => true,
        Opcode::OpIndirectBr => true,
        Opcode::OpInvoke => true,
        Opcode::OpCallBr => true,
        Opcode::OpResume => true,
        Opcode::OpCatchSwitch => true,
        Opcode::OpCatchRet => true,
        Opcode::OpCleanupRet => true,
        Opcode::OpUnreachable => true,
        _ => false,
    }
}

/// The terminator of a block: its last instruction, when that instruction
/// carries a terminator opcode.
pub open spec fn spec_terminator(b: BasicBlock) -> Option<Instr> {
    if b.instrs.len() > 0 && is_terminator_opcode(b.instrs[b.instrs.len() - 1].opcode) {
        Some(b.instrs[b.instrs.len() - 1])
    } else {
        None
    }
}

impl BasicBlock {
    /// Return the block's terminator instruction, if any.
    pub fn terminator(&self) -> (r: Option<&Instr>)
        ensures
            match r {
                Some(i) => spec_terminator(*self) == Some(*i),
                None => spec_terminator(*self) is None,
            },
    {
        if self.instrs.len() > 0 {
            let i = &self.instrs[self.instrs.len() - 1];
            if opcode_is_terminator(i.opcode) {
                Some(i)
            } else {
                None
            }
        } else {
            None
        }
    }
}

/// No block of the function ends in an `unreachable` terminator.
pub open spec fn no_unreachable_terminator(f: Function) -> bool {
    forall|i: int|
        0 <= i < f.blocks.len() ==> match spec_terminator(#[trigger] f.blocks[i]) {
            Some(t) => t.opcode != Opcode::OpUnreachable,
            None => true,
        }
}

/// Find a block by its name; with several of one name, the last wins.
pub fn get_basic_block_by_name<'a>(f: &'a Function, name: &str) -> (r: Option<&'a BasicBlock>)
    ensures
        match r {
            Some(b) => exists|i: int|
                0 <= i < f.blocks.len() && *b == f.blocks[i] && f.blocks[i].name@ == name@ && (
                forall|j: int| i < j < f.blocks.len() ==> f.blocks[j].name@ != name@),
            None => forall|i: int| 0 <= i < f.blocks.len() ==> f.blocks[i].name@ != name@,
        },
{
    let target = crate::names::chars_of_str(name);
    let mut found: Option<&'a BasicBlock> = None;
    let ghost mut fi: int = 0;
    let mut i: usize = 0;
    while i < f.blocks.len()
        invariant
            0 <= i <= f.blocks.len(),
            target@ == name@,
            match found {
                Some(b) => 0 <= fi < i && *b == f.blocks[fi] && f.blocks[fi].name@ == name@ && (
                forall|j: int| fi < j < i ==> f.blocks[j].name@ != name@),
                None => forall|j: int| 0 <= j < i ==> f.blocks[j].name@ != name@,
            },
        decreases f.blocks.len() - i,
    {
        let bn = crate::names::chars_of_str(f.blocks[i].name.as_str());
        if crate::names::chars_eq(&bn, &target) {
            found = Some(&f.blocks[i]);
            proof {
                fi = i as int;
                assert(f.blocks[i as int].name@ == name@);
            }
        }
        i += 1;
    }
    found
}

/// A block name that cannot collide with any solver identifier the analysis
/// mints for other purposes: it is not the terminal node's name, not the
/// panic flag, does not carry the SSA sigil and does not sit in the constant
/// namespace.
pub open spec fn good_block_name(s: Seq<char>) -> bool {
    &&& s.len() > 0
    &&& s != common_end_name()
    &&& s != panic_var_name()
    &&& !s.contains('%')
    &&& !(s.len() >= 6 && s.subrange(0, 6) == "const_"@)
}

/// Block names are pairwise distinct within the function.
pub open spec fn distinct_block_names(f: Function) -> bool {
    forall|i: int, j: int|
        0 <= i < j < f.blocks.len() ==> f.blocks[i].name@ != f.blocks[j].name@
}

/// Every block name stays out of the analyzer's reserved namespaces.
pub open spec fn good_block_names(f: Function) -> bool {
    forall|i: int| 0 <= i < f.blocks.len() ==> good_block_name(#[trigger] f.blocks[i].name@)
}

} // verus!
