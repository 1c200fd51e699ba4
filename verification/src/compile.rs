//! The symbolic compiler: per-instruction assignments, per-block
//! verification conditions, entry-condition guards and the whole-function
//! assertion list. Every assertion the solver will see is built here and
//! its exact shape is stated by the specification functions alongside.

use vstd::prelude::*;

use crate::cfg::{end_node, lemma_preds_bound, operand_target, spec_preds, spec_succ, vec_contains_usize};
use crate::ir::{
    BasicBlock, Function, IcmpKind, Instr, Opcode, Operand, Param, common_end_name,
    common_end_string, panic_var_name, panic_var_string, spec_terminator,
};
use crate::names::{
    Resolved, ResolvedView, chars_of_str, get_field_to_extract, resolve_chars, resolved_name,
    resolved_name_chars, spec_field_to_extract, spec_resolve,
};
use crate::term::{BoolExpr, BoolExprV, CmpOp, IntExpr, IntExprV, bool_view, views_of};

verus! {

/// The solver name of a node: its block's name, or `common_end`.
pub open spec fn node_name(f: Function, v: usize) -> Seq<char> {
    if (v as int) < f.blocks.len() {
        f.blocks[v as int].name@
    } else {
        common_end_name()
    }
}

/// Build the solver name of a node.
pub fn node_name_chars(f: &Function, v: usize) -> (r: Vec<char>)
    requires
        (v as int) <= f.blocks.len(),
    ensures
        r@ == node_name(*f, v),
{
    if v < f.blocks.len() {
        chars_of_str(f.blocks[v].name.as_str())
    } else {
        let s = common_end_string();
        chars_of_str(s.as_str())
    }
}

/// The standing equality a resolution emits: constants assert their value,
/// registers assert nothing.
pub open spec fn rv_asserts(r: Option<ResolvedView>) -> Seq<BoolExprV> {
    match r {
        Some(ResolvedView::BoolConst(b)) => seq![
            BoolExprV::BEqBool(
                Box::new(BoolExprV::BVar(resolved_name(ResolvedView::BoolConst(b)))),
                Box::new(BoolExprV::BLit(b)),
            ),
        ],
        Some(ResolvedView::IntConst(tok, v)) => seq![
            BoolExprV::BCmp(
                CmpOp::CmpEq,
                IntExprV::IVar(resolved_name(ResolvedView::IntConst(tok, v))),
                IntExprV::ILit(v as i64),
            ),
        ],
        _ => Seq::empty(),
    }
}

/// Push the standing equality of a resolved value, when it carries one.
fn push_rv_asserts(out: &mut Vec<BoolExpr>, r: &Resolved)
    ensures
        views_of(final(out)@) == views_of(old(out)@) + rv_asserts(Some(r@)),
{
    proof {
        reveal_with_fuel(bool_view, 4);
        reveal_with_fuel(crate::term::int_view, 4);
    }
    let ghost base = out@;
    match r {
        Resolved::Reg(_) => {
            proof {
                assert(views_of(out@) =~= views_of(base) + rv_asserts(Some(r@)));
            }
        },
        Resolved::BoolConst(b) => {
            let name = resolved_name_chars(r);
            let e = BoolExpr::BEqBool(Box::new(BoolExpr::BVar(name)), Box::new(BoolExpr::BLit(*b)));
            proof {
                assert(bool_view(e) == rv_asserts(Some(r@))[0]);
            }
            out.push(e);
            proof {
                assert(views_of(out@) =~= views_of(base) + rv_asserts(Some(r@)));
            }
        },
        Resolved::IntConst(_, v) => {
            let name = resolved_name_chars(r);
            let e = BoolExpr::BCmp(CmpOp::CmpEq, IntExpr::IVar(name), IntExpr::ILit(*v as i64));
            proof {
                assert(bool_view(e) == rv_asserts(Some(r@))[0]);
            }
            out.push(e);
            proof {
                assert(views_of(out@) =~= views_of(base) + rv_asserts(Some(r@)));
            }
        },
    }
}

/// The printed text of a value operand, when operand `k` is one.
pub open spec fn op_text(i: Instr, k: int) -> Option<Seq<char>> {
    if 0 <= k < i.operands.len() {
        match i.operands[k] {
            Operand::Text(s) => Some(s@),
            Operand::Target(_) => None,
        }
    } else {
        None
    }
}

fn op_text_chars(i: &Instr, k: usize) -> (r: Option<Vec<char>>)
    ensures
        match r {
            Some(v) => op_text(*i, k as int) == Some(v@),
            None => op_text(*i, k as int) is None,
        },
{
    if k < i.operands.len() {
        match &i.operands[k] {
            Operand::Text(s) => Some(chars_of_str(s.as_str())),
            Operand::Target(_) => None,
        }
    } else {
        None
    }
}

/// The comparison each `icmp` kind compiles to: signed and unsigned
/// collapse onto the unbounded integer order.
pub open spec fn cmp_of_icmp(k: IcmpKind) -> CmpOp {
    match k {
        IcmpKind::IcmpEq => CmpOp::CmpEq,
        IcmpKind::IcmpNe => CmpOp::CmpNe,
        IcmpKind::IcmpSge => CmpOp::CmpGe,
        IcmpKind::IcmpUge => CmpOp::CmpGe,
        IcmpKind::IcmpSgt => CmpOp::CmpGt,
        IcmpKind::IcmpUgt => CmpOp::CmpGt,
        IcmpKind::IcmpSle => CmpOp::CmpLe,
        IcmpKind::IcmpUle => CmpOp::CmpLe,
        IcmpKind::IcmpSlt => CmpOp::CmpLt,
        IcmpKind::IcmpUlt => CmpOp::CmpLt,
    }
}

fn cmp_of_icmp_exec(k: IcmpKind) -> (r: CmpOp)
    ensures
        r == cmp_of_icmp(k),
{
    match k {
        IcmpKind::IcmpEq => CmpOp::CmpEq,
        IcmpKind::IcmpNe => CmpOp::CmpNe,
        IcmpKind::IcmpSge => CmpOp::CmpGe,
        IcmpKind::IcmpUge => CmpOp::CmpGe,
        IcmpKind::IcmpSgt => CmpOp::CmpGt,
        IcmpKind::IcmpUgt => CmpOp::CmpGt,
        IcmpKind::IcmpSle => CmpOp::CmpLe,
        IcmpKind::IcmpUle => CmpOp::CmpLe,
        IcmpKind::IcmpSlt => CmpOp::CmpLt,
        IcmpKind::IcmpUlt => CmpOp::CmpLt,
    }
}

/// The name of the overflow-checked multiply intrinsic the compiler
/// understands.
pub open spec fn smul_name() -> Seq<char> {
    "llvm.smul.with.overflow.i32"@
}

/// What one instruction compiles to: the standing equalities its operand
/// resolutions emit, in resolution order, and the assignment predicate
/// relating its result name to its operand names, when the opcode is
/// supported and the operands are well formed.
pub open spec fn instr_comp(i: Instr) -> (Seq<BoolExprV>, Option<BoolExprV>) {
    match i.opcode {
        Opcode::OpCall => {
            match i.callee {
                Some(c) => if c@ == smul_name() {
                    match spec_resolve(i.printed@) {
                        None => (Seq::empty(), None),
                        Some(l) => {
                            let al = rv_asserts(Some(l));
                            match (op_text(i, 0), op_text(i, 1)) {
                                (Some(o0), Some(o1)) => match spec_resolve(o0) {
                                    None => (al, None),
                                    Some(x) => {
                                        let ax = al + rv_asserts(Some(x));
                                        match spec_resolve(o1) {
                                            None => (ax, None),
                                            Some(y) => (
                                                ax + rv_asserts(Some(y)),
                                                Some(
                                                    BoolExprV::BCmp(
                                                        CmpOp::CmpEq,
                                                        IntExprV::IVar(resolved_name(l)),
                                                        IntExprV::IMul(
                                                            Box::new(
                                                                IntExprV::IVar(resolved_name(x)),
                                                            ),
                                                            Box::new(
                                                                IntExprV::IVar(resolved_name(y)),
                                                            ),
                                                        ),
                                                    ),
                                                ),
                                            ),
                                        }
                                    },
                                },
                                _ => (al, None),
                            }
                        },
                    }
                } else {
                    (Seq::empty(), None)
                },
                None => (Seq::empty(), None),
            }
        },
        Opcode::OpLoad => {
            match op_text(i, 0) {
                None => (Seq::empty(), None),
                Some(o0) => match spec_resolve(i.printed@) {
                    None => (Seq::empty(), None),
                    Some(l) => {
                        let al = rv_asserts(Some(l));
                        match spec_resolve(o0) {
                            None => (al, None),
                            Some(x) => (
                                al + rv_asserts(Some(x)),
                                Some(
                                    BoolExprV::BCmp(
                                        CmpOp::CmpEq,
                                        IntExprV::IVar(resolved_name(l)),
                                        IntExprV::IVar(resolved_name(x)),
                                    ),
                                ),
                            ),
                        }
                    },
                },
            }
        },
        Opcode::OpStore => {
            match (op_text(i, 0), op_text(i, 1)) {
                (Some(o0), Some(o1)) => match spec_resolve(o0) {
                    None => (Seq::empty(), None),
                    Some(l) => {
                        let al = rv_asserts(Some(l));
                        match spec_resolve(o1) {
                            None => (al, None),
                            Some(x) => (
                                al + rv_asserts(Some(x)),
                                Some(
                                    BoolExprV::BCmp(
                                        CmpOp::CmpEq,
                                        IntExprV::IVar(resolved_name(l)),
                                        IntExprV::IVar(resolved_name(x)),
                                    ),
                                ),
                            ),
                        }
                    },
                },
                _ => (Seq::empty(), None),
            }
        },
        Opcode::OpXor => {
            match (op_text(i, 0), op_text(i, 1)) {
                (Some(o0), Some(o1)) => match spec_resolve(o0) {
                    None => (Seq::empty(), None),
                    Some(x) => {
                        let ax = rv_asserts(Some(x));
                        match spec_resolve(o1) {
                            None => (ax, None),
                            Some(y) => {
                                let ay = ax + rv_asserts(Some(y));
                                match spec_resolve(i.printed@) {
                                    None => (ay, None),
                                    Some(l) => (
                                        ay + rv_asserts(Some(l)),
                                        Some(
                                            BoolExprV::BEqBool(
                                                Box::new(BoolExprV::BVar(resolved_name(l))),
                                                Box::new(
                                                    BoolExprV::BXor(
                                                        Box::new(
                                                            BoolExprV::BVar(resolved_name(x)),
                                                        ),
                                                        Box::new(
                                                            BoolExprV::BVar(resolved_name(y)),
                                                        ),
                                                    ),
                                                ),
                                            ),
                                        ),
                                    ),
                                }
                            },
                        }
                    },
                },
                _ => (Seq::empty(), None),
            }
        },
        Opcode::OpICmp => {
            match spec_resolve(i.printed@) {
                None => (Seq::empty(), None),
                Some(l) => {
                    let al = rv_asserts(Some(l));
                    match (op_text(i, 0), op_text(i, 1)) {
                        (Some(o0), Some(o1)) => match spec_resolve(o0) {
                            None => (al, None),
                            Some(x) => {
                                let ax = al + rv_asserts(Some(x));
                                match spec_resolve(o1) {
                                    None => (ax, None),
                                    Some(y) => {
                                        let ay = ax + rv_asserts(Some(y));
                                        match i.icmp {
                                            Some(k) => (
                                                ay,
                                                Some(
                                                    BoolExprV::BEqBool(
                                                        Box::new(
                                                            BoolExprV::BVar(resolved_name(l)),
                                                        ),
                                                        Box::new(
                                                            BoolExprV::BCmp(
                                                                cmp_of_icmp(k),
                                                                IntExprV::IVar(resolved_name(x)),
                                                                IntExprV::IVar(resolved_name(y)),
                                                            ),
                                                        ),
                                                    ),
                                                ),
                                            ),
                                            None => (ay, None),
                                        }
                                    },
                                }
                            },
                        },
                        _ => (al, None),
                    }
                },
            }
        },
        Opcode::OpExtractValue => {
            match spec_resolve(i.printed@) {
                None => (Seq::empty(), None),
                Some(l) => {
                    let al = rv_asserts(Some(l));
                    match op_text(i, 0) {
                        None => (al, None),
                        Some(o0) => match spec_resolve(o0) {
                            None => (al, None),
                            Some(x) => {
                                let ax = al + rv_asserts(Some(x));
                                match spec_field_to_extract(i.printed@) {
                                    None => (ax, None),
                                    Some(fld) => {
                                        let rn = resolved_name(x) + seq!['.'] + fld;
                                        if i.ty@ == "i1"@ {
                                            (
                                                ax,
                                                Some(
                                                    BoolExprV::BEqBool(
                                                        Box::new(
                                                            BoolExprV::BVar(resolved_name(l)),
                                                        ),
                                                        Box::new(BoolExprV::BVar(rn)),
                                                    ),
                                                ),
                                            )
                                        } else if i.ty@ == "i32"@ {
                                            (
                                                ax,
                                                Some(
                                                    BoolExprV::BCmp(
                                                        CmpOp::CmpEq,
                                                        IntExprV::IVar(resolved_name(l)),
                                                        IntExprV::IVar(rn),
                                                    ),
                                                ),
                                            )
                                        } else {
                                            (ax, None)
                                        }
                                    },
                                }
                            },
                        },
                    }
                },
            }
        },
        _ => (Seq::empty(), None),
    }
}

/// Compare a string against a literal.
pub fn str_eq_lit(s: &str, lit: &str) -> (r: bool)
    ensures
        r == (s@ == lit@),
{
    let a = chars_of_str(s);
    let b = chars_of_str(lit);
    crate::names::chars_eq(&a, &b)
}

/// Compile one instruction: push the standing equalities its resolutions
/// emit and return its assignment predicate, if any.
#[verifier::rlimit(80)]
pub fn compile_instr(i: &Instr, out: &mut Vec<BoolExpr>) -> (r: Option<BoolExpr>)
    ensures
        views_of(final(out)@) == views_of(old(out)@) + instr_comp(*i).0,
        match r {
            Some(a) => instr_comp(*i).1 == Some(bool_view(a)),
            None => instr_comp(*i).1 is None,
        },
{
    let ghost base = out@;
    proof {
        reveal_with_fuel(bool_view, 5);
        reveal_with_fuel(crate::term::int_view, 5);
        assert(views_of(base) + Seq::<BoolExprV>::empty() =~= views_of(base));
    }
    match i.opcode {
        Opcode::OpCall => {
            let is_smul: bool = match &i.callee {
                Some(c) => str_eq_lit(c.as_str(), "llvm.smul.with.overflow.i32"),
                None => false,
            };
            if !is_smul {
                return None;
            }
            let pc = chars_of_str(i.printed.as_str());
            let l = match resolve_chars(&pc) {
                Some(l) => l,
                None => {
                    return None;
                },
            };
            push_rv_asserts(out, &l);
            let o0 = op_text_chars(i, 0);
            let o1 = op_text_chars(i, 1);
            let (o0, o1) = match (o0, o1) {
                (Some(a), Some(b)) => (a, b),
                _ => {
                    return None;
                },
            };
            let x = match resolve_chars(&o0) {
                Some(x) => x,
                None => {
                    return None;
                },
            };
            push_rv_asserts(out, &x);
            let y = match resolve_chars(&o1) {
                Some(y) => y,
                None => {
                    proof {
                        assert(views_of(out@) =~= views_of(base) + instr_comp(*i).0);
                    }
                    return None;
                },
            };
            push_rv_asserts(out, &y);
            proof {
                assert(views_of(out@) =~= views_of(base) + instr_comp(*i).0);
            }
            Some(
                BoolExpr::BCmp(
                    CmpOp::CmpEq,
                    IntExpr::IVar(resolved_name_chars(&l)),
                    IntExpr::IMul(
                        Box::new(IntExpr::IVar(resolved_name_chars(&x))),
                        Box::new(IntExpr::IVar(resolved_name_chars(&y))),
                    ),
                ),
            )
        },
        Opcode::OpLoad => {
            let o0 = match op_text_chars(i, 0) {
                Some(a) => a,
                None => {
                    return None;
                },
            };
            let pc = chars_of_str(i.printed.as_str());
            let l = match resolve_chars(&pc) {
                Some(l) => l,
                None => {
                    return None;
                },
            };
            push_rv_asserts(out, &l);
            let x = match resolve_chars(&o0) {
                Some(x) => x,
                None => {
                    return None;
                },
            };
            push_rv_asserts(out, &x);
            proof {
                assert(views_of(out@) =~= views_of(base) + instr_comp(*i).0);
            }
            Some(
                BoolExpr::BCmp(
                    CmpOp::CmpEq,
                    IntExpr::IVar(resolved_name_chars(&l)),
                    IntExpr::IVar(resolved_name_chars(&x)),
                ),
            )
        },
        Opcode::OpStore => {
            let o0 = op_text_chars(i, 0);
            let o1 = op_text_chars(i, 1);
            let (o0, o1) = match (o0, o1) {
                (Some(a), Some(b)) => (a, b),
                _ => {
                    return None;
                },
            };
            let l = match resolve_chars(&o0) {
                Some(l) => l,
                None => {
                    return None;
                },
            };
            push_rv_asserts(out, &l);
            let x = match resolve_chars(&o1) {
                Some(x) => x,
                None => {
                    return None;
                },
            };
            push_rv_asserts(out, &x);
            proof {
                assert(views_of(out@) =~= views_of(base) + instr_comp(*i).0);
            }
            Some(
                BoolExpr::BCmp(
                    CmpOp::CmpEq,
                    IntExpr::IVar(resolved_name_chars(&l)),
                    IntExpr::IVar(resolved_name_chars(&x)),
                ),
            )
        },
        Opcode::OpXor => {
            let o0 = op_text_chars(i, 0);
            let o1 = op_text_chars(i, 1);
            let (o0, o1) = match (o0, o1) {
                (Some(a), Some(b)) => (a, b),
                _ => {
                    return None;
                },
            };
            let x = match resolve_chars(&o0) {
                Some(x) => x,
                None => {
                    return None;
                },
            };
            push_rv_asserts(out, &x);
            let y = match resolve_chars(&o1) {
                Some(y) => y,
                None => {
                    return None;
                },
            };
            push_rv_asserts(out, &y);
            let pc = chars_of_str(i.printed.as_str());
            let l = match resolve_chars(&pc) {
                Some(l) => l,
                None => {
                    proof {
                        assert(views_of(out@) =~= views_of(base) + instr_comp(*i).0);
                    }
                    return None;
                },
            };
            push_rv_asserts(out, &l);
            proof {
                assert(views_of(out@) =~= views_of(base) + instr_comp(*i).0);
            }
            Some(
                BoolExpr::BEqBool(
                    Box::new(BoolExpr::BVar(resolved_name_chars(&l))),
                    Box::new(
                        BoolExpr::BXor(
                            Box::new(BoolExpr::BVar(resolved_name_chars(&x))),
                            Box::new(BoolExpr::BVar(resolved_name_chars(&y))),
                        ),
                    ),
                ),
            )
        },
        Opcode::OpICmp => {
            let pc = chars_of_str(i.printed.as_str());
            let l = match resolve_chars(&pc) {
                Some(l) => l,
                None => {
                    return None;
                },
            };
            push_rv_asserts(out, &l);
            let o0 = op_text_chars(i, 0);
            let o1 = op_text_chars(i, 1);
            let (o0, o1) = match (o0, o1) {
                (Some(a), Some(b)) => (a, b),
                _ => {
                    return None;
                },
            };
            let x = match resolve_chars(&o0) {
                Some(x) => x,
                None => {
                    return None;
                },
            };
            push_rv_asserts(out, &x);
            let y = match resolve_chars(&o1) {
                Some(y) => y,
                None => {
                    proof {
                        assert(views_of(out@) =~= views_of(base) + instr_comp(*i).0);
                    }
                    return None;
                },
            };
            push_rv_asserts(out, &y);
            proof {
                assert(views_of(out@) =~= views_of(base) + instr_comp(*i).0);
            }
            let k = match &i.icmp {
                Some(k) => *k,
                None => {
                    return None;
                },
            };
            Some(
                BoolExpr::BEqBool(
                    Box::new(BoolExpr::BVar(resolved_name_chars(&l))),
                    Box::new(
                        BoolExpr::BCmp(
                            cmp_of_icmp_exec(k),
                            IntExpr::IVar(resolved_name_chars(&x)),
                            IntExpr::IVar(resolved_name_chars(&y)),
                        ),
                    ),
                ),
            )
        },
        Opcode::OpExtractValue => {
            let pc = chars_of_str(i.printed.as_str());
            let l = match resolve_chars(&pc) {
                Some(l) => l,
                None => {
                    return None;
                },
            };
            push_rv_asserts(out, &l);
            let o0 = match op_text_chars(i, 0) {
                Some(a) => a,
                None => {
                    return None;
                },
            };
            let x = match resolve_chars(&o0) {
                Some(x) => x,
                None => {
                    return None;
                },
            };
            push_rv_asserts(out, &x);
            proof {
                assert(views_of(out@) =~= views_of(base) + instr_comp(*i).0);
            }
            let fld = match get_field_to_extract(&pc) {
                Some(fld) => fld,
                None => {
                    return None;
                },
            };
            let mut rn = resolved_name_chars(&x);
            rn.push('.');
            let mut fi: usize = 0;
            while fi < fld.len()
                invariant
                    0 <= fi <= fld.len(),
                    rn@ == resolved_name(x@) + seq!['.'] + fld@.subrange(0, fi as int),
                decreases fld.len() - fi,
            {
                rn.push(fld[fi]);
                proof {
                    assert(rn@ =~= resolved_name(x@) + seq!['.'] + fld@.subrange(0, fi as int + 1));
                }
                fi += 1;
            }
            proof {
                assert(rn@ =~= resolved_name(x@) + seq!['.'] + fld@);
                assert(rn@ == resolved_name(x@) + seq!['.'] + spec_field_to_extract(
                    i.printed@,
                ).unwrap());
            }
            if str_eq_lit(i.ty.as_str(), "i1") {
                Some(
                    BoolExpr::BEqBool(
                        Box::new(BoolExpr::BVar(resolved_name_chars(&l))),
                        Box::new(BoolExpr::BVar(rn)),
                    ),
                )
            } else if str_eq_lit(i.ty.as_str(), "i32") {
                Some(
                    BoolExpr::BCmp(
                        CmpOp::CmpEq,
                        IntExpr::IVar(resolved_name_chars(&l)),
                        IntExpr::IVar(rn),
                    ),
                )
            } else {
                None
            }
        },
        _ => {
            None
        },
    }
}

/// Whether a block's terminator marks a cleanup (panic) exit.
#[derive(Clone, Copy, PartialEq, Eq, Structural, Debug)]
pub enum IsCleanup {
    Yes,
    No,
    Unknown,
}

/// How a block's terminator classifies for panic detection: `unreachable`
/// is a panic exit; return, branch and switch are ordinary exits; anything
/// else is unknown.
pub open spec fn spec_is_panic_block(b: BasicBlock) -> IsCleanup {
    match spec_terminator(b) {
        Some(t) => match t.opcode {
            Opcode::OpUnreachable => IsCleanup::Yes,
            Opcode::OpReturn => IsCleanup::No,
            Opcode::OpBr => IsCleanup::No,
            Opcode::OpSwitch => IsCleanup::No,
            _ => IsCleanup::Unknown,
        },
        None => IsCleanup::Unknown,
    }
}

/// Classify a block for panic detection.
pub fn is_panic_block(b: &BasicBlock) -> (r: IsCleanup)
    ensures
        r == spec_is_panic_block(*b),
{
    match b.terminator() {
        Some(t) => match t.opcode {
            Opcode::OpUnreachable => IsCleanup::Yes,
            Opcode::OpReturn => IsCleanup::No,
            Opcode::OpBr => IsCleanup::No,
            Opcode::OpSwitch => IsCleanup::No,
            _ => IsCleanup::Unknown,
        },
        None => IsCleanup::Unknown,
    }
}

/// The value the panic flag is bound to at a terminal-predecessor block,
/// when the terminator pins one down.
pub open spec fn panic_kind(b: BasicBlock) -> Option<bool> {
    match spec_is_panic_block(b) {
        IsCleanup::Yes => Some(true),
        IsCleanup::No => Some(false),
        IsCleanup::Unknown => None,
    }
}

/// The conjunction of the successor predicate variables, folded in list
/// order over an initial `true`.
pub open spec fn succ_fold(f: Function, succs: Seq<usize>, k: nat) -> BoolExprV
    decreases k,
{
    if k == 0 || k > succs.len() {
        BoolExprV::BLit(true)
    } else {
        BoolExprV::BAnd(
            Box::new(succ_fold(f, succs, (k - 1) as nat)),
            Box::new(BoolExprV::BVar(node_name(f, succs[k - 1]))),
        )
    }
}

/// The weakest-precondition chain: each instruction's assignment, from the
/// first to the last, becomes an implication wrapped around `inner`.
pub open spec fn wp_chain(instrs: Seq<Instr>, j: int, inner: BoolExprV) -> BoolExprV
    decreases instrs.len() - j,
{
    if j < 0 || j >= instrs.len() {
        inner
    } else {
        match instr_comp(instrs[j]).1 {
            Some(a) => BoolExprV::BImplies(Box::new(a), Box::new(wp_chain(instrs, j + 1, inner))),
            None => wp_chain(instrs, j + 1, inner),
        }
    }
}

/// The standing equalities the instruction walk emits: the block is walked
/// from its last instruction to its first, `k` counting the instructions
/// already walked.
pub open spec fn asserts_from_end(instrs: Seq<Instr>, k: nat) -> Seq<BoolExprV>
    decreases k,
{
    if k == 0 || k > instrs.len() {
        Seq::empty()
    } else {
        asserts_from_end(instrs, (k - 1) as nat) + instr_comp(
            instrs[instrs.len() - k],
        ).0
    }
}

/// The boolean guard under which predecessor `p` passes control to node
/// `v`: for a conditional branch, the discriminant pinned to the side that
/// names `v` first; `true` for every other supported terminator and as the
/// fallback for unsupported or malformed ones.
pub open spec fn entry_cond(f: Function, p: usize, v: usize) -> BoolExprV {
    if (p as int) < f.blocks.len() {
        match spec_terminator(f.blocks[p as int]) {
            Some(t) => match t.opcode {
                Opcode::OpBr => if t.operands.len() == 3 {
                    match op_text(t, 0) {
                        Some(d) => match spec_resolve(d) {
                            Some(rv) => BoolExprV::BEqBool(
                                Box::new(BoolExprV::BVar(resolved_name(rv))),
                                Box::new(
                                    BoolExprV::BLit(operand_target(f, t.operands[1]) == Some(v)),
                                ),
                            ),
                            None => BoolExprV::BLit(true),
                        },
                        None => BoolExprV::BLit(true),
                    }
                } else {
                    BoolExprV::BLit(true)
                },
                _ => BoolExprV::BLit(true),
            },
            None => BoolExprV::BLit(true),
        }
    } else {
        BoolExprV::BLit(true)
    }
}

/// The standing equalities resolving the discriminant of `p`'s terminator
/// emits.
pub open spec fn entry_cond_asserts(f: Function, p: usize) -> Seq<BoolExprV> {
    if (p as int) < f.blocks.len() {
        match spec_terminator(f.blocks[p as int]) {
            Some(t) => match t.opcode {
                Opcode::OpBr => if t.operands.len() == 3 {
                    match op_text(t, 0) {
                        Some(d) => rv_asserts(spec_resolve(d)),
                        None => Seq::empty(),
                    }
                } else {
                    Seq::empty()
                },
                _ => Seq::empty(),
            },
            None => Seq::empty(),
        }
    } else {
        Seq::empty()
    }
}

/// The conjunction of the entry conditions of the first `k` predecessors,
/// folded in list order over an initial `true`.
pub open spec fn guard_fold(f: Function, preds: Seq<usize>, v: usize, k: nat) -> BoolExprV
    decreases k,
{
    if k == 0 || k > preds.len() {
        BoolExprV::BLit(true)
    } else {
        BoolExprV::BAnd(
            Box::new(guard_fold(f, preds, v, (k - 1) as nat)),
            Box::new(entry_cond(f, preds[k - 1], v)),
        )
    }
}

/// The standing equalities emitted while building the guards of the first
/// `k` predecessors.
pub open spec fn entry_asserts_fold(f: Function, preds: Seq<usize>, k: nat) -> Seq<BoolExprV>
    decreases k,
{
    if k == 0 || k > preds.len() {
        Seq::empty()
    } else {
        entry_asserts_fold(f, preds, (k - 1) as nat) + entry_cond_asserts(f, preds[k - 1])
    }
}

/// The consequent of a node's verification condition, before the guard:
/// the terminal node demands that no panic was flagged; a block wraps its
/// successor conjunction in its instruction chain, and, when it precedes
/// the terminal node and its terminator pins the panic flag, in that
/// binding too.
pub open spec fn node_inner(f: Function, v: usize) -> BoolExprV {
    let fold = succ_fold(f, spec_succ(f, v), spec_succ(f, v).len());
    if (v as int) == f.blocks.len() {
        BoolExprV::BAnd(
            Box::new(BoolExprV::BNot(Box::new(BoolExprV::BVar(panic_var_name())))),
            Box::new(fold),
        )
    } else {
        let b = f.blocks[v as int];
        let chain = wp_chain(b.instrs@, 0, fold);
        if spec_succ(f, v).contains(end_node(f)) {
            match panic_kind(b) {
                Some(pk) => BoolExprV::BImplies(
                    Box::new(
                        BoolExprV::BEqBool(
                            Box::new(BoolExprV::BVar(panic_var_name())),
                            Box::new(BoolExprV::BLit(pk)),
                        ),
                    ),
                    Box::new(chain),
                ),
                None => chain,
            }
        } else {
            chain
        }
    }
}

/// A node's verification condition: its guard implies its inner condition.
pub open spec fn node_phi(f: Function, v: usize) -> BoolExprV {
    BoolExprV::BImplies(
        Box::new(guard_fold(f, spec_preds(f, v), v, spec_preds(f, v).len())),
        Box::new(node_inner(f, v)),
    )
}

/// The assertion binding a node's predicate variable to its verification
/// condition.
pub open spec fn node_bind(f: Function, v: usize) -> BoolExprV {
    BoolExprV::BEqBool(Box::new(BoolExprV::BVar(node_name(f, v))), Box::new(node_phi(f, v)))
}

/// Everything compiling one node asserts, in emission order: the standing
/// equalities of the instruction walk, those of the guard construction,
/// and the binding of the node's predicate variable.
pub open spec fn node_script(f: Function, v: usize) -> Seq<BoolExprV> {
    let ia = if (v as int) < f.blocks.len() {
        asserts_from_end(f.blocks[v as int].instrs@, f.blocks[v as int].instrs.len() as nat)
    } else {
        Seq::empty()
    };
    ia + entry_asserts_fold(f, spec_preds(f, v), spec_preds(f, v).len()) + seq![node_bind(f, v)]
}

/// Build the entry condition for the edge from `p` to `v`, pushing the
/// standing equalities its discriminant resolution emits.
pub fn get_entry_condition(
    f: &Function,
    p: usize,
    v: usize,
    out: &mut Vec<BoolExpr>,
) -> (r: BoolExpr)
    requires
        (p as int) < f.blocks.len(),
    ensures
        bool_view(r) == entry_cond(*f, p, v),
        views_of(final(out)@) == views_of(old(out)@) + entry_cond_asserts(*f, p),
{
    let ghost base = out@;
    proof {
        reveal_with_fuel(bool_view, 4);
        assert(views_of(base) + Seq::<BoolExprV>::empty() =~= views_of(base));
    }
    match f.blocks[p].terminator() {
        Some(t) => {
            match t.opcode {
                Opcode::OpBr => {
                    if t.operands.len() == 3 {
                        match op_text_chars(t, 0) {
                            Some(d) => {
                                match resolve_chars(&d) {
                                    Some(rv) => {
                                        push_rv_asserts(out, &rv);
                                        let tv: bool = match &t.operands[1] {
                                            Operand::Target(tg) => *tg < f.blocks.len() && *tg
                                                == v,
                                            Operand::Text(_) => false,
                                        };
                                        let name = resolved_name_chars(&rv);
                                        BoolExpr::BEqBool(
                                            Box::new(BoolExpr::BVar(name)),
                                            Box::new(BoolExpr::BLit(tv)),
                                        )
                                    },
                                    None => BoolExpr::BLit(true),
                                }
                            },
                            None => BoolExpr::BLit(true),
                        }
                    } else {
                        BoolExpr::BLit(true)
                    }
                },
                _ => BoolExpr::BLit(true),
            }
        },
        None => BoolExpr::BLit(true),
    }
}

/// Compile one node: fold its successors, walk its instructions backward,
/// pin the panic flag where it precedes the terminal node, guard by its
/// predecessors' entry conditions, and bind its predicate variable.
#[verifier::rlimit(80)]
pub fn codegen_basic_block(
    f: &Function,
    v: usize,
    fwd: &Vec<Vec<usize>>,
    bwd: &Vec<Vec<usize>>,
    out: &mut Vec<BoolExpr>,
)
    requires
        (v as int) <= f.blocks.len(),
        f.blocks.len() < usize::MAX - 1,
        fwd@.len() == f.blocks.len() + 1,
        forall|u: int|
            0 <= u <= f.blocks.len() ==> (#[trigger] fwd@[u])@ == spec_succ(*f, u as usize),
        bwd@.len() == f.blocks.len() + 1,
        forall|d: int|
            0 <= d <= f.blocks.len() ==> (#[trigger] bwd@[d])@ == spec_preds(*f, d as usize),
    ensures
        views_of(final(out)@) == views_of(old(out)@) + node_script(*f, v),
{
    let ghost base = out@;
    proof {
        reveal_with_fuel(bool_view, 4);
    }
    let succs: &Vec<usize> = &fwd[v];
    let mut post: BoolExpr = BoolExpr::BLit(true);
    let mut k: usize = 0;
    while k < succs.len()
        invariant
            0 <= k <= succs.len(),
            succs@ == spec_succ(*f, v),
            f.blocks.len() < usize::MAX - 1,
            bool_view(post) == succ_fold(*f, spec_succ(*f, v), k as nat),
        decreases succs.len() - k,
    {
        proof {
            crate::cfg::lemma_succ_bound(*f, v);
            reveal_with_fuel(bool_view, 2);
        }
        let name = node_name_chars(f, succs[k]);
        post = BoolExpr::BAnd(Box::new(post), Box::new(BoolExpr::BVar(name)));
        k += 1;
    }
    let ghost fold0 = succ_fold(*f, spec_succ(*f, v), spec_succ(*f, v).len());
    if v == f.blocks.len() {
        let pv = panic_var_string();
        let pvc = chars_of_str(pv.as_str());
        post = BoolExpr::BAnd(
            Box::new(BoolExpr::BNot(Box::new(BoolExpr::BVar(pvc)))),
            Box::new(post),
        );
        proof {
            reveal_with_fuel(bool_view, 3);
            assert(bool_view(post) == node_inner(*f, v));
            assert(views_of(out@) =~= views_of(base) + Seq::<BoolExprV>::empty());
        }
    } else {
        let b: &BasicBlock = &f.blocks[v];
        let mut idx: usize = b.instrs.len();
        while idx > 0
            invariant
                0 <= idx <= b.instrs.len(),
                b == f.blocks[v as int],
                (v as int) < f.blocks.len(),
                bool_view(post) == wp_chain(b.instrs@, idx as int, fold0),
                fold0 == succ_fold(*f, spec_succ(*f, v), spec_succ(*f, v).len()),
                views_of(out@) == views_of(base) + asserts_from_end(
                    b.instrs@,
                    (b.instrs.len() - idx) as nat,
                ),
            decreases idx,
        {
            idx -= 1;
            let ghost pre = out@;
            let a = compile_instr(&b.instrs[idx], out);
            proof {
                reveal_with_fuel(bool_view, 2);
                assert(views_of(out@) =~= views_of(base) + asserts_from_end(
                    b.instrs@,
                    (b.instrs.len() - idx) as nat,
                ));
            }
            match a {
                Some(a) => {
                    post = BoolExpr::BImplies(Box::new(a), Box::new(post));
                },
                None => {},
            }
        }
        // pin the panic flag at predecessors of the terminal node
        if vec_contains_usize(succs, f.blocks.len()) {
            let pk: Option<bool> = match is_panic_block(b) {
                IsCleanup::Yes => Some(true),
                IsCleanup::No => Some(false),
                IsCleanup::Unknown => None,
            };
            match pk {
                Some(pk) => {
                    let pv = panic_var_string();
                    let pvc = chars_of_str(pv.as_str());
                    post = BoolExpr::BImplies(
                        Box::new(
                            BoolExpr::BEqBool(
                                Box::new(BoolExpr::BVar(pvc)),
                                Box::new(BoolExpr::BLit(pk)),
                            ),
                        ),
                        Box::new(post),
                    );
                },
                None => {},
            }
        }
        proof {
            reveal_with_fuel(bool_view, 4);
            assert(bool_view(post) == node_inner(*f, v));
        }
    }
    // guard by the predecessors' entry conditions
    let preds: &Vec<usize> = &bwd[v];
    let ghost mid = out@;
    let ghost ia = if (v as int) < f.blocks.len() {
        asserts_from_end(
            f.blocks[v as int].instrs@,
            f.blocks[v as int].instrs.len() as nat,
        )
    } else {
        Seq::<BoolExprV>::empty()
    };
    proof {
        assert(views_of(mid) == views_of(base) + ia);
    }
    let mut guard: BoolExpr = BoolExpr::BLit(true);
    let mut k: usize = 0;
    while k < preds.len()
        invariant
            0 <= k <= preds.len(),
            preds@ == spec_preds(*f, v),
            (v as int) <= f.blocks.len(),
            f.blocks.len() < usize::MAX - 1,
            bool_view(guard) == guard_fold(*f, spec_preds(*f, v), v, k as nat),
            bool_view(post) == node_inner(*f, v),
            ia == (if (v as int) < f.blocks.len() {
                asserts_from_end(
                    f.blocks[v as int].instrs@,
                    f.blocks[v as int].instrs.len() as nat,
                )
            } else {
                Seq::<BoolExprV>::empty()
            }),
            views_of(mid) == views_of(base) + ia,
            views_of(out@) == views_of(mid) + entry_asserts_fold(*f, spec_preds(*f, v), k as nat),
        decreases preds.len() - k,
    {
        proof {
            lemma_preds_bound(*f, v);
        }
        let c = get_entry_condition(f, preds[k], v, out);
        proof {
            reveal_with_fuel(bool_view, 2);
            assert(views_of(out@) =~= views_of(mid) + entry_asserts_fold(
                *f,
                spec_preds(*f, v),
                (k + 1) as nat,
            ));
        }
        guard = BoolExpr::BAnd(Box::new(guard), Box::new(c));
        k += 1;
    }
    post = BoolExpr::BImplies(Box::new(guard), Box::new(post));
    let nname = node_name_chars(f, v);
    let bind = BoolExpr::BEqBool(Box::new(BoolExpr::BVar(nname)), Box::new(post));
    proof {
        reveal_with_fuel(bool_view, 3);
        assert(bool_view(bind) == node_bind(*f, v));
    }
    out.push(bind);
    proof {
        let eaf = entry_asserts_fold(*f, spec_preds(*f, v), spec_preds(*f, v).len());
        assert(views_of(out@) =~= (views_of(mid) + eaf).push(node_bind(*f, v)));
        assert(node_script(*f, v) =~= (ia + eaf) + seq![node_bind(*f, v)]);
        assert(views_of(out@) =~= views_of(base) + node_script(*f, v));
    }
}

/// The range constraint a parameter contributes: integer parameters are
/// bounded to the signed range of their width, boolean parameters and
/// unsupported types are left unconstrained.
pub open spec fn param_comp(p: Param) -> Seq<BoolExprV> {
    if p.ty@ == "i1"@ {
        Seq::empty()
    } else if p.ty@ == "i32"@ || p.ty@ == "i64"@ {
        match spec_resolve(p.printed@) {
            None => Seq::empty(),
            Some(rv) => {
                let lo: i64 = if p.ty@ == "i32"@ {
                    -2147483648i64
                } else {
                    i64::MIN
                };
                let hi: i64 = if p.ty@ == "i32"@ {
                    2147483647i64
                } else {
                    i64::MAX
                };
                rv_asserts(Some(rv)) + seq![
                    BoolExprV::BAnd(
                        Box::new(
                            BoolExprV::BCmp(
                                CmpOp::CmpGe,
                                IntExprV::IVar(resolved_name(rv)),
                                IntExprV::ILit(lo),
                            ),
                        ),
                        Box::new(
                            BoolExprV::BCmp(
                                CmpOp::CmpLe,
                                IntExprV::IVar(resolved_name(rv)),
                                IntExprV::ILit(hi),
                            ),
                        ),
                    ),
                ]
            },
        }
    } else {
        Seq::empty()
    }
}

/// The constraints of the first `k` parameters, in order.
pub open spec fn params_fold(params: Seq<Param>, k: nat) -> Seq<BoolExprV>
    decreases k,
{
    if k == 0 || k > params.len() {
        Seq::empty()
    } else {
        params_fold(params, (k - 1) as nat) + param_comp(params[k - 1])
    }
}

/// Constrain every integer parameter to the signed range of its width.
pub fn constrain_params(f: &Function, out: &mut Vec<BoolExpr>)
    ensures
        views_of(final(out)@) == views_of(old(out)@) + params_fold(
            f.params@,
            f.params.len() as nat,
        ),
{
    let ghost base = out@;
    proof {
        assert(views_of(base) + Seq::<BoolExprV>::empty() =~= views_of(base));
    }
    let mut k: usize = 0;
    while k < f.params.len()
        invariant
            0 <= k <= f.params.len(),
            views_of(out@) == views_of(base) + params_fold(f.params@, k as nat),
        decreases f.params.len() - k,
    {
        let ghost pre = out@;
        let p: &Param = &f.params[k];
        if str_eq_lit(p.ty.as_str(), "i1") {
        } else if str_eq_lit(p.ty.as_str(), "i32") || str_eq_lit(p.ty.as_str(), "i64") {
            let pc = chars_of_str(p.printed.as_str());
            match resolve_chars(&pc) {
                None => {},
                Some(rv) => {
                    push_rv_asserts(out, &rv);
                    let lo: i64 = if str_eq_lit(p.ty.as_str(), "i32") {
                        -2147483648i64
                    } else {
                        i64::MIN
                    };
                    let hi: i64 = if str_eq_lit(p.ty.as_str(), "i32") {
                        2147483647i64
                    } else {
                        i64::MAX
                    };
                    let n1 = resolved_name_chars(&rv);
                    let n2 = resolved_name_chars(&rv);
                    let e = BoolExpr::BAnd(
                        Box::new(BoolExpr::BCmp(CmpOp::CmpGe, IntExpr::IVar(n1), IntExpr::ILit(lo))),
                        Box::new(BoolExpr::BCmp(CmpOp::CmpLe, IntExpr::IVar(n2), IntExpr::ILit(hi))),
                    );
                    proof {
                        reveal_with_fuel(bool_view, 3);
                        reveal_with_fuel(crate::term::int_view, 2);
                        assert(bool_view(e) == param_comp(f.params@[k as int])[rv_asserts(
                            Some(rv@),
                        ).len() as int]);
                    }
                    out.push(e);
                    proof {
                        assert(views_of(out@) =~= (views_of(pre) + rv_asserts(Some(rv@))).push(
                            bool_view(e),
                        ));
                        assert(param_comp(f.params@[k as int]) =~= rv_asserts(Some(rv@))
                            + seq![bool_view(e)]);
                        assert(views_of(out@) =~= views_of(pre) + param_comp(f.params@[k as int]));
                    }
                },
            }
        }
        proof {
            assert(views_of(out@) =~= views_of(base) + params_fold(f.params@, (k + 1) as nat));
        }
        k += 1;
    }
}

/// The scripts of the first `k` nodes of the backward order, concatenated.
pub open spec fn nodes_scripts(f: Function, bord: Seq<usize>, k: nat) -> Seq<BoolExprV>
    decreases k,
{
    if k == 0 || k > bord.len() {
        Seq::empty()
    } else {
        nodes_scripts(f, bord, (k - 1) as nat) + node_script(f, bord[k - 1])
    }
}

/// Everything compiling a whole function asserts, for the given backward
/// order: each node's script in that order, then the parameter ranges.
pub open spec fn spec_fn_script(f: Function, bord: Seq<usize>) -> Seq<BoolExprV> {
    nodes_scripts(f, bord, bord.len()) + params_fold(f.params@, f.params.len() as nat)
}

/// Compile a function: its nodes in backward topological order, then its
/// parameter range constraints. Nothing is produced when the graph is
/// cyclic, and the order is handed back beside the assertions.
pub fn codegen_function(f: &Function) -> (r: Option<(Vec<usize>, Vec<BoolExpr>)>)
    requires
        f.blocks.len() < usize::MAX - 1,
    ensures
        match r {
            None => !crate::topo::has_topo_order(*f),
            Some((bord, s)) => crate::topo::is_topo_order(*f, bord@.reverse()) && bord@
                == crate::topo::spec_forward_order(*f).reverse() && views_of(s@) == spec_fn_script(
                *f,
                bord@,
            ),
        },
{
    let bord = match crate::topo::backward_topological_sort(f) {
        Some(bord) => bord,
        None => {
            return None;
        },
    };
    let fwd = crate::cfg::get_forward_edges(f);
    let bwd = crate::cfg::get_backward_edges(f);
    let mut out: Vec<BoolExpr> = Vec::new();
    proof {
        assert(views_of(out@) =~= Seq::<BoolExprV>::empty());
        assert forall|k: int| 0 <= k < bord@.len() implies (#[trigger] bord@[k] as int)
            <= f.blocks.len() by {
            assert(bord@.reverse()[bord@.len() - 1 - k] == bord@[k]);
        }
    }
    let mut k: usize = 0;
    while k < bord.len()
        invariant
            0 <= k <= bord.len(),
            f.blocks.len() < usize::MAX - 1,
            forall|j: int| 0 <= j < bord@.len() ==> (#[trigger] bord@[j] as int) <= f.blocks.len(),
            fwd@.len() == f.blocks.len() + 1,
            forall|u: int|
                0 <= u <= f.blocks.len() ==> (#[trigger] fwd@[u])@ == spec_succ(*f, u as usize),
            bwd@.len() == f.blocks.len() + 1,
            forall|d: int|
                0 <= d <= f.blocks.len() ==> (#[trigger] bwd@[d])@ == spec_preds(*f, d as usize),
            views_of(out@) == nodes_scripts(*f, bord@, k as nat),
        decreases bord.len() - k,
    {
        let ghost pre = out@;
        codegen_basic_block(f, bord[k], &fwd, &bwd, &mut out);
        proof {
            assert(views_of(out@) =~= nodes_scripts(*f, bord@, (k + 1) as nat));
        }
        k += 1;
    }
    constrain_params(f, &mut out);
    proof {
        assert(views_of(out@) =~= spec_fn_script(*f, bord@));
    }
    Some((bord, out))
}

} // verus!
