//! Laws of the compiled model: a function without an `unreachable`
//! terminator compiles to an unsatisfiable analysis problem, so the
//! analyzer can never call it unsafe; one whose entry block panics at
//! once compiles to a satisfiable one, so it is never called safe;
//! appending a dead exit block leaves satisfiability untouched; and
//! re-analysis poses the identical problem.

use vstd::prelude::*;

use crate::analysis::{env_models, models_exists};
use crate::cfg::{end_node, lemma_succ_bound, spec_edge, spec_preds, spec_succ};
use crate::compile::{
    entry_cond, guard_fold, instr_comp, node_bind, node_inner, node_name, node_phi, node_script,
    panic_kind, rv_asserts, spec_is_panic_block, succ_fold, wp_chain, IsCleanup,
};
use crate::ir::{
    common_end_name, no_unreachable_terminator, panic_var_name, spec_terminator, BasicBlock,
    Function, Instr, Opcode, Operand,
};
use crate::term::{eval_bool, satisfies_all, BoolExprV, SmtEnv};
use crate::topo::{has_topo_order, is_topo_order, lemma_distinct_bounded_full};

verus! {

/// The successor conjunction holds exactly when every successor's
/// predicate variable does.
proof fn lemma_eval_succ_fold(env: SmtEnv, f: Function, succs: Seq<usize>, k: nat)
    requires
        k <= succs.len(),
    ensures
        eval_bool(env, succ_fold(f, succs, k)) <==> (forall|i: int|
            0 <= i < k ==> env.bools[node_name(f, #[trigger] succs[i])]),
    decreases k,
{
    reveal_with_fuel(eval_bool, 3);
    if k != 0 {
        lemma_eval_succ_fold(env, f, succs, (k - 1) as nat);
    }
}

/// The guard conjunction holds exactly when every entry condition does.
proof fn lemma_eval_guard_fold(env: SmtEnv, f: Function, preds: Seq<usize>, v: usize, k: nat)
    requires
        k <= preds.len(),
    ensures
        eval_bool(env, guard_fold(f, preds, v, k)) <==> (forall|i: int|
            0 <= i < k ==> eval_bool(env, entry_cond(f, #[trigger] preds[i], v))),
    decreases k,
{
    reveal_with_fuel(eval_bool, 3);
    if k != 0 {
        lemma_eval_guard_fold(env, f, preds, v, (k - 1) as nat);
    }
}

/// An implication chain whose innermost consequent holds, holds.
proof fn lemma_chain_true(env: SmtEnv, instrs: Seq<Instr>, j: int, inner: BoolExprV)
    requires
        eval_bool(env, inner),
    ensures
        eval_bool(env, wp_chain(instrs, j, inner)),
    decreases instrs.len() - j,
{
    reveal_with_fuel(eval_bool, 3);
    if !(j < 0 || j >= instrs.len()) {
        lemma_chain_true(env, instrs, j + 1, inner);
    }
}

/// The terminal node stands in a successor list only for a `ret` or
/// `unreachable` terminator, and then alone.
proof fn lemma_end_succ_singleton(f: Function, v: usize)
    requires
        (v as int) < f.blocks.len(),
        spec_succ(f, v).contains(end_node(f)),
    ensures
        spec_succ(f, v) == seq![end_node(f)],
        spec_terminator(f.blocks[v as int]) matches Some(t) && (t.opcode == Opcode::OpReturn
            || t.opcode == Opcode::OpUnreachable),
{
    lemma_succ_bound(f, v);
    let s = spec_succ(f, v);
    let i = choose|i: int| 0 <= i < s.len() && s[i] == end_node(f);
    match spec_terminator(f.blocks[v as int]) {
        Some(t) => {
            if t.opcode == Opcode::OpReturn || t.opcode == Opcode::OpUnreachable {
                assert(s =~= seq![end_node(f)]);
            } else {
                // every other terminator's targets are blocks
                if t.opcode is OpBr {
                    assert(false);
                } else if t.opcode is OpSwitch {
                    crate::cfg::lemma_switch_targets_bound(f, t.operands@, t.operands.len() as nat);
                    assert(false);
                } else {
                    assert(false);
                }
            }
        },
        None => {
            assert(false);
        },
    }
}

/// Every predecessor of the terminal node enters it unconditionally.
proof fn lemma_end_guard_true(env: SmtEnv, f: Function)
    ensures
        eval_bool(
            env,
            guard_fold(
                f,
                spec_preds(f, end_node(f)),
                end_node(f),
                spec_preds(f, end_node(f)).len(),
            ),
        ),
{
    reveal_with_fuel(eval_bool, 2);
    let preds = spec_preds(f, end_node(f));
    lemma_eval_guard_fold(env, f, preds, end_node(f), preds.len());
    crate::cfg::lemma_preds_bound(f, end_node(f));
    assert forall|i: int| 0 <= i < preds.len() implies eval_bool(
        env,
        entry_cond(f, #[trigger] preds[i], end_node(f)),
    ) by {
        let p = preds[i];
        crate::cfg::lemma_edge_maps_mutual_inverses(f, p, end_node(f));
        assert(spec_edge(f, p, end_node(f)));
        lemma_end_succ_singleton(f, p);
    }
}

/// The binding of node `v` holds under `env`.
proof fn lemma_bind_of(env: SmtEnv, f: Function, v: usize)
    requires
        satisfies_all(env, node_script(f, v)),
    ensures
        env.bools[node_name(f, v)] == eval_bool(env, node_phi(f, v)),
{
    reveal_with_fuel(eval_bool, 3);
    let ns = node_script(f, v);
    assert(ns[ns.len() - 1] == node_bind(f, v));
    assert(eval_bool(env, node_bind(f, v)));
}

/// Under any assignment satisfying every node's assertions, the terminal
/// node's variable mirrors the negated panic flag, and every block's
/// variable is true — by induction down the topological order.
proof fn lemma_claim_at(env: SmtEnv, f: Function, ord: Seq<usize>, k: int)
    requires
        forall|v: usize|
            (v as int) <= f.blocks.len() ==> satisfies_all(env, #[trigger] node_script(f, v)),
        is_topo_order(f, ord),
        no_unreachable_terminator(f),
        0 <= k < ord.len(),
    ensures
        (ord[k] as int) == f.blocks.len() ==> env.bools[common_end_name()] == !env.bools[
            panic_var_name()
        ],
        (ord[k] as int) < f.blocks.len() ==> env.bools[node_name(f, ord[k])],
    decreases ord.len() - k,
{
    reveal_with_fuel(eval_bool, 4);
    let v = ord[k];
    lemma_bind_of(env, f, v);
    let succs = spec_succ(f, v);
    lemma_eval_succ_fold(env, f, succs, succs.len());
    if (v as int) == f.blocks.len() {
        // the terminal node: no successors, an unconditional guard
        lemma_end_guard_true(env, f);
        assert(succs =~= Seq::<usize>::empty());
        assert(eval_bool(env, succ_fold(f, succs, succs.len())));
        assert(env.bools[node_name(f, v)] == eval_bool(env, node_inner(f, v)));
        assert(node_name(f, v) == common_end_name());
    } else {
        let b = f.blocks[v as int];
        let fold = succ_fold(f, succs, succs.len());
        // every successor's claim holds: it sits later in the order
        assert forall|i: int| 0 <= i < succs.len() implies env.bools[node_name(
            f,
            #[trigger] succs[i],
        )] == (if (succs[i] as int) == f.blocks.len() {
            !env.bools[panic_var_name()]
        } else {
            true
        }) by {
            let s = succs[i];
            lemma_succ_bound(f, v);
            lemma_distinct_bounded_full(ord, (f.blocks.len()) as usize);
            assert(ord.contains(s));
            let j = choose|j: int| 0 <= j < ord.len() && ord[j] == s;
            assert(spec_edge(f, ord[k], ord[j]));
            assert(k < j);
            lemma_claim_at(env, f, ord, j);
            if (s as int) == f.blocks.len() {
                assert(node_name(f, s) == common_end_name());
            }
        }
        if succs.contains(end_node(f)) {
            lemma_end_succ_singleton(f, v);
            // no `unreachable` terminator: this is a `ret` block
            assert(spec_is_panic_block(b) == IsCleanup::No);
            assert(panic_kind(b) == Some(false));
            if env.bools[panic_var_name()] {
                // the panic binding's antecedent is false
                assert(eval_bool(env, node_inner(f, v)));
            } else {
                assert(succs[0] == end_node(f));
                assert(env.bools[node_name(f, end_node(f))] == !env.bools[panic_var_name()]);
                assert(eval_bool(env, fold));
                lemma_chain_true(env, b.instrs@, 0, fold);
                assert(eval_bool(env, node_inner(f, v)));
            }
        } else {
            assert forall|i: int| 0 <= i < succs.len() implies env.bools[node_name(
                f,
                #[trigger] succs[i],
            )] by {
                if (succs[i] as int) == f.blocks.len() {
                    assert(succs.contains(end_node(f)));
                }
            }
            assert(eval_bool(env, fold));
            lemma_chain_true(env, b.instrs@, 0, fold);
            assert(eval_bool(env, node_inner(f, v)));
        }
        assert(eval_bool(env, node_phi(f, v)));
    }
}

/// A function with no `unreachable` terminator and an acyclic graph
/// compiles to an unsatisfiable analysis problem: no assignment can both
/// satisfy every node's binding and falsify the entry block's predicate,
/// so the analyzer never reports such a function unsafe.
pub proof fn lemma_no_unreachable_unsatisfiable(f: Function)
    requires
        f.blocks.len() >= 1,
        has_topo_order(f),
        no_unreachable_terminator(f),
    ensures
        !models_exists(f),
{
    if models_exists(f) {
        let env = choose|env: SmtEnv| env_models(env, f);
        let ord = choose|ord: Seq<usize>| is_topo_order(f, ord);
        lemma_distinct_bounded_full(ord, (f.blocks.len()) as usize);
        assert(ord.contains(0usize));
        let k = choose|k: int| 0 <= k < ord.len() && ord[k] == 0usize;
        lemma_claim_at(env, f, ord, k);
        assert(env.bools[node_name(f, 0usize)]);
        assert(node_name(f, 0usize) == f.blocks[0].name@);
        assert(false);
    }
}

/// Re-analysis is stable: the analysis problem is a pure function of the
/// blocks and parameters, so two runs over equal functions put identical
/// constraints to the solver, and equal verdicts follow whenever the
/// solver answers conclusively.
pub proof fn lemma_reanalysis_same_problem(f: Function, g: Function)
    requires
        f == g,
    ensures
        forall|env: SmtEnv| env_models(env, f) == env_models(env, g),
        models_exists(f) == models_exists(g),
{
}

/// The integer value the constructed witness gives a name: constants
/// carry their literal, everything else sits at zero.
pub open spec fn int_const_value(k: Seq<char>) -> int {
    if k.len() >= 6 && k.subrange(0, 6) == "const_"@ {
        match crate::names::spec_parse_i32(k.skip(6)) {
            Some(v) => v as int,
            None => 0,
        }
    } else {
        0
    }
}

/// The boolean value the constructed witness gives a name: the panic flag
/// and the true constant hold, everything else fails.
pub open spec fn witness_bool_value(k: Seq<char>) -> bool {
    k == panic_var_name() || k == "const_true"@
}

proof fn lemma_param_satisfied(env: SmtEnv, p: crate::ir::Param)
    requires
        env.ints == Map::<Seq<char>, int>::new(|k: Seq<char>| true, |k: Seq<char>| int_const_value(k)),
        env.bools["const_true"@] == true,
        env.bools["const_false"@] == false,
    ensures
        satisfies_all(env, crate::compile::param_comp(p)),
{
    reveal_with_fuel(eval_bool, 6);
    reveal_strlit("const_");
    reveal_strlit("const_true");
    reveal_strlit("const_false");
    let pc = crate::compile::param_comp(p);
    if p.ty@ == "i1"@ || !(p.ty@ == "i32"@ || p.ty@ == "i64"@) {
        assert(satisfies_all(env, pc));
    } else {
        match crate::names::spec_resolve(p.printed@) {
            None => {
                assert(satisfies_all(env, pc));
            },
            Some(rv) => {
                let name = crate::names::resolved_name(rv);
                match rv {
                    crate::names::ResolvedView::Reg(n) => {
                        crate::names::lemma_reg_starts_with_sigil(p.printed@, n);
                        assert(int_const_value(name) == 0) by {
                            if name.len() >= 6 && name.subrange(0, 6) == "const_"@ {
                                assert(name[0] == "const_"@[0]);
                                assert(name[0] == 'c');
                            }
                        }
                        assert(env.ints[name] == 0);
                        assert forall|i: int| 0 <= i < pc.len() implies eval_bool(
                            env,
                            #[trigger] pc[i],
                        ) by {
                            assert(pc[i] == pc[0]);
                        }
                    },
                    crate::names::ResolvedView::BoolConst(b) => {
                        reveal_strlit("true");
                        reveal_strlit("false");
                        assert(env.bools[name] == b) by {
                            if b {
                                assert(name == "const_true"@);
                            } else {
                                assert(name == "const_false"@);
                            }
                        }
                        assert(int_const_value(name) == 0) by {
                            assert(name.subrange(0, 6) =~= "const_"@);
                            if b {
                                assert(name.skip(6) =~= "true"@);
                                assert(crate::names::spec_parse_i32(name.skip(6)) is None);
                            } else {
                                assert(name.skip(6) =~= "false"@);
                                assert(crate::names::spec_parse_i32(name.skip(6)) is None);
                            }
                        }
                        assert(eval_bool(env, pc[0]));
                        assert(eval_bool(env, pc[1]));
                        assert forall|i: int| 0 <= i < pc.len() implies eval_bool(
                            env,
                            #[trigger] pc[i],
                        ) by {
                            assert(pc.len() == 2);
                            if i == 0 {
                                assert(pc[i] == pc[0]);
                            } else {
                                assert(pc[i] == pc[1]);
                            }
                        }
                    },
                    crate::names::ResolvedView::IntConst(tok, v) => {
                        assert(env.ints[name] == v) by {
                            assert(name.subrange(0, 6) =~= "const_"@);
                            assert(name.skip(6) =~= tok);
                        }
                        assert(eval_bool(env, pc[0]));
                        assert(eval_bool(env, pc[1]));
                        assert forall|i: int| 0 <= i < pc.len() implies eval_bool(
                            env,
                            #[trigger] pc[i],
                        ) by {
                            assert(pc.len() == 2);
                            if i == 0 {
                                assert(pc[i] == pc[0]);
                            } else {
                                assert(pc[i] == pc[1]);
                            }
                        }
                    },
                }
            },
        }
    }
}

/// A function made of one block that ends at once in `unreachable`
/// compiles to a satisfiable analysis problem: some assignment reaches
/// the panic, so the analyzer never reports such a function safe.
pub proof fn lemma_entry_unreachable_reachable(f: Function)
    requires
        f.blocks.len() == 1,
        f.blocks[0].instrs.len() == 1,
        f.blocks[0].instrs[0].opcode == Opcode::OpUnreachable,
        crate::ir::good_block_name(f.blocks[0].name@),
    ensures
        models_exists(f),
{
    let t0 = f.blocks[0].instrs[0];
    assert(spec_terminator(f.blocks[0]) == Some(t0));
    assert(spec_succ(f, 0usize) =~= seq![1usize]);
    assert(spec_succ(f, 1usize) =~= Seq::<usize>::empty());
    assert(spec_preds(f, 0usize) =~= Seq::<usize>::empty()) by {
        reveal_with_fuel(crate::cfg::preds_upto, 4);
        assert(!spec_edge(f, 0usize, 0usize));
        assert(!spec_edge(f, 1usize, 0usize));
    }
    assert(crate::ir::good_block_names(f)) by {
        assert(forall|i: int|
            0 <= i < f.blocks.len() ==> crate::ir::good_block_name(#[trigger] f.blocks[i].name@));
    }
    let ord = seq![0usize, 1usize];
    assert(is_topo_order(f, ord)) by {
        assert(ord.no_duplicates());
        assert(forall|i: int| 0 <= i < ord.len() ==> (#[trigger] ord[i]) as int <= f.blocks.len());
        assert forall|k1: int, k2: int|
            0 <= k1 < ord.len() && 0 <= k2 < ord.len() && #[trigger] spec_edge(f, ord[k1], ord[k2])
            implies k1 < k2 by {
            if k1 == 0 && k2 == 0 {
                assert(!spec_succ(f, 0usize).contains(0usize));
            }
            if k1 == 1 {
                assert(!spec_succ(f, 1usize).contains(ord[k2]));
            }
        }
    }
    lemma_entry_unreachable_reachable_general(f);
}

/// A solver name the compiler mints for values rather than nodes: the
/// panic flag, an SSA register (with its `%`), or a constant.
pub open spec fn value_name(x: Seq<char>) -> bool {
    x == panic_var_name() || (x.len() > 0 && x[0] == '%') || (x.len() >= 6 && x.subrange(0, 6)
        == "const_"@)
}

proof fn lemma_resolved_name_value(s: Seq<char>, rv: crate::names::ResolvedView)
    requires
        crate::names::spec_resolve(s) == Some(rv),
    ensures
        value_name(crate::names::resolved_name(rv)),
        crate::names::resolved_name(rv) != panic_var_name(),
{
    reveal_strlit("const_");
    reveal_strlit("const_true");
    reveal_strlit("const_false");
    reveal_strlit("panic_var");
    let n = crate::names::resolved_name(rv);
    match rv {
        crate::names::ResolvedView::Reg(m) => {
            crate::names::lemma_reg_starts_with_sigil(s, m);
            assert(n[0] == '%');
            assert(panic_var_name()[0] == 'p');
        },
        crate::names::ResolvedView::BoolConst(b) => {
            if b {
                assert(n.subrange(0, 6) =~= "const_"@);
            } else {
                assert(n.subrange(0, 6) =~= "const_"@);
            }
            assert(n.len() >= 6);
            assert(n[0] == 'c');
            assert(panic_var_name()[0] == 'p');
        },
        crate::names::ResolvedView::IntConst(tok, _) => {
            assert(n.subrange(0, 6) =~= "const_"@);
            assert(n.len() >= 6);
            assert(n[0] == 'c');
            assert(panic_var_name()[0] == 'p');
        },
    }
}

/// Every boolean variable of the term satisfies the predicate.
pub open spec fn bool_vars_in(t: BoolExprV, p: spec_fn(Seq<char>) -> bool) -> bool
    decreases t,
{
    match t {
        BoolExprV::BLit(_) => true,
        BoolExprV::BVar(n) => p(n),
        BoolExprV::BNot(a) => bool_vars_in(*a, p),
        BoolExprV::BAnd(a, b) => bool_vars_in(*a, p) && bool_vars_in(*b, p),
        BoolExprV::BXor(a, b) => bool_vars_in(*a, p) && bool_vars_in(*b, p),
        BoolExprV::BImplies(a, b) => bool_vars_in(*a, p) && bool_vars_in(*b, p),
        BoolExprV::BEqBool(a, b) => bool_vars_in(*a, p) && bool_vars_in(*b, p),
        BoolExprV::BCmp(_, _, _) => true,
    }
}

proof fn lemma_eval_int_ints_only(e1: SmtEnv, e2: SmtEnv, t: crate::term::IntExprV)
    requires
        e1.ints == e2.ints,
    ensures
        crate::term::eval_int(e1, t) == crate::term::eval_int(e2, t),
    decreases t,
{
    match t {
        crate::term::IntExprV::IMul(a, b) => {
            lemma_eval_int_ints_only(e1, e2, *a);
            lemma_eval_int_ints_only(e1, e2, *b);
        },
        _ => {},
    }
}

/// Evaluation looks only at the variables occurring in the term: two
/// assignments agreeing there agree on the term.
proof fn lemma_eval_frame(e1: SmtEnv, e2: SmtEnv, t: BoolExprV)
    requires
        e1.ints == e2.ints,
        bool_vars_in(t, |x: Seq<char>| e1.bools[x] == e2.bools[x]),
    ensures
        eval_bool(e1, t) == eval_bool(e2, t),
    decreases t,
{
    match t {
        BoolExprV::BNot(a) => {
            lemma_eval_frame(e1, e2, *a);
        },
        BoolExprV::BAnd(a, b) => {
            lemma_eval_frame(e1, e2, *a);
            lemma_eval_frame(e1, e2, *b);
        },
        BoolExprV::BXor(a, b) => {
            lemma_eval_frame(e1, e2, *a);
            lemma_eval_frame(e1, e2, *b);
        },
        BoolExprV::BImplies(a, b) => {
            lemma_eval_frame(e1, e2, *a);
            lemma_eval_frame(e1, e2, *b);
        },
        BoolExprV::BEqBool(a, b) => {
            lemma_eval_frame(e1, e2, *a);
            lemma_eval_frame(e1, e2, *b);
        },
        BoolExprV::BCmp(_, a, b) => {
            lemma_eval_int_ints_only(e1, e2, a);
            lemma_eval_int_ints_only(e1, e2, b);
        },
        _ => {},
    }
}

proof fn lemma_instr_assign_vars(i: Instr, p: spec_fn(Seq<char>) -> bool)
    requires
        forall|x: Seq<char>| value_name(x) ==> #[trigger] p(x),
    ensures
        match instr_comp(i).1 {
            Some(a) => bool_vars_in(a, p),
            None => true,
        },
{
    reveal_with_fuel(bool_vars_in, 5);
    match i.opcode {
        Opcode::OpXor => {
            match (crate::compile::op_text(i, 0), crate::compile::op_text(i, 1)) {
                (Some(o0), Some(o1)) => {
                    match crate::names::spec_resolve(o0) {
                        Some(x) => {
                            lemma_resolved_name_value(o0, x);
                            match crate::names::spec_resolve(o1) {
                                Some(y) => {
                                    lemma_resolved_name_value(o1, y);
                                    match crate::names::spec_resolve(i.printed@) {
                                        Some(l) => {
                                            lemma_resolved_name_value(i.printed@, l);
                                        },
                                        None => {},
                                    }
                                },
                                None => {},
                            }
                        },
                        None => {},
                    }
                },
                _ => {},
            }
        },
        Opcode::OpICmp => {
            match crate::names::spec_resolve(i.printed@) {
                Some(l) => {
                    lemma_resolved_name_value(i.printed@, l);
                },
                None => {},
            }
        },
        Opcode::OpExtractValue => {
            match crate::names::spec_resolve(i.printed@) {
                Some(l) => {
                    lemma_resolved_name_value(i.printed@, l);
                    match crate::compile::op_text(i, 0) {
                        Some(o0) => {
                            match crate::names::spec_resolve(o0) {
                                Some(x) => {
                                    lemma_resolved_name_value(o0, x);
                                    match crate::names::spec_field_to_extract(i.printed@) {
                                        Some(fld) => {
                                            let bn = crate::names::resolved_name(x);
                                            let rn = bn + seq!['.'] + fld;
                                            assert(value_name(rn)) by {
                                                if bn.len() > 0 && bn[0] == '%' {
                                                    assert(rn[0] == bn[0]);
                                                } else {
                                                    assert(bn.len() >= 6 && bn.subrange(0, 6)
                                                        == "const_"@);
                                                    assert(rn.subrange(0, 6) =~= bn.subrange(
                                                        0,
                                                        6,
                                                    ));
                                                }
                                            }
                                        },
                                        None => {},
                                    }
                                },
                                None => {},
                            }
                        },
                        None => {},
                    }
                },
                None => {},
            }
        },
        _ => {},
    }
}

proof fn lemma_wp_chain_vars(
    instrs: Seq<Instr>,
    j: int,
    inner: BoolExprV,
    p: spec_fn(Seq<char>) -> bool,
)
    requires
        forall|x: Seq<char>| value_name(x) ==> #[trigger] p(x),
        bool_vars_in(inner, p),
    ensures
        bool_vars_in(wp_chain(instrs, j, inner), p),
    decreases instrs.len() - j,
{
    reveal_with_fuel(bool_vars_in, 5);
    if !(j < 0 || j >= instrs.len()) {
        lemma_instr_assign_vars(instrs[j], p);
        lemma_wp_chain_vars(instrs, j + 1, inner, p);
    }
}

proof fn lemma_succ_fold_vars(f: Function, succs: Seq<usize>, k: nat, p: spec_fn(Seq<char>) -> bool)
    requires
        k <= succs.len(),
        forall|i: int| 0 <= i < k ==> p(node_name(f, #[trigger] succs[i])),
    ensures
        bool_vars_in(succ_fold(f, succs, k), p),
    decreases k,
{
    reveal_with_fuel(bool_vars_in, 5);
    if k != 0 {
        lemma_succ_fold_vars(f, succs, (k - 1) as nat, p);
    }
}

proof fn lemma_entry_cond_vars(f: Function, pr: usize, v: usize, p: spec_fn(Seq<char>) -> bool)
    requires
        forall|x: Seq<char>| value_name(x) ==> #[trigger] p(x),
    ensures
        bool_vars_in(entry_cond(f, pr, v), p),
{
    reveal_with_fuel(bool_vars_in, 5);
    if (pr as int) < f.blocks.len() {
        match spec_terminator(f.blocks[pr as int]) {
            Some(t) => {
                if t.opcode is OpBr && t.operands.len() == 3 {
                    match crate::compile::op_text(t, 0) {
                        Some(d) => {
                            match crate::names::spec_resolve(d) {
                                Some(rv) => {
                                    lemma_resolved_name_value(d, rv);
                                },
                                None => {},
                            }
                        },
                        None => {},
                    }
                }
            },
            None => {},
        }
    }
}

proof fn lemma_guard_fold_vars(
    f: Function,
    preds: Seq<usize>,
    v: usize,
    k: nat,
    p: spec_fn(Seq<char>) -> bool,
)
    requires
        k <= preds.len(),
        forall|x: Seq<char>| value_name(x) ==> #[trigger] p(x),
    ensures
        bool_vars_in(guard_fold(f, preds, v, k), p),
    decreases k,
{
    reveal_with_fuel(bool_vars_in, 5);
    if k != 0 {
        lemma_guard_fold_vars(f, preds, v, (k - 1) as nat, p);
        lemma_entry_cond_vars(f, preds[k - 1], v, p);
    }
}

/// The verification condition of a node speaks only of value names and of
/// its successors' predicate variables.
proof fn lemma_phi_vars(f: Function, v: usize, p: spec_fn(Seq<char>) -> bool)
    requires
        (v as int) <= f.blocks.len(),
        forall|x: Seq<char>| value_name(x) ==> #[trigger] p(x),
        forall|i: int|
            0 <= i < spec_succ(f, v).len() ==> p(node_name(f, #[trigger] spec_succ(f, v)[i])),
    ensures
        bool_vars_in(node_phi(f, v), p),
{
    reveal_with_fuel(bool_vars_in, 5);
    reveal_strlit("panic_var");
    assert(value_name(panic_var_name()));
    assert(p(panic_var_name()));
    lemma_succ_fold_vars(f, spec_succ(f, v), spec_succ(f, v).len(), p);
    lemma_guard_fold_vars(f, spec_preds(f, v), v, spec_preds(f, v).len(), p);
    let fold = succ_fold(f, spec_succ(f, v), spec_succ(f, v).len());
    if (v as int) < f.blocks.len() {
        lemma_wp_chain_vars(f.blocks[v as int].instrs@, 0, fold, p);
        let chain = wp_chain(f.blocks[v as int].instrs@, 0, fold);
        assert(bool_vars_in(chain, p));
        if spec_succ(f, v).contains(end_node(f)) {
            match panic_kind(f.blocks[v as int]) {
                Some(pk) => {
                    assert(bool_vars_in(node_inner(f, v), p));
                },
                None => {
                    assert(bool_vars_in(node_inner(f, v), p));
                },
            }
        } else {
            assert(bool_vars_in(node_inner(f, v), p));
        }
    } else {
        assert(bool_vars_in(node_inner(f, v), p));
    }
    assert(bool_vars_in(node_phi(f, v), p));
}

/// The integer half of the constructed witness.
pub open spec fn witness_ints() -> Map<Seq<char>, int> {
    Map::new(|k: Seq<char>| true, |k: Seq<char>| int_const_value(k))
}

/// The boolean half of the witness before any node value is fixed.
pub open spec fn witness_base_bools() -> Map<Seq<char>, bool> {
    Map::new(|k: Seq<char>| true, |k: Seq<char>| witness_bool_value(k))
}

/// The boolean half of the witness with every node from position `k` on
/// bound to the value of its verification condition, walked from the end
/// of the order forward.
pub open spec fn witness_bools_at(f: Function, ord: Seq<usize>, k: int) -> Map<Seq<char>, bool>
    decreases ord.len() - k,
{
    if k < 0 || k >= ord.len() {
        witness_base_bools()
    } else {
        let prev = witness_bools_at(f, ord, k + 1);
        prev.insert(
            node_name(f, ord[k]),
            eval_bool(SmtEnv { bools: prev, ints: witness_ints() }, node_phi(f, ord[k])),
        )
    }
}

proof fn lemma_wb_agrees(f: Function, ord: Seq<usize>, j: int, k: int, x: Seq<char>)
    requires
        0 <= j <= k,
        forall|i: int| j <= i < k ==> node_name(f, #[trigger] ord[i]) != x,
    ensures
        witness_bools_at(f, ord, j)[x] == witness_bools_at(f, ord, k)[x],
    decreases k - j,
{
    if j < k {
        lemma_wb_agrees(f, ord, j + 1, k, x);
    }
}

proof fn lemma_node_names_distinct(f: Function, a: usize, b: usize)
    requires
        crate::ir::good_block_names(f),
        crate::ir::distinct_block_names(f),
        a != b,
        (a as int) <= f.blocks.len(),
        (b as int) <= f.blocks.len(),
    ensures
        node_name(f, a) != node_name(f, b),
{
    if (a as int) < f.blocks.len() && (b as int) < f.blocks.len() {
        assert(f.blocks[a as int].name@ != f.blocks[b as int].name@);
    }
}

proof fn lemma_value_not_node_name(f: Function, v: usize, x: Seq<char>)
    requires
        crate::ir::good_block_names(f),
        (v as int) <= f.blocks.len(),
        value_name(x),
    ensures
        node_name(f, v) != x,
{
    reveal_strlit("common_end");
    reveal_strlit("const_");
    reveal_strlit("panic_var");
    let n = node_name(f, v);
    if n == x {
        if (v as int) < f.blocks.len() {
            assert(crate::ir::good_block_name(n));
            if x == panic_var_name() {
                assert(false);
            } else if x.len() > 0 && x[0] == '%' {
                assert(n.contains('%')) by {
                    assert(n[0] == '%');
                }
                assert(false);
            } else {
                assert(false);
            }
        } else {
            assert(n == common_end_name());
            if x == panic_var_name() {
                assert(common_end_name().len() == 10);
                assert(panic_var_name().len() == 9);
                assert(false);
            } else if x.len() > 0 && x[0] == '%' {
                assert(common_end_name()[0] == 'c');
                assert(false);
            } else {
                assert(common_end_name()[2] == 'm');
                assert("const_"@[2] == 'n');
                assert(false);
            }
        }
    }
}

/// Every node of the witness carries exactly the value of its
/// verification condition.
proof fn lemma_wb_binding(f: Function, ord: Seq<usize>, k: int)
    requires
        is_topo_order(f, ord),
        crate::ir::good_block_names(f),
        crate::ir::distinct_block_names(f),
        0 <= k < ord.len(),
    ensures
        ({
            let env0 = SmtEnv { bools: witness_bools_at(f, ord, 0), ints: witness_ints() };
            env0.bools[node_name(f, ord[k])] == eval_bool(env0, node_phi(f, ord[k]))
        }),
{
    let env0 = SmtEnv { bools: witness_bools_at(f, ord, 0), ints: witness_ints() };
    let envk1 = SmtEnv { bools: witness_bools_at(f, ord, k + 1), ints: witness_ints() };
    let v = ord[k];
    let name_k = node_name(f, v);
    assert forall|i: int| 0 <= i < k implies node_name(f, #[trigger] ord[i]) != name_k by {
        assert(ord[i] != v);
        lemma_node_names_distinct(f, ord[i], v);
    }
    lemma_wb_agrees(f, ord, 0, k, name_k);
    assert(witness_bools_at(f, ord, k)[name_k] == eval_bool(envk1, node_phi(f, v)));
    let pa = |x: Seq<char>| env0.bools[x] == envk1.bools[x];
    assert forall|x: Seq<char>| value_name(x) implies #[trigger] pa(x) by {
        assert forall|i: int| 0 <= i < k + 1 implies node_name(f, #[trigger] ord[i]) != x by {
            lemma_value_not_node_name(f, ord[i], x);
        }
        lemma_wb_agrees(f, ord, 0, k + 1, x);
    }
    lemma_succ_bound(f, v);
    lemma_distinct_bounded_full(ord, (f.blocks.len()) as usize);
    assert forall|i: int| 0 <= i < spec_succ(f, v).len() implies pa(
        node_name(f, #[trigger] spec_succ(f, v)[i]),
    ) by {
        let s = spec_succ(f, v)[i];
        assert(ord.contains(s));
        let j = choose|j: int| 0 <= j < ord.len() && ord[j] == s;
        assert(spec_edge(f, ord[k], ord[j])) by {
            assert(spec_succ(f, v)[i] == s);
        }
        assert(k < j);
        let x = node_name(f, s);
        assert forall|i2: int| 0 <= i2 < k + 1 implies node_name(f, #[trigger] ord[i2]) != x by {
            assert(ord[i2] != s);
            lemma_node_names_distinct(f, ord[i2], s);
        }
        lemma_wb_agrees(f, ord, 0, k + 1, x);
    }
    lemma_phi_vars(f, v, pa);
    lemma_eval_frame(env0, envk1, node_phi(f, v));
}

/// A value name of the witness keeps its base value: node bindings never
/// touch it.
proof fn lemma_wb_value_base(f: Function, ord: Seq<usize>, x: Seq<char>)
    requires
        crate::ir::good_block_names(f),
        forall|i: int| 0 <= i < ord.len() ==> ((#[trigger] ord[i]) as int) <= f.blocks.len(),
        value_name(x),
    ensures
        witness_bools_at(f, ord, 0)[x] == witness_bool_value(x),
{
    assert forall|i: int| 0 <= i < ord.len() implies node_name(f, #[trigger] ord[i]) != x by {
        lemma_value_not_node_name(f, ord[i], x);
    }
    lemma_wb_agrees(f, ord, 0, ord.len() as int, x);
}

/// The standing equalities of one resolution hold under a canonical
/// assignment.
proof fn lemma_rv_asserts_sat(env: SmtEnv, s: Seq<char>, rv: crate::names::ResolvedView)
    requires
        crate::names::spec_resolve(s) == Some(rv),
        env.ints == witness_ints(),
        env.bools["const_true"@] == true,
        env.bools["const_false"@] == false,
    ensures
        satisfies_all(env, rv_asserts(Some(rv))),
{
    reveal_with_fuel(eval_bool, 4);
    reveal_strlit("const_");
    reveal_strlit("const_true");
    reveal_strlit("const_false");
    reveal_strlit("true");
    reveal_strlit("false");
    let a = rv_asserts(Some(rv));
    match rv {
        crate::names::ResolvedView::Reg(_) => {
            assert(satisfies_all(env, a));
        },
        crate::names::ResolvedView::BoolConst(b) => {
            let name = crate::names::resolved_name(rv);
            assert(env.bools[name] == b) by {
                if b {
                    assert(name == "const_true"@);
                } else {
                    assert(name == "const_false"@);
                }
            }
            assert(eval_bool(env, a[0]));
            assert forall|i: int| 0 <= i < a.len() implies eval_bool(env, #[trigger] a[i]) by {
                assert(a[i] == a[0]);
            }
        },
        crate::names::ResolvedView::IntConst(tok, v) => {
            let name = crate::names::resolved_name(rv);
            assert(env.ints[name] == v) by {
                assert(name.subrange(0, 6) =~= "const_"@);
                assert(name.skip(6) =~= tok);
            }
            assert(eval_bool(env, a[0]));
            assert forall|i: int| 0 <= i < a.len() implies eval_bool(env, #[trigger] a[i]) by {
                assert(a[i] == a[0]);
            }
        },
    }
}

/// The standing equalities one instruction emits hold under a canonical
/// assignment.
proof fn lemma_instr_asserts_sat(env: SmtEnv, i: Instr)
    requires
        env.ints == witness_ints(),
        env.bools["const_true"@] == true,
        env.bools["const_false"@] == false,
    ensures
        satisfies_all(env, instr_comp(i).0),
{
    let none: Seq<BoolExprV> = Seq::empty();
    assert(satisfies_all(env, none));
    match i.opcode {
        Opcode::OpCall | Opcode::OpLoad | Opcode::OpStore | Opcode::OpXor | Opcode::OpICmp
            | Opcode::OpExtractValue => {
            match crate::names::spec_resolve(i.printed@) {
                Some(l) => {
                    lemma_rv_asserts_sat(env, i.printed@, l);
                },
                None => {},
            }
            match crate::compile::op_text(i, 0) {
                Some(o0) => {
                    match crate::names::spec_resolve(o0) {
                        Some(x) => {
                            lemma_rv_asserts_sat(env, o0, x);
                        },
                        None => {},
                    }
                },
                None => {},
            }
            match crate::compile::op_text(i, 1) {
                Some(o1) => {
                    match crate::names::spec_resolve(o1) {
                        Some(y) => {
                            lemma_rv_asserts_sat(env, o1, y);
                        },
                        None => {},
                    }
                },
                None => {},
            }
            assert forall|a: Seq<BoolExprV>, b: Seq<BoolExprV>|
                satisfies_all(env, a) && satisfies_all(env, b) implies #[trigger] satisfies_all(
                env,
                a + b,
            ) by {
                crate::analysis::lemma_sat_concat(env, a, b);
            }
            assert(satisfies_all(env, instr_comp(i).0));
        },
        _ => {},
    }
}

/// The standing equalities of a whole instruction walk hold under a
/// canonical assignment.
proof fn lemma_walk_asserts_sat(env: SmtEnv, instrs: Seq<Instr>, k: nat)
    requires
        env.ints == witness_ints(),
        env.bools["const_true"@] == true,
        env.bools["const_false"@] == false,
    ensures
        satisfies_all(env, crate::compile::asserts_from_end(instrs, k)),
    decreases k,
{
    let none: Seq<BoolExprV> = Seq::empty();
    assert(satisfies_all(env, none));
    if k != 0 && k <= instrs.len() {
        lemma_walk_asserts_sat(env, instrs, (k - 1) as nat);
        lemma_instr_asserts_sat(env, instrs[instrs.len() - k]);
        crate::analysis::lemma_sat_concat(
            env,
            crate::compile::asserts_from_end(instrs, (k - 1) as nat),
            instr_comp(instrs[instrs.len() - k]).0,
        );
    }
}

/// The standing equalities of the guard construction hold under a
/// canonical assignment.
proof fn lemma_entry_asserts_sat(env: SmtEnv, f: Function, preds: Seq<usize>, k: nat)
    requires
        env.ints == witness_ints(),
        env.bools["const_true"@] == true,
        env.bools["const_false"@] == false,
    ensures
        satisfies_all(env, crate::compile::entry_asserts_fold(f, preds, k)),
    decreases k,
{
    let none: Seq<BoolExprV> = Seq::empty();
    assert(satisfies_all(env, none));
    if k != 0 && k <= preds.len() {
        lemma_entry_asserts_sat(env, f, preds, (k - 1) as nat);
        let pr = preds[k - 1];
        assert(satisfies_all(env, crate::compile::entry_cond_asserts(f, pr))) by {
            if (pr as int) < f.blocks.len() {
                match spec_terminator(f.blocks[pr as int]) {
                    Some(t) => {
                        if t.opcode is OpBr && t.operands.len() == 3 {
                            match crate::compile::op_text(t, 0) {
                                Some(d) => {
                                    match crate::names::spec_resolve(d) {
                                        Some(rv) => {
                                            lemma_rv_asserts_sat(env, d, rv);
                                        },
                                        None => {},
                                    }
                                },
                                None => {},
                            }
                        }
                    },
                    None => {},
                }
            }
        }
        crate::analysis::lemma_sat_concat(
            env,
            crate::compile::entry_asserts_fold(f, preds, (k - 1) as nat),
            crate::compile::entry_cond_asserts(f, pr),
        );
    }
}

/// The entry block terminates at once in `unreachable`, nothing branches
/// back to it, and the block names are well formed and distinct.
pub open spec fn entry_panics_immediately(f: Function) -> bool {
    &&& f.blocks.len() >= 1
    &&& f.blocks[0].instrs.len() == 1
    &&& f.blocks[0].instrs[0].opcode == Opcode::OpUnreachable
    &&& spec_preds(f, 0usize).len() == 0
    &&& crate::ir::good_block_names(f)
    &&& crate::ir::distinct_block_names(f)
}

/// Any function whose entry block terminates at once in `unreachable`
/// compiles to a satisfiable analysis problem, whatever else it holds:
/// the analyzer never reports such a function safe.
pub proof fn lemma_entry_unreachable_reachable_general(f: Function)
    requires
        entry_panics_immediately(f),
        has_topo_order(f),
    ensures
        models_exists(f),
{
    reveal_with_fuel(eval_bool, 10);
    reveal_strlit("const_");
    reveal_strlit("const_true");
    reveal_strlit("const_false");
    reveal_strlit("common_end");
    reveal_strlit("panic_var");
    let ord = choose|ord: Seq<usize>| is_topo_order(f, ord);
    let env0 = SmtEnv { bools: witness_bools_at(f, ord, 0), ints: witness_ints() };
    let nlen = f.blocks.len() as usize;
    // base values survive at every value name
    assert(value_name(panic_var_name()));
    assert(value_name("const_true"@)) by {
        assert("const_true"@.subrange(0, 6) =~= "const_"@);
    }
    assert(value_name("const_false"@)) by {
        assert("const_false"@.subrange(0, 6) =~= "const_"@);
    }
    lemma_wb_value_base(f, ord, panic_var_name());
    lemma_wb_value_base(f, ord, "const_true"@);
    lemma_wb_value_base(f, ord, "const_false"@);
    assert(env0.bools[panic_var_name()] == true);
    assert(env0.bools["const_true"@] == true);
    assert(env0.bools["const_false"@] == false) by {
        assert("const_false"@.len() == 11);
        assert(panic_var_name().len() == 9);
        assert("const_true"@.len() == 10);
    }
    lemma_distinct_bounded_full(ord, nlen);
    // every node's binding holds
    assert forall|v: usize| (v as int) <= f.blocks.len() implies env0.bools[node_name(f, v)]
        == eval_bool(env0, #[trigger] node_phi(f, v)) by {
        assert(ord.contains(v));
        let k = choose|k: int| 0 <= k < ord.len() && ord[k] == v;
        lemma_wb_binding(f, ord, k);
    }
    // the terminal node's variable fails: the panic flag is raised
    assert(env0.bools[common_end_name()] == false) by {
        lemma_end_guard_true(env0, f);
        reveal_with_fuel(crate::compile::succ_fold, 2);
        assert(spec_succ(f, nlen) =~= Seq::<usize>::empty());
        assert(node_name(f, nlen) == common_end_name());
        assert(env0.bools[node_name(f, nlen)] == eval_bool(env0, node_phi(f, nlen)));
        assert(!eval_bool(env0, node_inner(f, nlen)));
    }
    // the entry block's variable fails: its one path raises the flag and
    // reaches the terminal node
    let b0 = f.blocks[0];
    let t0 = b0.instrs[0];
    assert(!env0.bools[f.blocks[0].name@]) by {
        reveal_with_fuel(crate::compile::succ_fold, 3);
        reveal_with_fuel(crate::compile::guard_fold, 2);
        reveal_with_fuel(crate::compile::wp_chain, 3);
        assert(spec_terminator(b0) == Some(t0));
        assert(spec_succ(f, 0usize) =~= seq![nlen]);
        assert(spec_succ(f, 0usize).contains(end_node(f))) by {
            assert(spec_succ(f, 0usize)[0] == nlen);
        }
        assert(panic_kind(b0) == Some(true));
        assert(instr_comp(t0).1 is None);
        let fold = succ_fold(f, spec_succ(f, 0usize), 1);
        assert(fold == BoolExprV::BAnd(
            Box::new(BoolExprV::BLit(true)),
            Box::new(BoolExprV::BVar(common_end_name())),
        ));
        assert(!eval_bool(env0, fold));
        assert(wp_chain(b0.instrs@, 0, fold) == fold) by {
            assert(wp_chain(b0.instrs@, 1, fold) == fold);
        }
        assert(!eval_bool(env0, node_inner(f, 0usize)));
        assert(guard_fold(f, spec_preds(f, 0usize), 0usize, 0) == BoolExprV::BLit(true));
        assert(!eval_bool(env0, node_phi(f, 0usize)));
        assert(node_name(f, 0usize) == f.blocks[0].name@);
    }
    // every node's whole script holds
    assert forall|v: usize| (v as int) <= f.blocks.len() implies satisfies_all(
        env0,
        #[trigger] node_script(f, v),
    ) by {
        reveal_with_fuel(eval_bool, 3);
        let ia = if (v as int) < f.blocks.len() {
            crate::compile::asserts_from_end(
                f.blocks[v as int].instrs@,
                f.blocks[v as int].instrs.len() as nat,
            )
        } else {
            Seq::<BoolExprV>::empty()
        };
        let eaf = crate::compile::entry_asserts_fold(f, spec_preds(f, v), spec_preds(f, v).len());
        if (v as int) < f.blocks.len() {
            lemma_walk_asserts_sat(
                env0,
                f.blocks[v as int].instrs@,
                f.blocks[v as int].instrs.len() as nat,
            );
        } else {
            assert(satisfies_all(env0, ia));
        }
        lemma_entry_asserts_sat(env0, f, spec_preds(f, v), spec_preds(f, v).len());
        let bind = seq![node_bind(f, v)];
        assert(satisfies_all(env0, bind)) by {
            assert(eval_bool(env0, node_bind(f, v)));
            assert forall|i: int| 0 <= i < bind.len() implies eval_bool(
                env0,
                #[trigger] bind[i],
            ) by {
                assert(bind[i] == bind[0]);
            }
        }
        crate::analysis::lemma_sat_concat(env0, ia, eaf);
        crate::analysis::lemma_sat_concat(env0, ia + eaf, bind);
        assert(node_script(f, v) == (ia + eaf) + bind);
    }
    assert forall|k: int| 0 <= k < f.params.len() implies satisfies_all(
        env0,
        crate::compile::param_comp(#[trigger] f.params[k]),
    ) by {
        lemma_param_satisfied(env0, f.params[k]);
    }
    assert(env_models(env0, f));
}

/// Every branch-target operand names an existing block.
pub open spec fn targets_within(f: Function) -> bool {
    forall|i: int, k: int, j: int|
        0 <= i < f.blocks.len() && 0 <= k < f.blocks[i].instrs.len() && 0 <= j
            < f.blocks[i].instrs[k].operands.len() ==> match #[trigger] f.blocks[i].instrs[k].operands[j] {
            Operand::Target(t) => (t as int) < f.blocks.len(),
            Operand::Text(_) => true,
        }
}

/// `g` is `f` with one more block at the end.
pub open spec fn is_appended(f: Function, d: BasicBlock, g: Function) -> bool {
    &&& g.name == f.name
    &&& g.params == f.params
    &&& g.blocks@ == f.blocks@.push(d)
}

proof fn lemma_append_switch(f: Function, g: Function, ops: Seq<Operand>, k: nat)
    requires
        g.blocks.len() == f.blocks.len() + 1,
        forall|j: int| 0 <= j < ops.len() ==> match #[trigger] ops[j] {
            Operand::Target(t) => (t as int) < f.blocks.len(),
            Operand::Text(_) => true,
        },
    ensures
        crate::cfg::switch_targets(g, ops, k) == crate::cfg::switch_targets(f, ops, k),
    decreases k,
{
    if k != 0 && k <= ops.len() {
        lemma_append_switch(f, g, ops, (k - 1) as nat);
    }
}

/// How the successor lists of an old block correspond after a block is
/// appended: the terminal node moves by one, everything else stays.
proof fn lemma_append_succ(f: Function, d: BasicBlock, g: Function, v: usize)
    requires
        targets_within(f),
        is_appended(f, d, g),
        (v as int) < f.blocks.len(),
        f.blocks.len() < usize::MAX - 1,
    ensures
        spec_succ(g, v).len() == spec_succ(f, v).len(),
        forall|i: int|
            0 <= i < spec_succ(f, v).len() ==> node_name(g, #[trigger] spec_succ(g, v)[i])
                == node_name(f, spec_succ(f, v)[i]),
        spec_succ(g, v).contains(end_node(g)) <==> spec_succ(f, v).contains(end_node(f)),
        forall|x: usize|
            (x as int) < f.blocks.len() ==> (spec_succ(g, v).contains(x)
                <==> #[trigger] spec_succ(f, v).contains(x)),
        !spec_succ(g, v).contains((f.blocks.len()) as usize),
{
    assert(g.blocks[v as int] == f.blocks[v as int]);
    match spec_terminator(f.blocks[v as int]) {
        Some(t) => {
            if t.opcode == Opcode::OpReturn || t.opcode == Opcode::OpUnreachable {
                assert(spec_succ(g, v) =~= seq![end_node(g)]);
                assert(spec_succ(f, v) =~= seq![end_node(f)]);
                assert(node_name(g, end_node(g)) == common_end_name());
                assert(node_name(f, end_node(f)) == common_end_name());
                assert(spec_succ(g, v).contains(end_node(g))) by {
                    assert(spec_succ(g, v)[0] == end_node(g));
                }
                assert(spec_succ(f, v).contains(end_node(f))) by {
                    assert(spec_succ(f, v)[0] == end_node(f));
                }
            } else {
                let ghost ti = f.blocks[v as int].instrs.len() - 1;
                assert(forall|j: int|
                    0 <= j < t.operands.len() ==> match #[trigger] t.operands[j] {
                        Operand::Target(tg) => (tg as int) < f.blocks.len(),
                        Operand::Text(_) => true,
                    }) by {
                    assert(forall|j: int|
                        0 <= j < t.operands.len() ==> t.operands[j]
                            == #[trigger] f.blocks[v as int].instrs[ti].operands[j]);
                }
                if t.opcode is OpSwitch {
                    lemma_append_switch(f, g, t.operands@, t.operands.len() as nat);
                }
                assert(spec_succ(g, v) == spec_succ(f, v));
                crate::cfg::lemma_succ_bound(f, v);
                assert forall|i: int| 0 <= i < spec_succ(f, v).len() implies node_name(
                    g,
                    #[trigger] spec_succ(g, v)[i],
                ) == node_name(f, spec_succ(f, v)[i]) by {
                    if (spec_succ(f, v)[i] as int) == f.blocks.len() {
                        if t.opcode is OpSwitch {
                            crate::cfg::lemma_switch_targets_bound(
                                f,
                                t.operands@,
                                t.operands.len() as nat,
                            );
                        }
                        assert(false);
                    }
                }
                if spec_succ(f, v).contains(end_node(f)) {
                    lemma_end_succ_singleton(f, v);
                    assert(false);
                }
                if spec_succ(g, v).contains(end_node(g)) {
                    lemma_end_succ_singleton(g, v);
                    assert(false);
                }
            }
        },
        None => {
            assert(spec_succ(g, v) =~= Seq::<usize>::empty());
            assert(spec_succ(f, v) =~= Seq::<usize>::empty());
        },
    }
    crate::cfg::lemma_succ_bound(f, v);
    if spec_succ(g, v).contains((f.blocks.len()) as usize) {
        match spec_terminator(f.blocks[v as int]) {
            Some(t) => {
                if t.opcode == Opcode::OpReturn || t.opcode == Opcode::OpUnreachable {
                    assert(spec_succ(g, v)[0] == end_node(g));
                    assert(false);
                } else {
                    assert(spec_succ(f, v).contains((f.blocks.len()) as usize));
                    assert(false);
                }
            },
            None => {},
        }
    }
}

proof fn lemma_append_preds_upto(f: Function, d: BasicBlock, g: Function, v: usize, k: nat)
    requires
        targets_within(f),
        is_appended(f, d, g),
        (v as int) <= f.blocks.len(),
        f.blocks.len() < usize::MAX - 1,
        k <= f.blocks.len(),
    ensures
        ((v as int) < f.blocks.len()) ==> crate::cfg::preds_upto(g, v, k)
            == crate::cfg::preds_upto(f, v, k),
        ((v as int) == f.blocks.len()) ==> crate::cfg::preds_upto(g, end_node(g), k)
            == crate::cfg::preds_upto(f, end_node(f), k),
    decreases k,
{
    if k != 0 {
        lemma_append_preds_upto(f, d, g, v, (k - 1) as nat);
        lemma_append_succ(f, d, g, (k - 1) as usize);
    }
}

/// An old block keeps exactly its predecessors, and the terminal node
/// gains exactly the dead block.
proof fn lemma_append_preds(f: Function, d: BasicBlock, g: Function, v: usize)
    requires
        targets_within(f),
        is_appended(f, d, g),
        (v as int) <= f.blocks.len(),
        f.blocks.len() < usize::MAX - 1,
        d.instrs.len() == 1,
        d.instrs[0].opcode == Opcode::OpReturn,
    ensures
        ((v as int) < f.blocks.len()) ==> spec_preds(g, v) == spec_preds(f, v),
        ((v as int) == f.blocks.len()) ==> spec_preds(g, end_node(g)) == spec_preds(
            f,
            end_node(f),
        ).push((f.blocks.len()) as usize),
{
    let n = f.blocks.len() as int;
    lemma_append_preds_upto(f, d, g, v, f.blocks.len() as nat);
    assert(g.blocks[n] == d);
    assert(spec_terminator(d) == Some(d.instrs[0]));
    assert(spec_succ(g, (n) as usize) =~= seq![end_node(g)]);
    if (v as int) < f.blocks.len() {
        assert(!spec_succ(g, (n) as usize).contains(v)) by {
            assert(spec_succ(g, (n) as usize)[0] == end_node(g));
        }
        assert(!spec_succ(g, (n + 1) as usize).contains(v));
        assert(!spec_succ(f, (n) as usize).contains(v));
        assert(crate::cfg::preds_upto(g, v, (n + 1) as nat) == crate::cfg::preds_upto(
            f,
            v,
            (n + 1) as nat,
        ));
        assert(crate::cfg::preds_upto(g, v, (n + 2) as nat) == crate::cfg::preds_upto(
            g,
            v,
            (n + 1) as nat,
        ));
    } else {
        assert(spec_succ(g, (n) as usize).contains(end_node(g))) by {
            assert(spec_succ(g, (n) as usize)[0] == end_node(g));
        }
        assert(!spec_succ(f, (n) as usize).contains(end_node(f)));
        assert(!spec_succ(g, (n + 1) as usize).contains(end_node(g)));
        assert(crate::cfg::preds_upto(g, end_node(g), (n + 1) as nat)
            == crate::cfg::preds_upto(f, end_node(f), (n + 1) as nat).push(
            (f.blocks.len()) as usize,
        ));
        assert(crate::cfg::preds_upto(g, end_node(g), (n + 2) as nat)
            == crate::cfg::preds_upto(g, end_node(g), (n + 1) as nat));
    }
}

proof fn lemma_fold_eq_pointwise(g: Function, f: Function, a: Seq<usize>, b: Seq<usize>, k: nat)
    requires
        k <= a.len(),
        k <= b.len(),
        forall|i: int| 0 <= i < k ==> node_name(g, #[trigger] a[i]) == node_name(f, b[i]),
    ensures
        succ_fold(g, a, k) == succ_fold(f, b, k),
    decreases k,
{
    if k != 0 {
        lemma_fold_eq_pointwise(g, f, a, b, (k - 1) as nat);
    }
}

proof fn lemma_guard_eq_pointwise(
    g: Function,
    f: Function,
    a: Seq<usize>,
    b: Seq<usize>,
    vg: usize,
    vf: usize,
    k: nat,
)
    requires
        k <= a.len(),
        k <= b.len(),
        forall|i: int| 0 <= i < k ==> entry_cond(g, #[trigger] a[i], vg) == entry_cond(f, b[i], vf),
    ensures
        guard_fold(g, a, vg, k) == guard_fold(f, b, vf, k),
    decreases k,
{
    if k != 0 {
        lemma_guard_eq_pointwise(g, f, a, b, vg, vf, (k - 1) as nat);
    }
}

proof fn lemma_eaf_eq_pointwise(g: Function, f: Function, a: Seq<usize>, b: Seq<usize>, k: nat)
    requires
        k <= a.len(),
        k <= b.len(),
        forall|i: int|
            0 <= i < k ==> crate::compile::entry_cond_asserts(g, #[trigger] a[i])
                == crate::compile::entry_cond_asserts(f, b[i]),
    ensures
        crate::compile::entry_asserts_fold(g, a, k) == crate::compile::entry_asserts_fold(f, b, k),
    decreases k,
{
    if k != 0 {
        lemma_eaf_eq_pointwise(g, f, a, b, (k - 1) as nat);
    }
}

proof fn lemma_append_entry_eq(f: Function, d: BasicBlock, g: Function, p: usize, v: usize)
    requires
        targets_within(f),
        is_appended(f, d, g),
        (p as int) < f.blocks.len(),
        (v as int) < f.blocks.len(),
    ensures
        entry_cond(g, p, v) == entry_cond(f, p, v),
        crate::compile::entry_cond_asserts(g, p) == crate::compile::entry_cond_asserts(f, p),
{
    assert(g.blocks[p as int] == f.blocks[p as int]);
    match spec_terminator(f.blocks[p as int]) {
        Some(t) => {
            if t.opcode is OpBr && t.operands.len() == 3 {
                let ti = f.blocks[p as int].instrs.len() - 1;
                assert(t.operands[1] == f.blocks[p as int].instrs[ti].operands[1]);
                match t.operands[1] {
                    Operand::Target(tg) => {
                        assert((tg as int) < f.blocks.len());
                    },
                    Operand::Text(_) => {},
                }
            }
        },
        None => {},
    }
}

/// An old node's whole script is unchanged by appending a dead exit
/// block.
proof fn lemma_append_script_eq(f: Function, d: BasicBlock, g: Function, v: usize)
    requires
        targets_within(f),
        is_appended(f, d, g),
        (v as int) < f.blocks.len(),
        f.blocks.len() < usize::MAX - 1,
        d.instrs.len() == 1,
        d.instrs[0].opcode == Opcode::OpReturn,
    ensures
        node_script(g, v) == node_script(f, v),
{
    assert(g.blocks[v as int] == f.blocks[v as int]);
    lemma_append_succ(f, d, g, v);
    lemma_append_preds(f, d, g, v);
    crate::cfg::lemma_preds_bound(f, v);
    lemma_fold_eq_pointwise(g, f, spec_succ(g, v), spec_succ(f, v), spec_succ(f, v).len());
    assert forall|i: int| 0 <= i < spec_preds(f, v).len() implies entry_cond(
        g,
        #[trigger] spec_preds(f, v)[i],
        v,
    ) == entry_cond(f, spec_preds(f, v)[i], v) && crate::compile::entry_cond_asserts(
        g,
        spec_preds(f, v)[i],
    ) == crate::compile::entry_cond_asserts(f, spec_preds(f, v)[i]) by {
        lemma_append_entry_eq(f, d, g, spec_preds(f, v)[i], v);
    }
    lemma_guard_eq_pointwise(g, f, spec_preds(f, v), spec_preds(f, v), v, v, spec_preds(f, v).len());
    lemma_eaf_eq_pointwise(g, f, spec_preds(f, v), spec_preds(f, v), spec_preds(f, v).len());
    assert(node_inner(g, v) == node_inner(f, v));
    assert(node_phi(g, v) == node_phi(f, v));
    assert(node_bind(g, v) == node_bind(f, v));
    assert(node_script(g, v) =~= node_script(f, v));
}

/// Appending a dead exit block — one that nothing targets and that
/// returns at once — cannot manufacture a panic: whatever models the
/// padded function's analysis problem models the unpadded one's, so a verdict
/// of unsafe on the padded function never stems from the padding.
pub proof fn lemma_dead_exit_block_no_new_panic(f: Function, d: BasicBlock, g: Function)
    requires
        f.blocks.len() >= 1,
        f.blocks.len() < usize::MAX - 1,
        targets_within(f),
        is_appended(f, d, g),
        d.instrs.len() == 1,
        d.instrs[0].opcode == Opcode::OpReturn,
    ensures
        models_exists(g) ==> models_exists(f),
{
    reveal_with_fuel(eval_bool, 6);
    if models_exists(g) {
        let env = choose|env: SmtEnv| env_models(env, g);
        let n = f.blocks.len() as int;
        let fe = end_node(f);
        let ge = end_node(g);
        assert forall|v: usize| (v as int) <= f.blocks.len() implies satisfies_all(
            env,
            #[trigger] node_script(f, v),
        ) by {
            if (v as int) < f.blocks.len() {
                assert(satisfies_all(env, node_script(g, v)));
                lemma_append_script_eq(f, d, g, v);
            } else {
                assert(satisfies_all(env, node_script(g, ge)));
                lemma_append_preds(f, d, g, v);
                crate::cfg::lemma_preds_bound(f, fe);
                // the guard assertions carry over: the dead block adds none
                let pf = spec_preds(f, fe);
                let pg = spec_preds(g, ge);
                assert(pg == pf.push((f.blocks.len()) as usize));
                assert forall|i: int| 0 <= i < pf.len() implies crate::compile::entry_cond_asserts(
                    g,
                    #[trigger] pg[i],
                ) == crate::compile::entry_cond_asserts(f, pf[i]) by {
                    assert(pg[i] == pf[i]);
                    lemma_append_entry_asserts_eq(f, d, g, pf[i]);
                }
                lemma_eaf_eq_pointwise(g, f, pg, pf, pf.len());
                assert(crate::compile::entry_cond_asserts(g, (f.blocks.len()) as usize)
                    =~= Seq::<BoolExprV>::empty()) by {
                    assert(g.blocks[n] == d);
                    assert(spec_terminator(d) == Some(d.instrs[0]));
                }
                let eaf_f = crate::compile::entry_asserts_fold(f, pf, pf.len());
                let eaf_g = crate::compile::entry_asserts_fold(g, pg, pg.len());
                assert(eaf_g =~= eaf_f);
                // both terminal scripts are those assertions plus the binding
                let ns_g = node_script(g, ge);
                let ns_f = node_script(f, fe);
                assert(ns_g =~= eaf_g + seq![node_bind(g, ge)]);
                assert(ns_f =~= eaf_f + seq![node_bind(f, fe)]);
                crate::analysis::lemma_sat_concat(env, eaf_g, seq![node_bind(g, ge)]);
                crate::analysis::lemma_sat_concat(env, eaf_f, seq![node_bind(f, fe)]);
                // both verification conditions evaluate to the negated flag
                assert(eval_bool(env, node_bind(g, ge))) by {
                    assert(seq![node_bind(g, ge)][0] == node_bind(g, ge));
                }
                lemma_end_guard_true(env, g);
                lemma_end_guard_true(env, f);
                assert(spec_succ(g, ge) =~= Seq::<usize>::empty());
                assert(spec_succ(f, fe) =~= Seq::<usize>::empty());
                assert(eval_bool(env, node_phi(g, ge)) == !env.bools[panic_var_name()]);
                assert(eval_bool(env, node_phi(f, fe)) == !env.bools[panic_var_name()]);
                assert(node_name(g, ge) == common_end_name());
                assert(node_name(f, fe) == common_end_name());
                assert(eval_bool(env, node_bind(f, fe)));
                assert(satisfies_all(env, seq![node_bind(f, fe)])) by {
                    assert forall|i: int| 0 <= i < 1 implies eval_bool(
                        env,
                        #[trigger] seq![node_bind(f, fe)][i],
                    ) by {
                        assert(seq![node_bind(f, fe)][i] == node_bind(f, fe));
                    }
                }
                assert(satisfies_all(env, ns_f));
            }
        }
        assert forall|k: int| 0 <= k < f.params.len() implies satisfies_all(
            env,
            crate::compile::param_comp(#[trigger] f.params[k]),
        ) by {
            assert(f.params[k] == g.params[k]);
        }
        assert(g.blocks[0] == f.blocks[0]);
        assert(env_models(env, f));
    }
}

proof fn lemma_append_entry_asserts_eq(f: Function, d: BasicBlock, g: Function, p: usize)
    requires
        is_appended(f, d, g),
        (p as int) < f.blocks.len(),
    ensures
        crate::compile::entry_cond_asserts(g, p) == crate::compile::entry_cond_asserts(f, p),
{
    assert(g.blocks[p as int] == f.blocks[p as int]);
}

/// Every boolean variable of every term in the list satisfies the
/// predicate.
pub open spec fn all_bool_vars_in(s: Seq<BoolExprV>, p: spec_fn(Seq<char>) -> bool) -> bool {
    forall|i: int| 0 <= i < s.len() ==> bool_vars_in(#[trigger] s[i], p)
}

proof fn lemma_all_vars_concat(a: Seq<BoolExprV>, b: Seq<BoolExprV>, p: spec_fn(Seq<char>) -> bool)
    requires
        all_bool_vars_in(a, p),
        all_bool_vars_in(b, p),
    ensures
        all_bool_vars_in(a + b, p),
{
    assert forall|i: int| 0 <= i < (a + b).len() implies bool_vars_in(#[trigger] (a + b)[i], p) by {
        if i < a.len() {
            assert((a + b)[i] == a[i]);
        } else {
            assert((a + b)[i] == b[i - a.len()]);
        }
    }
}

proof fn lemma_rv_asserts_vars(s: Seq<char>, rv: crate::names::ResolvedView, p: spec_fn(Seq<char>) -> bool)
    requires
        crate::names::spec_resolve(s) == Some(rv),
        forall|x: Seq<char>| value_name(x) ==> #[trigger] p(x),
    ensures
        all_bool_vars_in(rv_asserts(Some(rv)), p),
{
    reveal_with_fuel(bool_vars_in, 4);
    lemma_resolved_name_value(s, rv);
    let a = rv_asserts(Some(rv));
    assert forall|i: int| 0 <= i < a.len() implies bool_vars_in(#[trigger] a[i], p) by {
        assert(a[i] == a[0]);
    }
}

proof fn lemma_instr_asserts_vars(i: Instr, p: spec_fn(Seq<char>) -> bool)
    requires
        forall|x: Seq<char>| value_name(x) ==> #[trigger] p(x),
    ensures
        all_bool_vars_in(instr_comp(i).0, p),
{
    let none: Seq<BoolExprV> = Seq::empty();
    assert(all_bool_vars_in(none, p));
    match i.opcode {
        Opcode::OpCall | Opcode::OpLoad | Opcode::OpStore | Opcode::OpXor | Opcode::OpICmp
            | Opcode::OpExtractValue => {
            match crate::names::spec_resolve(i.printed@) {
                Some(l) => {
                    lemma_rv_asserts_vars(i.printed@, l, p);
                },
                None => {},
            }
            match crate::compile::op_text(i, 0) {
                Some(o0) => {
                    match crate::names::spec_resolve(o0) {
                        Some(x) => {
                            lemma_rv_asserts_vars(o0, x, p);
                        },
                        None => {},
                    }
                },
                None => {},
            }
            match crate::compile::op_text(i, 1) {
                Some(o1) => {
                    match crate::names::spec_resolve(o1) {
                        Some(y) => {
                            lemma_rv_asserts_vars(o1, y, p);
                        },
                        None => {},
                    }
                },
                None => {},
            }
            assert forall|a: Seq<BoolExprV>, b: Seq<BoolExprV>|
                all_bool_vars_in(a, p) && all_bool_vars_in(b, p) implies #[trigger] all_bool_vars_in(
                a + b,
                p,
            ) by {
                lemma_all_vars_concat(a, b, p);
            }
            assert(all_bool_vars_in(instr_comp(i).0, p));
        },
        _ => {},
    }
}

proof fn lemma_walk_asserts_vars(instrs: Seq<Instr>, k: nat, p: spec_fn(Seq<char>) -> bool)
    requires
        forall|x: Seq<char>| value_name(x) ==> #[trigger] p(x),
    ensures
        all_bool_vars_in(crate::compile::asserts_from_end(instrs, k), p),
    decreases k,
{
    let none: Seq<BoolExprV> = Seq::empty();
    assert(all_bool_vars_in(none, p));
    if k != 0 && k <= instrs.len() {
        lemma_walk_asserts_vars(instrs, (k - 1) as nat, p);
        lemma_instr_asserts_vars(instrs[instrs.len() - k], p);
        lemma_all_vars_concat(
            crate::compile::asserts_from_end(instrs, (k - 1) as nat),
            instr_comp(instrs[instrs.len() - k]).0,
            p,
        );
    }
}

proof fn lemma_eaf_vars(f: Function, preds: Seq<usize>, k: nat, p: spec_fn(Seq<char>) -> bool)
    requires
        forall|x: Seq<char>| value_name(x) ==> #[trigger] p(x),
    ensures
        all_bool_vars_in(crate::compile::entry_asserts_fold(f, preds, k), p),
    decreases k,
{
    let none: Seq<BoolExprV> = Seq::empty();
    assert(all_bool_vars_in(none, p));
    if k != 0 && k <= preds.len() {
        lemma_eaf_vars(f, preds, (k - 1) as nat, p);
        let pr = preds[k - 1];
        assert(all_bool_vars_in(crate::compile::entry_cond_asserts(f, pr), p)) by {
            if (pr as int) < f.blocks.len() {
                match spec_terminator(f.blocks[pr as int]) {
                    Some(t) => {
                        if t.opcode is OpBr && t.operands.len() == 3 {
                            match crate::compile::op_text(t, 0) {
                                Some(dd) => {
                                    match crate::names::spec_resolve(dd) {
                                        Some(rv) => {
                                            lemma_rv_asserts_vars(dd, rv, p);
                                        },
                                        None => {},
                                    }
                                },
                                None => {},
                            }
                        }
                    },
                    None => {},
                }
            }
        }
        lemma_all_vars_concat(
            crate::compile::entry_asserts_fold(f, preds, (k - 1) as nat),
            crate::compile::entry_cond_asserts(f, pr),
            p,
        );
    }
}

/// Two assignments agreeing on every variable of every term satisfy the
/// list alike.
proof fn lemma_sat_frame(e1: SmtEnv, e2: SmtEnv, s: Seq<BoolExprV>)
    requires
        e1.ints == e2.ints,
        all_bool_vars_in(s, |x: Seq<char>| e1.bools[x] == e2.bools[x]),
    ensures
        satisfies_all(e1, s) == satisfies_all(e2, s),
{
    assert forall|i: int| 0 <= i < s.len() implies eval_bool(e1, #[trigger] s[i]) == eval_bool(
        e2,
        s[i],
    ) by {
        lemma_eval_frame(e1, e2, s[i]);
    }
}

proof fn lemma_append_dead_preds_empty(f: Function, d: BasicBlock, g: Function)
    requires
        targets_within(f),
        is_appended(f, d, g),
        f.blocks.len() < usize::MAX - 1,
        d.instrs.len() == 1,
        d.instrs[0].opcode == Opcode::OpReturn,
    ensures
        spec_preds(g, (f.blocks.len()) as usize) == Seq::<usize>::empty(),
{
    let n = f.blocks.len() as int;
    let dn = (f.blocks.len()) as usize;
    assert forall|k: nat| k <= (n + 2) as nat implies crate::cfg::preds_upto(g, dn, k)
        =~= Seq::<usize>::empty() by {
        lemma_append_dead_preds_upto(f, d, g, k);
    }
}

proof fn lemma_append_dead_preds_upto(f: Function, d: BasicBlock, g: Function, k: nat)
    requires
        targets_within(f),
        is_appended(f, d, g),
        f.blocks.len() < usize::MAX - 1,
        d.instrs.len() == 1,
        d.instrs[0].opcode == Opcode::OpReturn,
        k <= f.blocks.len() + 2,
    ensures
        crate::cfg::preds_upto(g, (f.blocks.len()) as usize, k) == Seq::<usize>::empty(),
    decreases k,
{
    let n = f.blocks.len() as int;
    let dn = (f.blocks.len()) as usize;
    if k != 0 {
        lemma_append_dead_preds_upto(f, d, g, (k - 1) as nat);
        let s = (k - 1) as usize;
        if (s as int) < n {
            lemma_append_succ(f, d, g, s);
            assert(!spec_succ(g, s).contains(dn));
        } else if (s as int) == n {
            assert(g.blocks[n] == d);
            assert(spec_terminator(d) == Some(d.instrs[0]));
            assert(spec_succ(g, s) =~= seq![end_node(g)]);
            assert(!spec_succ(g, s).contains(dn)) by {
                if spec_succ(g, s).contains(dn) {
                    assert(spec_succ(g, s)[0] == end_node(g));
                }
            }
        } else {
            assert(spec_succ(g, s) =~= Seq::<usize>::empty());
        }
    }
}

/// Appending a dead exit block cannot lose a panic either: whatever
/// models the unpadded function's analysis problem extends — by giving
/// the new block's variable the value of its own verification condition —
/// to a model of the padded one's.
pub proof fn lemma_dead_exit_block_keeps_panic(f: Function, d: BasicBlock, g: Function)
    requires
        f.blocks.len() >= 1,
        f.blocks.len() < usize::MAX - 1,
        targets_within(f),
        is_appended(f, d, g),
        d.instrs.len() == 1,
        d.instrs[0].opcode == Opcode::OpReturn,
        crate::ir::good_block_names(g),
        crate::ir::distinct_block_names(g),
    ensures
        models_exists(f) ==> models_exists(g),
{
    reveal_with_fuel(eval_bool, 6);
    reveal_with_fuel(bool_vars_in, 4);
    if models_exists(f) {
        let env = choose|env: SmtEnv| env_models(env, f);
        let n = f.blocks.len() as int;
        let dn = (f.blocks.len()) as usize;
        let nd = d.name@;
        let ge = end_node(g);
        let fe = end_node(f);
        let vd = eval_bool(env, node_phi(g, dn));
        let env2 = SmtEnv { bools: env.bools.insert(nd, vd), ints: env.ints };
        let pa = |x: Seq<char>| env2.bools[x] == env.bools[x];
        assert(g.blocks[n] == d);
        assert(node_name(g, dn) == nd);
        assert(spec_terminator(d) == Some(d.instrs[0]));
        assert(spec_succ(g, dn) =~= seq![ge]);
        // the new name collides with no value name and no other node name
        assert forall|x: Seq<char>| value_name(x) implies #[trigger] pa(x) by {
            lemma_value_not_node_name(g, dn, x);
        }
        assert forall|v: usize| (v as int) <= g.blocks.len() && v != dn implies pa(
            #[trigger] node_name(g, v),
        ) by {
            lemma_node_names_distinct(g, v, dn);
        }
        // the dead block's own binding holds by construction
        assert(satisfies_all(env2, node_script(g, dn))) by {
            reveal_with_fuel(crate::compile::asserts_from_end, 3);
            reveal_with_fuel(crate::compile::entry_asserts_fold, 2);
            lemma_append_dead_preds_empty(f, d, g);
            assert(instr_comp(d.instrs[0]).0 =~= Seq::<BoolExprV>::empty());
            assert(instr_comp(d.instrs[0]).1 is None);
            let ns = node_script(g, dn);
            assert(ns =~= seq![node_bind(g, dn)]);
            assert forall|i: int| 0 <= i < spec_succ(g, dn).len() implies pa(
                node_name(g, #[trigger] spec_succ(g, dn)[i]),
            ) by {
                assert(spec_succ(g, dn)[i] == ge);
            }
            lemma_phi_vars(g, dn, pa);
            lemma_eval_frame(env2, env, node_phi(g, dn));
            assert(env2.bools[nd] == vd);
            assert(eval_bool(env2, node_bind(g, dn)));
            assert forall|i: int| 0 <= i < ns.len() implies eval_bool(env2, #[trigger] ns[i]) by {
                assert(ns[i] == node_bind(g, dn));
            }
        }
        // every old node's script transfers: its variables avoid the new name
        assert forall|v: usize| (v as int) < f.blocks.len() implies satisfies_all(
            env2,
            node_script(g, v),
        ) by {
            lemma_append_script_eq(f, d, g, v);
            assert(satisfies_all(env, node_script(f, v)));
            lemma_walk_asserts_vars(
                f.blocks[v as int].instrs@,
                f.blocks[v as int].instrs.len() as nat,
                pa,
            );
            lemma_eaf_vars(f, spec_preds(f, v), spec_preds(f, v).len(), pa);
            lemma_succ_bound(g, v);
            lemma_append_succ(f, d, g, v);
            assert forall|i: int| 0 <= i < spec_succ(f, v).len() implies pa(
                node_name(f, #[trigger] spec_succ(f, v)[i]),
            ) by {
                assert(node_name(g, spec_succ(g, v)[i]) == node_name(f, spec_succ(f, v)[i]));
                let s = spec_succ(g, v)[i];
                assert(s != dn) by {
                    if s == dn {
                        assert(spec_succ(g, v).contains(dn));
                    }
                }
                assert(pa(node_name(g, s)));
            }
            lemma_phi_vars(f, v, pa);
            assert(pa(node_name(f, v))) by {
                assert(node_name(f, v) == node_name(g, v));
            }
            let bind = seq![node_bind(f, v)];
            assert(all_bool_vars_in(bind, pa)) by {
                reveal_with_fuel(bool_vars_in, 3);
                assert forall|i: int| 0 <= i < bind.len() implies bool_vars_in(
                    #[trigger] bind[i],
                    pa,
                ) by {
                    assert(bind[i] == node_bind(f, v));
                }
            }
            let ia = crate::compile::asserts_from_end(
                f.blocks[v as int].instrs@,
                f.blocks[v as int].instrs.len() as nat,
            );
            let eaf = crate::compile::entry_asserts_fold(f, spec_preds(f, v), spec_preds(f, v).len());
            lemma_all_vars_concat(ia, eaf, pa);
            lemma_all_vars_concat(ia + eaf, bind, pa);
            assert(node_script(f, v) == (ia + eaf) + bind);
            lemma_sat_frame(env2, env, node_script(f, v));
        }
        // the terminal node's script transfers too
        assert(satisfies_all(env2, node_script(g, ge))) by {
            lemma_append_preds(f, d, g, (f.blocks.len()) as usize);
            crate::cfg::lemma_preds_bound(f, fe);
            let pf = spec_preds(f, fe);
            let pg = spec_preds(g, ge);
            assert(pg == pf.push(dn));
            assert forall|i: int| 0 <= i < pf.len() implies crate::compile::entry_cond_asserts(
                g,
                #[trigger] pg[i],
            ) == crate::compile::entry_cond_asserts(f, pf[i]) by {
                assert(pg[i] == pf[i]);
                lemma_append_entry_asserts_eq(f, d, g, pf[i]);
            }
            lemma_eaf_eq_pointwise(g, f, pg, pf, pf.len());
            assert(crate::compile::entry_cond_asserts(g, dn) =~= Seq::<BoolExprV>::empty());
            let eaf_f = crate::compile::entry_asserts_fold(f, pf, pf.len());
            let eaf_g = crate::compile::entry_asserts_fold(g, pg, pg.len());
            assert(eaf_g =~= eaf_f);
            // the guard assertions hold under the extended assignment
            assert(satisfies_all(env, node_script(f, fe)));
            let ns_f = node_script(f, fe);
            assert(ns_f =~= eaf_f + seq![node_bind(f, fe)]);
            crate::analysis::lemma_sat_concat(env, eaf_f, seq![node_bind(f, fe)]);
            lemma_eaf_vars(f, pf, pf.len(), pa);
            lemma_sat_frame(env2, env, eaf_f);
            // and the binding evaluates to the negated flag on both sides
            lemma_end_guard_true(env, f);
            lemma_end_guard_true(env2, g);
            assert(spec_succ(f, fe) =~= Seq::<usize>::empty());
            assert(spec_succ(g, ge) =~= Seq::<usize>::empty());
            assert(eval_bool(env, node_bind(f, fe))) by {
                assert(seq![node_bind(f, fe)][0] == node_bind(f, fe));
            }
            assert(eval_bool(env, node_phi(f, fe)) == !env.bools[panic_var_name()]);
            assert(eval_bool(env2, node_phi(g, ge)) == !env2.bools[panic_var_name()]);
            assert(node_name(f, fe) == common_end_name());
            assert(node_name(g, ge) == common_end_name());
            assert(pa(common_end_name())) by {
                assert(node_name(g, ge) == common_end_name());
                assert(ge != dn);
            }
            assert(pa(panic_var_name()));
            assert(eval_bool(env2, node_bind(g, ge)));
            let ns_g = node_script(g, ge);
            assert(ns_g =~= eaf_g + seq![node_bind(g, ge)]);
            crate::analysis::lemma_sat_concat(env2, eaf_g, seq![node_bind(g, ge)]);
            assert(satisfies_all(env2, seq![node_bind(g, ge)])) by {
                assert forall|i: int| 0 <= i < 1 implies eval_bool(
                    env2,
                    #[trigger] seq![node_bind(g, ge)][i],
                ) by {
                    assert(seq![node_bind(g, ge)][i] == node_bind(g, ge));
                }
            }
        }
        assert forall|v: usize| (v as int) <= g.blocks.len() implies satisfies_all(
            env2,
            #[trigger] node_script(g, v),
        ) by {
            if (v as int) < f.blocks.len() {
            } else if v == dn {
                assert(satisfies_all(env2, node_script(g, dn)));
            } else {
                assert(v == ge);
                assert(satisfies_all(env2, node_script(g, ge)));
            }
        }
        // parameters and the entry negation carry over unchanged
        assert forall|k: int| 0 <= k < g.params.len() implies satisfies_all(
            env2,
            crate::compile::param_comp(#[trigger] g.params[k]),
        ) by {
            assert(g.params[k] == f.params[k]);
            assert(satisfies_all(env, crate::compile::param_comp(f.params[k])));
            lemma_param_comp_vars(f.params[k], pa);
            lemma_sat_frame(env2, env, crate::compile::param_comp(f.params[k]));
        }
        assert(!env2.bools[g.blocks[0].name@]) by {
            assert(g.blocks[0] == f.blocks[0]);
            assert(pa(node_name(g, 0usize)));
            assert(node_name(g, 0usize) == g.blocks[0].name@);
        }
        assert(env_models(env2, g));
    }
}

proof fn lemma_param_comp_vars(p: crate::ir::Param, pa: spec_fn(Seq<char>) -> bool)
    requires
        forall|x: Seq<char>| value_name(x) ==> #[trigger] pa(x),
    ensures
        all_bool_vars_in(crate::compile::param_comp(p), pa),
{
    reveal_with_fuel(bool_vars_in, 4);
    let pc = crate::compile::param_comp(p);
    if p.ty@ == "i1"@ || !(p.ty@ == "i32"@ || p.ty@ == "i64"@) {
        assert(all_bool_vars_in(pc, pa));
    } else {
        match crate::names::spec_resolve(p.printed@) {
            None => {
                assert(all_bool_vars_in(pc, pa));
            },
            Some(rv) => {
                lemma_rv_asserts_vars(p.printed@, rv, pa);
                assert forall|i: int| 0 <= i < pc.len() implies bool_vars_in(
                    #[trigger] pc[i],
                    pa,
                ) by {
                    let ra = rv_asserts(Some(rv));
                    if i < ra.len() {
                        assert(pc[i] == ra[i]);
                    } else {
                        assert(pc[i] == pc[ra.len() as int]);
                    }
                }
            },
        }
    }
}

/// Appending a dead exit block leaves the analysis problem satisfiable
/// exactly when it was: the verdicts of the padded and unpadded function
/// can then never stand on opposite conclusive sides.
pub proof fn lemma_dead_exit_block_same_problem(f: Function, d: BasicBlock, g: Function)
    requires
        f.blocks.len() >= 1,
        f.blocks.len() < usize::MAX - 1,
        targets_within(f),
        is_appended(f, d, g),
        d.instrs.len() == 1,
        d.instrs[0].opcode == Opcode::OpReturn,
        crate::ir::good_block_names(g),
        crate::ir::distinct_block_names(g),
    ensures
        models_exists(g) == models_exists(f),
{
    lemma_dead_exit_block_no_new_panic(f, d, g);
    lemma_dead_exit_block_keeps_panic(f, d, g);
}

} // verus!
