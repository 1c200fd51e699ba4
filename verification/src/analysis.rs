//! Backward symbolic execution of one function: compile the assertion
//! list, demand that the entry block's predicate is false, and ask the
//! solver. A satisfiable set exhibits arguments that reach a panic; an
//! unsatisfiable one shows that none can.

use vstd::prelude::*;

use crate::Verdict;
use crate::compile::{codegen_function, node_script, param_comp, spec_fn_script, nodes_scripts, params_fold};
use crate::ir::Function;
use crate::names::chars_of_str;
use crate::smt::{SatOutcome, solve_script};
use crate::term::{BoolExpr, BoolExprV, SmtEnv, eval_bool, satisfiable, satisfies_all, views_of};
use crate::topo::{has_topo_order, is_topo_order, lemma_distinct_bounded_full};

verus! {

/// The result of analyzing one function: a verdict, with the solver's
/// model text when panic is reachable, or the report that the graph is
/// cyclic and the function was skipped.
pub enum AnalysisOutcome {
    Analyzed(Verdict, Option<String>),
    CyclicCfg,
}

/// The assignment satisfies the whole analysis problem of the function:
/// every node's assertions, every parameter constraint, and the negation
/// of the entry block's predicate.
pub open spec fn env_models(env: SmtEnv, f: Function) -> bool {
    &&& forall|v: usize|
        (v as int) <= f.blocks.len() ==> satisfies_all(env, #[trigger] node_script(f, v))
    &&& forall|k: int| 0 <= k < f.params.len() ==> satisfies_all(env, #[trigger] param_comp(f.params[k]))
    &&& !env.bools[f.blocks[0].name@]
}

/// Some assignment satisfies the function's analysis problem: panic is
/// reachable in the compiled model.
pub open spec fn models_exists(f: Function) -> bool {
    exists|env: SmtEnv| env_models(env, f)
}

pub proof fn lemma_sat_concat(env: SmtEnv, a: Seq<BoolExprV>, b: Seq<BoolExprV>)
    ensures
        satisfies_all(env, a + b) <==> (satisfies_all(env, a) && satisfies_all(env, b)),
{
    if satisfies_all(env, a + b) {
        assert forall|i: int| 0 <= i < a.len() implies eval_bool(env, #[trigger] a[i]) by {
            assert((a + b)[i] == a[i]);
        }
        assert forall|i: int| 0 <= i < b.len() implies eval_bool(env, #[trigger] b[i]) by {
            assert((a + b)[a.len() + i] == b[i]);
        }
    }
    if satisfies_all(env, a) && satisfies_all(env, b) {
        assert forall|i: int| 0 <= i < (a + b).len() implies eval_bool(env, #[trigger] (a + b)[i])
            by {
            if i < a.len() {
                assert((a + b)[i] == a[i]);
            } else {
                assert((a + b)[i] == b[i - a.len()]);
            }
        }
    }
}

proof fn lemma_nodes_scripts_sat(env: SmtEnv, f: Function, bord: Seq<usize>, k: nat)
    requires
        k <= bord.len(),
    ensures
        satisfies_all(env, nodes_scripts(f, bord, k)) <==> (forall|j: int|
            0 <= j < k ==> satisfies_all(env, node_script(f, #[trigger] bord[j]))),
    decreases k,
{
    if k == 0 {
        assert(satisfies_all(env, Seq::<BoolExprV>::empty()));
    } else {
        lemma_nodes_scripts_sat(env, f, bord, (k - 1) as nat);
        lemma_sat_concat(env, nodes_scripts(f, bord, (k - 1) as nat), node_script(f, bord[k - 1]));
    }
}

proof fn lemma_params_sat(env: SmtEnv, f: Function, k: nat)
    requires
        k <= f.params.len(),
    ensures
        satisfies_all(env, params_fold(f.params@, k)) <==> (forall|j: int|
            0 <= j < k ==> satisfies_all(env, param_comp(#[trigger] f.params@[j]))),
    decreases k,
{
    if k == 0 {
        assert(satisfies_all(env, Seq::<BoolExprV>::empty()));
    } else {
        lemma_params_sat(env, f, (k - 1) as nat);
        lemma_sat_concat(env, params_fold(f.params@, (k - 1) as nat), param_comp(f.params@[k - 1]));
    }
}

/// Satisfying the compiled assertion list is the same as satisfying the
/// function's analysis problem, whichever topological order compiled it.
proof fn lemma_script_models(env: SmtEnv, f: Function, bord: Seq<usize>)
    requires
        f.blocks.len() >= 1,
        is_topo_order(f, bord.reverse()),
    ensures
        satisfies_all(
            env,
            spec_fn_script(f, bord) + seq![
                BoolExprV::BNot(Box::new(BoolExprV::BVar(f.blocks[0].name@))),
            ],
        ) <==> env_models(env, f),
{
    let entry = seq![BoolExprV::BNot(Box::new(BoolExprV::BVar(f.blocks[0].name@)))];
    let ns = nodes_scripts(f, bord, bord.len());
    let ps = params_fold(f.params@, f.params.len() as nat);
    lemma_sat_concat(env, spec_fn_script(f, bord), entry);
    lemma_sat_concat(env, ns, ps);
    lemma_nodes_scripts_sat(env, f, bord, bord.len());
    lemma_params_sat(env, f, f.params.len() as nat);
    assert(satisfies_all(env, entry) <==> !env.bools[f.blocks[0].name@]) by {
        reveal_with_fuel(eval_bool, 3);
        assert(entry[0] == BoolExprV::BNot(Box::new(BoolExprV::BVar(f.blocks[0].name@))));
        if !env.bools[f.blocks[0].name@] {
            assert forall|i: int| 0 <= i < entry.len() implies eval_bool(env, #[trigger] entry[i])
                by {
                assert(entry[i] == entry[0]);
            }
        }
    }
    // the backward order covers every node exactly
    assert(bord.reverse().len() == bord.len());
    lemma_distinct_bounded_full(bord.reverse(), (f.blocks.len()) as usize);
    if (forall|j: int| 0 <= j < bord.len() ==> satisfies_all(env, node_script(f, #[trigger] bord[j]))) {
        assert forall|v: usize| (v as int) <= f.blocks.len() implies satisfies_all(
            env,
            #[trigger] node_script(f, v),
        ) by {
            assert(bord.reverse().contains(v));
            let i = choose|i: int| 0 <= i < bord.reverse().len() && bord.reverse()[i] == v;
            assert(bord[bord.len() - 1 - i] == v);
            assert(satisfies_all(env, node_script(f, bord[bord.len() - 1 - i])));
        }
    }
    assert forall|j: int| 0 <= j < bord.len() implies ((#[trigger] bord[j]) as int)
        <= f.blocks.len() by {
        assert(bord.reverse()[bord.len() - 1 - j] == bord[j]);
    }
}

/// Analyze one function by backward symbolic execution. A cyclic graph is
/// reported and skipped; otherwise the verdict follows the solver: a
/// satisfiable assertion set means a panic is reachable (`Unsafe`, with
/// the model exhibiting triggering arguments), an unsatisfiable one means
/// none is (`Safe`), and an inconclusive answer stays `Unknown`.
pub fn backward_symbolic_execution(f: &Function) -> (r: AnalysisOutcome)
    requires
        f.blocks.len() >= 1,
        f.blocks.len() < usize::MAX - 1,
    ensures
        (r is CyclicCfg) <==> !has_topo_order(*f),
        match r {
            AnalysisOutcome::Analyzed(v, _) => (v == Verdict::Safe ==> !models_exists(*f)) && (v
                == Verdict::Unsafe ==> models_exists(*f)) && (crate::ir::no_unreachable_terminator(
                *f,
            ) ==> v != Verdict::Unsafe) && (crate::laws::entry_panics_immediately(*f) ==> v
                != Verdict::Safe),
            AnalysisOutcome::CyclicCfg => true,
        },
{
    let (bord, mut script) = match codegen_function(f) {
        Some(p) => p,
        None => {
            return AnalysisOutcome::CyclicCfg;
        },
    };
    let entry_name = chars_of_str(f.blocks[0].name.as_str());
    script.push(BoolExpr::BNot(Box::new(BoolExpr::BVar(entry_name))));
    proof {
        reveal_with_fuel(crate::term::bool_view, 2);
        assert(views_of(script@) =~= spec_fn_script(*f, bord@) + seq![
            BoolExprV::BNot(Box::new(BoolExprV::BVar(f.blocks[0].name@))),
        ]);
    }
    let rendered = crate::smt::render_script(&script);
    let text = crate::pretty::string_from_chars(&rendered);
    let outcome = solve_script(&script, &text);
    proof {
        assert(is_topo_order(*f, bord@.reverse()));
        if satisfiable(views_of(script@)) {
            let env = choose|env: SmtEnv| satisfies_all(env, views_of(script@));
            lemma_script_models(env, *f, bord@);
            assert(env_models(env, *f));
            if crate::ir::no_unreachable_terminator(*f) {
                crate::laws::lemma_no_unreachable_unsatisfiable(*f);
                assert(false);
            }
        }
        if models_exists(*f) {
            let env = choose|env: SmtEnv| env_models(env, *f);
            lemma_script_models(env, *f, bord@);
            assert(satisfies_all(env, views_of(script@)));
        }
        if crate::laws::entry_panics_immediately(*f) {
            crate::laws::lemma_entry_unreachable_reachable_general(*f);
            assert(models_exists(*f));
        }
    }
    match outcome {
        SatOutcome::Sat(m) => AnalysisOutcome::Analyzed(Verdict::Unsafe, m),
        SatOutcome::Unsat => AnalysisOutcome::Analyzed(Verdict::Safe, None),
        SatOutcome::Unknown => AnalysisOutcome::Analyzed(Verdict::Unknown, None),
    }
}

} // verus!
