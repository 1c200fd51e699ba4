use panic_reach::Verdict;
use panic_reach::analysis::{AnalysisOutcome, backward_symbolic_execution};
use panic_reach::cfg::{get_backward_edges, get_forward_edges};
use panic_reach::compile::{IsCleanup, is_panic_block};
use panic_reach::ir::{BasicBlock, Function, IcmpKind, Instr, Module, Opcode, Operand, Param};
use panic_reach::names::{Resolved, chars_of_str, parse_i32_chars, resolve_chars};
use panic_reach::pretty::{pretty_print_function, print_file_functions, selects_function};
use panic_reach::smt::render_script;
use panic_reach::term::{BoolExpr, CmpOp, IntExpr};
use panic_reach::topo::forward_topological_sort;

fn instr(opcode: Opcode, printed: &str, ty: &str, operands: Vec<Operand>) -> Instr {
    Instr {
        opcode,
        printed: printed.to_string(),
        ty: ty.to_string(),
        operands,
        icmp: None,
        callee: None,
    }
}

fn ret() -> Instr {
    instr(Opcode::OpReturn, "  ret i32 %0", "void", vec![])
}

fn unreachable_instr() -> Instr {
    instr(Opcode::OpUnreachable, "  unreachable", "void", vec![])
}

fn icmp(printed: &str, kind: IcmpKind, a: &str, b: &str) -> Instr {
    let mut i = instr(
        Opcode::OpICmp,
        printed,
        "i1",
        vec![Operand::Text(a.to_string()), Operand::Text(b.to_string())],
    );
    i.icmp = Some(kind);
    i
}

fn br_cond(d: &str, t1: usize, t2: usize) -> Instr {
    instr(
        Opcode::OpBr,
        "  br i1 ...",
        "void",
        vec![Operand::Text(d.to_string()), Operand::Target(t1), Operand::Target(t2)],
    )
}

fn block(name: &str, instrs: Vec<Instr>) -> BasicBlock {
    BasicBlock { name: name.to_string(), instrs }
}

fn i32_param(printed: &str) -> Param {
    Param { printed: printed.to_string(), ty: "i32".to_string() }
}

fn func(name: &str, params: Vec<Param>, blocks: Vec<BasicBlock>) -> Function {
    Function { name: name.to_string(), params, blocks }
}

fn verdict_of(f: &Function) -> Verdict {
    match backward_symbolic_execution(f) {
        AnalysisOutcome::Analyzed(v, _) => v,
        AnalysisOutcome::CyclicCfg => panic!("unexpected cyclic graph"),
    }
}

/// A function whose single block returns is reported safe.
#[test]
fn single_return_is_safe() {
    let f = func("id", vec![i32_param("i32 %0")], vec![block("start", vec![ret()])]);
    assert_eq!(verdict_of(&f), Verdict::Safe);
}

/// A function whose entry terminates immediately in `unreachable` is
/// reported unsafe, with a model.
#[test]
fn immediate_unreachable_is_unsafe() {
    let f = func("always_panic", vec![], vec![block("start", vec![unreachable_instr()])]);
    match backward_symbolic_execution(&f) {
        AnalysisOutcome::Analyzed(v, m) => {
            assert_eq!(v, Verdict::Unsafe);
            assert!(m.is_some());
        }
        AnalysisOutcome::CyclicCfg => panic!("not cyclic"),
    }
}

/// A two-sided branch where both sides return is safe.
#[test]
fn branch_both_return_is_safe() {
    let f = func(
        "neg_abs",
        vec![i32_param("i32 %0")],
        vec![
            block(
                "start",
                vec![
                    icmp("  %2 = icmp slt i32 %0, 0", IcmpKind::IcmpSlt, "i32 %0", "i32 0"),
                    br_cond("i1 %2", 1, 2),
                ],
            ),
            block("bb1", vec![ret()]),
            block("bb2", vec![ret()]),
        ],
    );
    assert_eq!(verdict_of(&f), Verdict::Safe);
}

fn guarded_panic_function() -> Function {
    func(
        "bad",
        vec![i32_param("i32 %0")],
        vec![
            block(
                "start",
                vec![
                    icmp("  %2 = icmp eq i32 %0, 7", IcmpKind::IcmpEq, "i32 %0", "i32 7"),
                    br_cond("i1 %2", 1, 2),
                ],
            ),
            block("bb1", vec![unreachable_instr()]),
            block("bb2", vec![ret()]),
        ],
    )
}

/// A branch guarding an `unreachable` block is unsafe and the model
/// mentions the triggering constant.
#[test]
fn guarded_unreachable_is_unsafe() {
    match backward_symbolic_execution(&guarded_panic_function()) {
        AnalysisOutcome::Analyzed(v, m) => {
            assert_eq!(v, Verdict::Unsafe);
            let m = m.expect("a model should accompany an unsafe verdict");
            assert!(m.contains("7"));
        }
        AnalysisOutcome::CyclicCfg => panic!("not cyclic"),
    }
}

/// The checked-multiply lowering: the overflow flag feeds a branch to an
/// `unreachable` cleanup block, and the analyzer finds it reachable.
#[test]
fn smul_overflow_branch_is_unsafe() {
    let mut call = instr(
        Opcode::OpCall,
        "  %3 = call { i32, i1 } @llvm.smul.with.overflow.i32(i32 %0, i32 %1)",
        "{ i32, i1 }",
        vec![
            Operand::Text("i32 %0".to_string()),
            Operand::Text("i32 %1".to_string()),
        ],
    );
    call.callee = Some("llvm.smul.with.overflow.i32".to_string());
    let extract = instr(
        Opcode::OpExtractValue,
        "  %4 = extractvalue { i32, i1 } %3, 1",
        "i1",
        vec![Operand::Text("{ i32, i1 } %3".to_string())],
    );
    let f = func(
        "smul_ok",
        vec![i32_param("i32 %0"), i32_param("i32 %1")],
        vec![
            block("start", vec![call, extract, br_cond("i1 %4", 1, 2)]),
            block("panic_bb", vec![unreachable_instr()]),
            block("ret_bb", vec![ret()]),
        ],
    );
    assert_eq!(verdict_of(&f), Verdict::Unsafe);
}

/// A function containing a loop is reported cyclic and skipped.
#[test]
fn loop_is_skipped_as_cyclic() {
    let f = func(
        "looper",
        vec![],
        vec![block(
            "start",
            vec![instr(Opcode::OpBr, "  br label %start", "void", vec![Operand::Target(0)])],
        )],
    );
    assert!(matches!(backward_symbolic_execution(&f), AnalysisOutcome::CyclicCfg));
}

/// Re-analyzing the same function yields the same verdict.
#[test]
fn reanalysis_is_stable() {
    let f = guarded_panic_function();
    let v1 = verdict_of(&f);
    let v2 = verdict_of(&f);
    assert_eq!(v1, v2);
    let g = func("id", vec![i32_param("i32 %0")], vec![block("start", vec![ret()])]);
    assert_eq!(verdict_of(&g), verdict_of(&g));
}

/// Appending a block that nothing reaches and that exits directly keeps
/// the verdict.
#[test]
fn dead_block_keeps_verdict() {
    let mut f = guarded_panic_function();
    let before = verdict_of(&f);
    f.blocks.push(block("dead", vec![ret()]));
    assert_eq!(verdict_of(&f), before);

    let mut g = func("id", vec![i32_param("i32 %0")], vec![block("start", vec![ret()])]);
    let before_g = verdict_of(&g);
    g.blocks.push(block("dead", vec![ret()]));
    assert_eq!(verdict_of(&g), before_g);
}

/// The forward and backward edge maps are mutual inverses on a diamond.
#[test]
fn edge_maps_are_mutual_inverses() {
    let f = func(
        "diamond",
        vec![],
        vec![
            block(
                "start",
                vec![
                    icmp("  %2 = icmp eq i32 %0, 0", IcmpKind::IcmpEq, "i32 %0", "i32 0"),
                    br_cond("i1 %2", 1, 2),
                ],
            ),
            block("left", vec![instr(Opcode::OpBr, "  br", "void", vec![Operand::Target(3)])]),
            block("right", vec![instr(Opcode::OpBr, "  br", "void", vec![Operand::Target(3)])]),
            block("join", vec![ret()]),
        ],
    );
    let fwd = get_forward_edges(&f);
    let bwd = get_backward_edges(&f);
    assert_eq!(fwd.len(), 5);
    assert_eq!(bwd.len(), 5);
    assert_eq!(fwd[0], vec![1, 2]);
    assert_eq!(fwd[1], vec![3]);
    assert_eq!(fwd[2], vec![3]);
    assert_eq!(fwd[3], vec![4]);
    assert!(fwd[4].is_empty());
    assert_eq!(bwd[0], Vec::<usize>::new());
    assert_eq!(bwd[1], vec![0]);
    assert_eq!(bwd[2], vec![0]);
    assert_eq!(bwd[3], vec![1, 2]);
    assert_eq!(bwd[4], vec![3]);
    for (s, dests) in fwd.iter().enumerate() {
        for &d in dests {
            assert!(bwd[d].contains(&s));
        }
    }
    for (d, sources) in bwd.iter().enumerate() {
        for &s in sources {
            assert!(fwd[s].contains(&d));
        }
    }
}

/// The topological order visits each node once and respects every edge.
#[test]
fn topological_order_respects_edges() {
    let f = func(
        "diamond",
        vec![],
        vec![
            block(
                "start",
                vec![
                    icmp("  %2 = icmp eq i32 %0, 0", IcmpKind::IcmpEq, "i32 %0", "i32 0"),
                    br_cond("i1 %2", 1, 2),
                ],
            ),
            block("left", vec![instr(Opcode::OpBr, "  br", "void", vec![Operand::Target(3)])]),
            block("right", vec![instr(Opcode::OpBr, "  br", "void", vec![Operand::Target(3)])]),
            block("join", vec![ret()]),
        ],
    );
    let ord = forward_topological_sort(&f).expect("acyclic");
    assert_eq!(ord.len(), 5);
    let mut seen = vec![false; 5];
    for &v in &ord {
        assert!(!seen[v]);
        seen[v] = true;
    }
    assert!(seen.iter().all(|&s| s));
    let pos = |v: usize| ord.iter().position(|&x| x == v).unwrap();
    let fwd = get_forward_edges(&f);
    for (s, dests) in fwd.iter().enumerate() {
        for &d in dests {
            assert!(pos(s) < pos(d));
        }
    }
}

/// Name resolution: registers come back verbatim, literals become
/// `const_` names, and malformed literals resolve to nothing.
#[test]
fn name_resolution_cases() {
    let reg = resolve_chars(&chars_of_str("  %5 = icmp eq i32 %4, 7"));
    match reg {
        Some(Resolved::Reg(n)) => assert_eq!(n.iter().collect::<String>(), "%5"),
        _ => panic!("expected a register"),
    }
    match resolve_chars(&chars_of_str("i32 7")) {
        Some(Resolved::IntConst(tok, v)) => {
            assert_eq!(tok.iter().collect::<String>(), "7");
            assert_eq!(v, 7);
        }
        _ => panic!("expected an integer constant"),
    }
    match resolve_chars(&chars_of_str("i32 -12")) {
        Some(Resolved::IntConst(_, v)) => assert_eq!(v, -12),
        _ => panic!("expected an integer constant"),
    }
    match resolve_chars(&chars_of_str("i1 true")) {
        Some(Resolved::BoolConst(b)) => assert!(b),
        _ => panic!("expected a boolean constant"),
    }
    match resolve_chars(&chars_of_str("i1 false")) {
        Some(Resolved::BoolConst(b)) => assert!(!b),
        _ => panic!("expected a boolean constant"),
    }
    assert!(resolve_chars(&chars_of_str("i64 99999999999")).is_none());
    assert!(resolve_chars(&chars_of_str("nonsense")).is_none());
    match resolve_chars(&chars_of_str("i32 -2147483648")) {
        Some(Resolved::IntConst(_, v)) => assert_eq!(v, i32::MIN),
        _ => panic!("expected an integer constant"),
    }
    assert!(resolve_chars(&chars_of_str("i32 2147483648")).is_none());
}

/// The resolver's identifier: verbatim for registers, `const_`-prefixed
/// for literals.
#[test]
fn var_names() {
    let n = panic_reach::names::get_var_name("i32 7").expect("a constant resolves");
    assert_eq!(n.iter().collect::<String>(), "const_7");
    let n = panic_reach::names::get_var_name("  %5 = add i32 %4, 1").expect("a register resolves");
    assert_eq!(n.iter().collect::<String>(), "%5");
    assert!(panic_reach::names::get_var_name("garbage").is_none());
}

/// Blocks are found by name.
#[test]
fn block_lookup() {
    let f = func(
        "two",
        vec![],
        vec![block("start", vec![ret()]), block("other", vec![ret()])],
    );
    let b = panic_reach::ir::get_basic_block_by_name(&f, "other").expect("present");
    assert_eq!(b.name, "other");
    assert!(panic_reach::ir::get_basic_block_by_name(&f, "absent").is_none());
}

/// Resolving the same printed form twice yields the same identifier.
#[test]
fn resolution_is_deterministic() {
    let a = resolve_chars(&chars_of_str("  %7 = add i32 %5, %6"));
    let b = resolve_chars(&chars_of_str("  %7 = add i32 %5, %6"));
    match (a, b) {
        (Some(Resolved::Reg(x)), Some(Resolved::Reg(y))) => assert_eq!(x, y),
        _ => panic!("expected registers"),
    }
}

/// A `switch` terminator contributes each distinct case target once.
#[test]
fn switch_edges_deduplicate() {
    let f = func(
        "switchy",
        vec![],
        vec![
            block(
                "start",
                vec![instr(
                    Opcode::OpSwitch,
                    "  switch i32 %0 ...",
                    "void",
                    vec![
                        Operand::Text("i32 %0".to_string()),
                        Operand::Target(1),
                        Operand::Text("i32 1".to_string()),
                        Operand::Target(2),
                        Operand::Text("i32 2".to_string()),
                        Operand::Target(1),
                    ],
                )],
            ),
            block("dflt", vec![ret()]),
            block("case1", vec![ret()]),
        ],
    );
    let fwd = get_forward_edges(&f);
    assert_eq!(fwd[0], vec![1, 2]);
    let ord = forward_topological_sort(&f);
    assert!(ord.is_some());
}

/// The solver text of a small assertion set, character for character:
/// sorted symbols, injective escaping, declarations before assertions.
#[test]
fn rendered_script_text() {
    let name = |s: &str| s.chars().collect::<Vec<char>>();
    let script = vec![
        BoolExpr::BEqBool(
            Box::new(BoolExpr::BVar(name("x|y\\z!w\0q"))),
            Box::new(BoolExpr::BLit(true)),
        ),
        BoolExpr::BCmp(CmpOp::CmpGe, IntExpr::IVar(name("%0")), IntExpr::ILit(-12)),
    ];
    let text: String = render_script(&script).iter().collect();
    assert_eq!(
        text,
        "(declare-const |b!x!vy!sz!!w!zq| Bool)\n\
         (declare-const |i!%0| Int)\n\
         (assert (= |b!x!vy!sz!!w!zq| true))\n\
         (assert (>= |i!%0| (- 12)))\n"
    );
    assert!(!text.contains('\0'));
}

/// A block name with a NUL byte flows through the whole analysis without
/// trouble.
#[test]
fn nul_in_names_is_handled() {
    let f = func(
        "odd",
        vec![i32_param("i32 %0")],
        vec![block("start\0here", vec![ret()])],
    );
    assert_eq!(verdict_of(&f), Verdict::Safe);
}

/// Decimal parsing agrees with the standard library on its edges.
#[test]
fn parse_i32_edges() {
    assert_eq!(parse_i32_chars(&chars_of_str("0")), Some(0));
    assert_eq!(parse_i32_chars(&chars_of_str("+41")), Some(41));
    assert_eq!(parse_i32_chars(&chars_of_str("-2147483648")), Some(i32::MIN));
    assert_eq!(parse_i32_chars(&chars_of_str("2147483647")), Some(i32::MAX));
    assert_eq!(parse_i32_chars(&chars_of_str("2147483648")), None);
    assert_eq!(parse_i32_chars(&chars_of_str("-2147483649")), None);
    assert_eq!(parse_i32_chars(&chars_of_str("")), None);
    assert_eq!(parse_i32_chars(&chars_of_str("-")), None);
    assert_eq!(parse_i32_chars(&chars_of_str("1a")), None);
}

/// The driver filter keeps functions whose demangled name mentions the
/// stem and drops the entry point.
#[test]
fn symbol_filter() {
    assert!(selects_function("_ZN4demo2id17h0123456789abcdefE", "demo"));
    assert!(!selects_function("_ZN4demo4main17h0123456789abcdefE", "demo"));
    assert!(!selects_function("_ZN5other2fn17h0123456789abcdefE", "demo"));
}

/// Panic classification of block terminators.
#[test]
fn panic_block_classification() {
    assert_eq!(is_panic_block(&block("a", vec![unreachable_instr()])), IsCleanup::Yes);
    assert_eq!(is_panic_block(&block("a", vec![ret()])), IsCleanup::No);
    assert_eq!(
        is_panic_block(&block("a", vec![instr(Opcode::OpResume, "  resume", "void", vec![])])),
        IsCleanup::Unknown
    );
    assert_eq!(is_panic_block(&block("a", vec![])), IsCleanup::Unknown);
}

/// The module listing names every function with its demangled form.
#[test]
fn module_listing() {
    let m = Module {
        name: "demo.bc".to_string(),
        functions: vec![func("plain", vec![], vec![block("start", vec![ret()])])],
    };
    let s = print_file_functions(&m);
    assert_eq!(s, "Functions in demo.bc:\n\tplain == plain\n");
}

/// The function rendition shows its blocks, statements and successors.
#[test]
fn function_rendition() {
    let f = func("id", vec![i32_param("i32 %0")], vec![block("start", vec![ret()])]);
    let s = pretty_print_function(&f);
    assert_eq!(
        s,
        "Number of Nodes: 1\nArg count: 1\nBasic Blocks:\n\
         \tBasic Block: start\n\t\tis_cleanup: No\n\t\tStatement:   ret i32 %0\n\
         \t\tLast statement is a terminator\nStart node: start\n\
         \tSuccessor to start node: common_end\n"
    );
}
