//! Control-flow graph extraction: forward and backward edge maps over the
//! blocks of a function plus the synthetic terminal node `common_end`.
//!
//! Nodes are numbered `0 .. blocks.len()` in block order; the terminal node
//! has number `blocks.len()`. Edges follow the terminator of each block;
//! terminators outside the supported set, malformed operand lists and
//! out-of-range targets contribute no edges.

use vstd::prelude::*;

use crate::ir::{BasicBlock, Function, Instr, Opcode, Operand, spec_terminator};

verus! {

/// The number of the synthetic terminal node.
pub open spec fn end_node(f: Function) -> usize {
    f.blocks.len() as usize
}

/// The branch-target block index held by an operand, when the operand is a
/// target in range.
pub open spec fn operand_target(f: Function, op: Operand) -> Option<usize> {
    match op {
        Operand::Target(t) => if (t as int) < f.blocks.len() {
            Some(t)
        } else {
            None
        },
        Operand::Text(_) => None,
    }
}

/// The deduplicated targets of a `switch` terminator among its first `k`
/// operands: every odd-numbered operand names a case target.
pub open spec fn switch_targets(f: Function, ops: Seq<Operand>, k: nat) -> Seq<usize>
    decreases k,
{
    if k == 0 || k > ops.len() {
        Seq::empty()
    } else {
        let prev = switch_targets(f, ops, (k - 1) as nat);
        if (k - 1) % 2 == 1 {
            match operand_target(f, ops[k - 1]) {
                Some(t) => if prev.contains(t) {
                    prev
                } else {
                    prev.push(t)
                },
                None => prev,
            }
        } else {
            prev
        }
    }
}

/// The successor list contributed by a terminator instruction.
pub open spec fn term_targets(f: Function, t: Instr) -> Seq<usize> {
    match t.opcode {
        Opcode::OpReturn => seq![end_node(f)],
        Opcode::OpUnreachable => seq![end_node(f)],
        Opcode::OpBr => if t.operands.len() == 1 {
            match operand_target(f, t.operands[0]) {
                Some(tg) => seq![tg],
                None => Seq::empty(),
            }
        } else if t.operands.len() == 3 {
            match (operand_target(f, t.operands[1]), operand_target(f, t.operands[2])) {
                (Some(t1), Some(t2)) => if t1 == t2 {
                    seq![t1]
                } else {
                    seq![t1, t2]
                },
                (Some(t1), None) => seq![t1],
                (None, Some(t2)) => seq![t2],
                (None, None) => Seq::empty(),
            }
        } else {
            Seq::empty()
        },
        Opcode::OpSwitch => switch_targets(f, t.operands@, t.operands.len() as nat),
        _ => Seq::empty(),
    }
}

/// The successors of node `v`: empty for the terminal node and for blocks
/// without a supported terminator.
pub open spec fn spec_succ(f: Function, v: usize) -> Seq<usize> {
    if (v as int) < f.blocks.len() {
        match spec_terminator(f.blocks[v as int]) {
            Some(t) => term_targets(f, t),
            None => Seq::empty(),
        }
    } else {
        Seq::empty()
    }
}

/// There is a forward edge from `s` to `d`.
pub open spec fn spec_edge(f: Function, s: usize, d: usize) -> bool {
    spec_succ(f, s).contains(d)
}

/// The predecessors of `d` among the nodes below `k`, in ascending order.
pub open spec fn preds_upto(f: Function, d: usize, k: nat) -> Seq<usize>
    decreases k,
{
    if k == 0 {
        Seq::empty()
    } else {
        let prev = preds_upto(f, d, (k - 1) as nat);
        if spec_edge(f, (k - 1) as usize, d) {
            prev.push((k - 1) as usize)
        } else {
            prev
        }
    }
}

/// The predecessors of node `d`.
pub open spec fn spec_preds(f: Function, d: usize) -> Seq<usize> {
    preds_upto(f, d, (f.blocks.len() + 1) as nat)
}

pub proof fn lemma_switch_targets_bound(f: Function, ops: Seq<Operand>, k: nat)
    ensures
        forall|i: int|
            0 <= i < switch_targets(f, ops, k).len()
                ==> (#[trigger] switch_targets(f, ops, k)[i] as int) < f.blocks.len(),
    decreases k,
{
    if k != 0 && k <= ops.len() {
        lemma_switch_targets_bound(f, ops, (k - 1) as nat);
        let prev = switch_targets(f, ops, (k - 1) as nat);
        let cur = switch_targets(f, ops, k);
        assert forall|i: int| 0 <= i < cur.len() implies (cur[i] as int) < f.blocks.len() by {
            if i < prev.len() {
                assert(cur[i] == prev[i]);
            }
        }
    }
}

/// Every successor is a node of the graph: a block or the terminal node.
pub proof fn lemma_succ_bound(f: Function, v: usize)
    ensures
        forall|i: int|
            0 <= i < spec_succ(f, v).len()
                ==> (#[trigger] spec_succ(f, v)[i] as int) <= f.blocks.len(),
{
    if (v as int) < f.blocks.len() {
        match spec_terminator(f.blocks[v as int]) {
            Some(t) => {
                if t.opcode is OpSwitch {
                    lemma_switch_targets_bound(f, t.operands@, t.operands.len() as nat);
                }
            },
            None => {},
        }
    }
}

proof fn lemma_switch_targets_no_dup(f: Function, ops: Seq<Operand>, k: nat)
    ensures
        switch_targets(f, ops, k).no_duplicates(),
    decreases k,
{
    if k != 0 && k <= ops.len() {
        lemma_switch_targets_no_dup(f, ops, (k - 1) as nat);
    }
}

/// A successor list never repeats a node.
pub proof fn lemma_succ_no_dup(f: Function, v: usize)
    ensures
        spec_succ(f, v).no_duplicates(),
{
    if (v as int) < f.blocks.len() {
        match spec_terminator(f.blocks[v as int]) {
            Some(t) => {
                if t.opcode is OpSwitch {
                    lemma_switch_targets_no_dup(f, t.operands@, t.operands.len() as nat);
                }
            },
            None => {},
        }
    }
}

proof fn lemma_preds_upto_contains(f: Function, d: usize, k: nat, s: usize)
    ensures
        preds_upto(f, d, k).contains(s) <==> ((s as nat) < k && spec_edge(f, s, d)),
    decreases k,
{
    if k != 0 {
        lemma_preds_upto_contains(f, d, (k - 1) as nat, s);
        if (s as nat) < k && spec_edge(f, s, d) {
            if (s as nat) == (k - 1) as nat {
                assert(preds_upto(f, d, k)[preds_upto(f, d, k).len() - 1] == s);
            } else {
                assert(preds_upto(f, d, (k - 1) as nat).contains(s));
                let prev = preds_upto(f, d, (k - 1) as nat);
                let i = choose|i: int| 0 <= i < prev.len() && prev[i] == s;
                assert(preds_upto(f, d, k)[i] == s);
            }
        }
    }
}

/// The forward and backward edge maps are mutual inverses: `s` stands among
/// the predecessors of `d` exactly when `d` stands among the successors of
/// `s`.
pub proof fn lemma_edge_maps_mutual_inverses(f: Function, s: usize, d: usize)
    requires
        (s as int) <= f.blocks.len(),
    ensures
        spec_preds(f, d).contains(s) <==> spec_succ(f, s).contains(d),
{
    lemma_preds_upto_contains(f, d, (f.blocks.len() + 1) as nat, s);
}

proof fn lemma_preds_upto_bound(f: Function, d: usize, k: nat)
    ensures
        forall|i: int|
            0 <= i < preds_upto(f, d, k).len() ==> (#[trigger] preds_upto(f, d, k)[i] as int)
                < f.blocks.len(),
    decreases k,
{
    if k != 0 {
        lemma_preds_upto_bound(f, d, (k - 1) as nat);
        let prev = preds_upto(f, d, (k - 1) as nat);
        let cur = preds_upto(f, d, k);
        if spec_edge(f, (k - 1) as usize, d) {
            assert((((k - 1) as usize) as int) < f.blocks.len());
            assert forall|i: int| 0 <= i < cur.len() implies (cur[i] as int) < f.blocks.len() by {
                if i < prev.len() {
                    assert(cur[i] == prev[i]);
                }
            }
        }
    }
}

/// Every predecessor is a block: only blocks carry outgoing edges.
pub proof fn lemma_preds_bound(f: Function, d: usize)
    ensures
        forall|i: int|
            0 <= i < spec_preds(f, d).len() ==> (#[trigger] spec_preds(f, d)[i] as int)
                < f.blocks.len(),
{
    lemma_preds_upto_bound(f, d, (f.blocks.len() + 1) as nat);
}

/// Does the list hold the value?
pub fn vec_contains_usize(v: &Vec<usize>, x: usize) -> (r: bool)
    ensures
        r == v@.contains(x),
{
    let mut i: usize = 0;
    while i < v.len()
        invariant
            0 <= i <= v.len(),
            forall|j: int| 0 <= j < i ==> v@[j] != x,
        decreases v.len() - i,
    {
        if v[i] == x {
            return true;
        }
        i += 1;
    }
    false
}

fn block_targets(f: &Function, t: &Instr) -> (r: Vec<usize>)
    ensures
        r@ == term_targets(*f, *t),
{
    let mut r: Vec<usize> = Vec::new();
    match t.opcode {
        Opcode::OpReturn => {
            r.push(f.blocks.len());
            assert(r@ =~= term_targets(*f, *t));
        },
        Opcode::OpUnreachable => {
            r.push(f.blocks.len());
            assert(r@ =~= term_targets(*f, *t));
        },
        Opcode::OpBr => {
            if t.operands.len() == 1 {
                match &t.operands[0] {
                    Operand::Target(tg) => {
                        if *tg < f.blocks.len() {
                            r.push(*tg);
                        }
                    },
                    Operand::Text(_) => {},
                }
                assert(r@ =~= term_targets(*f, *t));
            } else if t.operands.len() == 3 {
                let t1: Option<usize> = match &t.operands[1] {
                    Operand::Target(tg) => if *tg < f.blocks.len() {
                        Some(*tg)
                    } else {
                        None
                    },
                    Operand::Text(_) => None,
                };
                let t2: Option<usize> = match &t.operands[2] {
                    Operand::Target(tg) => if *tg < f.blocks.len() {
                        Some(*tg)
                    } else {
                        None
                    },
                    Operand::Text(_) => None,
                };
                match t1 {
                    Some(a) => r.push(a),
                    None => {},
                }
                match t2 {
                    Some(b) => {
                        if !(t1 == Some(b)) {
                            r.push(b);
                        }
                    },
                    None => {},
                }
                assert(r@ =~= term_targets(*f, *t));
            } else {
                assert(r@ =~= term_targets(*f, *t));
            }
        },
        Opcode::OpSwitch => {
            let mut k: usize = 0;
            while k < t.operands.len()
                invariant
                    0 <= k <= t.operands.len(),
                    r@ == switch_targets(*f, t.operands@, k as nat),
                decreases t.operands.len() - k,
            {
                if k % 2 == 1 {
                    match &t.operands[k] {
                        Operand::Target(tg) => {
                            if *tg < f.blocks.len() {
                                if !vec_contains_usize(&r, *tg) {
                                    r.push(*tg);
                                }
                            }
                        },
                        Operand::Text(_) => {},
                    }
                }
                k += 1;
            }
            assert(r@ =~= term_targets(*f, *t));
        },
        _ => {
            assert(r@ =~= term_targets(*f, *t));
        },
    }
    r
}

/// Build the forward-edge map: entry `v` lists the successors of node `v`,
/// and the terminal node is present with an empty successor list.
pub fn get_forward_edges(f: &Function) -> (r: Vec<Vec<usize>>)
    requires
        f.blocks.len() < usize::MAX,
    ensures
        r@.len() == f.blocks.len() + 1,
        forall|v: int| 0 <= v <= f.blocks.len() ==> (#[trigger] r@[v])@ == spec_succ(*f, v as usize),
{
    let n = f.blocks.len();
    let mut r: Vec<Vec<usize>> = Vec::new();
    let mut v: usize = 0;
    while v < n
        invariant
            0 <= v <= n,
            n == f.blocks.len(),
            r@.len() == v,
            forall|w: int| 0 <= w < v ==> (#[trigger] r@[w])@ == spec_succ(*f, w as usize),
        decreases n - v,
    {
        let b: &BasicBlock = &f.blocks[v];
        let succ: Vec<usize> = match b.terminator() {
            Some(t) => block_targets(f, t),
            None => Vec::new(),
        };
        assert(succ@ == spec_succ(*f, v));
        r.push(succ);
        v += 1;
    }
    let empty: Vec<usize> = Vec::new();
    r.push(empty);
    assert(spec_succ(*f, n) =~= Seq::<usize>::empty());
    r
}

/// Build the backward-edge map by inverting the forward edges: entry `d`
/// lists the predecessors of node `d` in ascending order.
pub fn get_backward_edges(f: &Function) -> (r: Vec<Vec<usize>>)
    requires
        f.blocks.len() < usize::MAX,
    ensures
        r@.len() == f.blocks.len() + 1,
        forall|d: int|
            0 <= d <= f.blocks.len() ==> (#[trigger] r@[d])@ == spec_preds(*f, d as usize),
{
    let n = f.blocks.len();
    let fwd = get_forward_edges(f);
    let mut r: Vec<Vec<usize>> = Vec::new();
    let mut d: usize = 0;
    while d < n + 1
        invariant
            0 <= d <= n + 1,
            n == f.blocks.len(),
            n < usize::MAX,
            r@.len() == d,
            fwd@.len() == n + 1,
            forall|v: int| 0 <= v <= n ==> (#[trigger] fwd@[v])@ == spec_succ(*f, v as usize),
            forall|e: int| 0 <= e < d ==> (#[trigger] r@[e])@ == spec_preds(*f, e as usize),
        decreases n + 1 - d,
    {
        let mut preds: Vec<usize> = Vec::new();
        let mut s: usize = 0;
        while s < n + 1
            invariant
                0 <= s <= n + 1,
                n == f.blocks.len(),
                n < usize::MAX,
                fwd@.len() == n + 1,
                forall|v: int| 0 <= v <= n ==> (#[trigger] fwd@[v])@ == spec_succ(*f, v as usize),
                preds@ == preds_upto(*f, d as usize, s as nat),
            decreases n + 1 - s,
        {
            if vec_contains_usize(&fwd[s], d) {
                preds.push(s);
            }
            s += 1;
        }
        assert(preds@ == spec_preds(*f, d as usize));
        r.push(preds);
        d += 1;
    }
    r
}

} // verus!
