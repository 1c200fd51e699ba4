//! Topological ordering of the control-flow graph. A forward order is found
//! by repeatedly extracting nodes without unvisited predecessors, scanning
//! the nodes in block order so that ties break deterministically; a full
//! pass that extracts nothing reports a cyclic graph. The backward order is
//! the reverse of the forward order.

use vstd::prelude::*;

use crate::cfg::{
    get_backward_edges, get_forward_edges, lemma_succ_bound, lemma_succ_no_dup, preds_upto,
    spec_edge, spec_preds, spec_succ,
};
use crate::ir::Function;

verus! {

/// `ord` is a forward topological order: it visits every node - each block
/// and the terminal node - exactly once, and wherever an edge runs from
/// `ord[k1]` to `ord[k2]`, `k1` comes first.
pub open spec fn is_topo_order(f: Function, ord: Seq<usize>) -> bool {
    &&& ord.len() == f.blocks.len() + 1
    &&& ord.no_duplicates()
    &&& forall|i: int| 0 <= i < ord.len() ==> (#[trigger] ord[i]) as int <= f.blocks.len()
    &&& forall|k1: int, k2: int|
        0 <= k1 < ord.len() && 0 <= k2 < ord.len() && #[trigger] spec_edge(f, ord[k1], ord[k2])
            ==> k1 < k2
}

/// The graph admits a topological order, that is, it is acyclic.
pub open spec fn has_topo_order(f: Function) -> bool {
    exists|ord: Seq<usize>| is_topo_order(f, ord)
}

/// One scanning pass from index `v` on: each node not yet done whose
/// predecessors are all done is extracted where the scan meets it, the
/// extraction counting for the rest of the same pass.
pub open spec fn pass_from(f: Function, done: Seq<bool>, v: int) -> (Seq<usize>, Seq<bool>)
    decreases f.blocks.len() + 1 - v,
{
    let n = f.blocks.len() as int;
    if v < 0 || v > n {
        (Seq::empty(), done)
    } else if !done[v] && (forall|s: usize|
        #[trigger] spec_edge(f, s, v as usize) ==> done[s as int]) {
        let p = pass_from(f, done.update(v, true), v + 1);
        (seq![v as usize] + p.0, p.1)
    } else {
        pass_from(f, done, v + 1)
    }
}

/// Scanning passes, repeated while they extract something. The fuel only
/// bounds the recursion: a pass that extracts nothing ends the sequence
/// whatever fuel is left, and every productive pass extracts at least one
/// node, so one unit per node suffices.
pub open spec fn spec_sort_rounds(f: Function, done: Seq<bool>, fuel: nat) -> Seq<usize>
    decreases fuel,
{
    if fuel == 0 {
        Seq::empty()
    } else {
        let p = pass_from(f, done, 0);
        if p.0.len() == 0 {
            Seq::empty()
        } else {
            p.0 + spec_sort_rounds(f, p.1, (fuel - 1) as nat)
        }
    }
}

/// The one order the sorter returns on an acyclic graph: repeated
/// scanning passes in block order over an initially untouched node set —
/// so ties break by block order and the result is a function of the
/// input alone.
pub open spec fn spec_forward_order(f: Function) -> Seq<usize> {
    spec_sort_rounds(
        f,
        Seq::new((f.blocks.len() + 1) as nat, |i: int| false),
        (f.blocks.len() + 1) as nat,
    )
}

proof fn lemma_pass_all_done(f: Function, done: Seq<bool>, v: int)
    requires
        forall|i: int| 0 <= i < done.len() ==> #[trigger] done[i],
        done.len() == f.blocks.len() + 1,
        v >= 0,
    ensures
        pass_from(f, done, v).0 == Seq::<usize>::empty(),
        pass_from(f, done, v).1 == done,
    decreases f.blocks.len() + 1 - v,
{
    if v <= f.blocks.len() {
        lemma_pass_all_done(f, done, v + 1);
    }
}

/// How many predecessors of `w` below `k` are not yet marked done.
pub open spec fn undone_preds(f: Function, done: Seq<bool>, w: usize, k: nat) -> nat
    decreases k,
{
    if k == 0 {
        0
    } else {
        undone_preds(f, done, w, (k - 1) as nat) + if spec_edge(f, (k - 1) as usize, w) && !done[k
            - 1] {
            1nat
        } else {
            0nat
        }
    }
}

/// How many predecessors of `w` are not yet marked done.
pub open spec fn undone_count(f: Function, done: Seq<bool>, w: usize) -> nat {
    undone_preds(f, done, w, done.len())
}

proof fn lemma_undone_preds_init(f: Function, done: Seq<bool>, w: usize, k: nat)
    requires
        forall|i: int| 0 <= i < done.len() ==> !(#[trigger] done[i]),
        k <= done.len(),
    ensures
        undone_preds(f, done, w, k) == preds_upto(f, w, k).len(),
    decreases k,
{
    if k != 0 {
        lemma_undone_preds_init(f, done, w, (k - 1) as nat);
    }
}

proof fn lemma_undone_preds_update(f: Function, done: Seq<bool>, v: usize, w: usize, k: nat)
    requires
        (v as int) < done.len(),
        !done[v as int],
        k <= done.len(),
    ensures
        undone_preds(f, done, w, k) == undone_preds(f, done.update(v as int, true), w, k) + if (v
            as nat) < k && spec_edge(f, v, w) {
            1nat
        } else {
            0nat
        },
    decreases k,
{
    if k != 0 {
        lemma_undone_preds_update(f, done, v, w, (k - 1) as nat);
    }
}

proof fn lemma_undone_preds_zero(f: Function, done: Seq<bool>, w: usize, k: nat)
    requires
        k <= done.len(),
        k <= usize::MAX,
    ensures
        (undone_preds(f, done, w, k) == 0) <==> (forall|s: usize|
            (s as nat) < k && #[trigger] spec_edge(f, s, w) ==> done[s as int]),
    decreases k,
{
    if k != 0 {
        lemma_undone_preds_zero(f, done, w, (k - 1) as nat);
        let km1 = (k - 1) as usize;
        if undone_preds(f, done, w, k) == 0 {
            assert forall|s: usize| (s as nat) < k && #[trigger] spec_edge(f, s, w) implies done[s
                as int] by {
                if (s as nat) == k - 1 {
                    assert(s == km1);
                    assert(spec_edge(f, km1, w));
                }
            }
        } else {
            if undone_preds(f, done, w, (k - 1) as nat) == 0 {
                assert(spec_edge(f, km1, w) && !done[k - 1]);
            }
        }
    }
}

pub proof fn lemma_distinct_bounded_full(s: Seq<usize>, n: usize)
    requires
        s.no_duplicates(),
        s.len() == n + 1,
        forall|i: int| 0 <= i < s.len() ==> (#[trigger] s[i]) as int <= n,
    ensures
        forall|w: usize| (w as int) <= n ==> #[trigger] s.contains(w),
{
    broadcast use vstd::seq_lib::group_seq_properties;

    let t = s.map_values(|x: usize| x as int);
    assert forall|i: int, j: int| 0 <= i < t.len() && 0 <= j < t.len() && i != j implies t[i]
        != t[j] by {
        assert(s[i] != s[j]);
    }
    assert(t.no_duplicates());
    t.unique_seq_to_set();
    let range = vstd::set_lib::set_int_range(0, n as int + 1);
    vstd::set_lib::lemma_int_range(0, n as int + 1);
    assert forall|x: int| t.to_set().contains(x) implies range.contains(x) by {
        let i = choose|i: int| 0 <= i < t.len() && t[i] == x;
        assert(s[i] as int <= n);
    }
    vstd::set_lib::lemma_subset_equality(t.to_set(), range);
    assert forall|w: usize| (w as int) <= n implies s.contains(w) by {
        assert(range.contains(w as int));
        assert(t.to_set().contains(w as int));
        let i = choose|i: int| 0 <= i < t.len() && t[i] == w as int;
        assert(s[i] == w);
    }
}

proof fn lemma_distinct_bounded_missing(s: Seq<usize>, n: usize) -> (w: usize)
    requires
        s.no_duplicates(),
        s.len() < n + 1,
        forall|i: int| 0 <= i < s.len() ==> (#[trigger] s[i]) as int <= n,
    ensures
        (w as int) <= n,
        !s.contains(w),
{
    broadcast use vstd::seq_lib::group_seq_properties;

    if forall|w: usize| (w as int) <= n ==> #[trigger] s.contains(w) {
        let t = s.map_values(|x: usize| x as int);
        assert forall|i: int, j: int| 0 <= i < t.len() && 0 <= j < t.len() && i != j implies t[i]
            != t[j] by {
            assert(s[i] != s[j]);
        }
        assert(t.no_duplicates());
        t.unique_seq_to_set();
        let range = vstd::set_lib::set_int_range(0, n as int + 1);
        vstd::set_lib::lemma_int_range(0, n as int + 1);
        assert forall|x: int| range.contains(x) implies t.to_set().contains(x) by {
            let w = x as usize;
            assert(s.contains(w));
            let i = choose|i: int| 0 <= i < s.len() && s[i] == w;
            assert(t[i] == x);
        }
        vstd::set_lib::lemma_len_subset(range, t.to_set());
        assert(false);
    }
    choose|w: usize| (w as int) <= n && !s.contains(w)
}

proof fn lemma_first_undone(ord: Seq<usize>, done: Seq<bool>, k: int, j0: int) -> (j: int)
    requires
        0 <= k <= j0 < ord.len(),
        !done[ord[j0] as int],
    ensures
        k <= j < ord.len(),
        !done[ord[j] as int],
        forall|i: int| k <= i < j ==> done[#[trigger] ord[i] as int],
    decreases ord.len() - k,
{
    if !done[ord[k] as int] {
        k
    } else {
        lemma_first_undone(ord, done, k + 1, j0)
    }
}

/// The sorter's state is consistent: `done` marks exactly the sorted nodes,
/// `indeg` counts the unsorted predecessors of every unsorted node, the
/// sorted list repeats nothing, every sorted node's predecessors are sorted,
/// and each sits before the node itself.
pub open spec fn topo_inv(
    f: Function,
    done: Seq<bool>,
    indeg: Seq<usize>,
    sorted: Seq<usize>,
) -> bool {
    let n = f.blocks.len() as int;
    &&& done.len() == n + 1
    &&& indeg.len() == n + 1
    &&& sorted.no_duplicates()
    &&& forall|i: int| 0 <= i < sorted.len() ==> (#[trigger] sorted[i]) as int <= n
    &&& forall|i: int| 0 <= i < sorted.len() ==> done[(#[trigger] sorted[i]) as int]
    &&& forall|w: usize| (w as int) <= n && done[w as int] ==> #[trigger] sorted.contains(w)
    &&& forall|w: usize|
        (w as int) <= n && !done[w as int] ==> (indeg[w as int] as nat) == #[trigger] undone_count(
            f,
            done,
            w,
        )
    &&& forall|a: usize, b: usize|
        (a as int) <= n && (b as int) <= n && done[b as int] && #[trigger] spec_edge(f, a, b)
            ==> done[a as int]
    &&& forall|k2: int, a: usize|
        0 <= k2 < sorted.len() && (a as int) <= n && #[trigger] spec_edge(f, a, sorted[k2])
            ==> exists|k1: int| 0 <= k1 < k2 && sorted[k1] == a
}

/// Mark node `v` as sorted and lower the count of every successor.
fn mark_node(
    f: &Function,
    fwd: &Vec<Vec<usize>>,
    v: usize,
    done: &mut Vec<bool>,
    indeg: &mut Vec<usize>,
    sorted: &mut Vec<usize>,
)
    requires
        f.blocks.len() < usize::MAX,
        fwd@.len() == f.blocks.len() + 1,
        forall|u: int|
            0 <= u <= f.blocks.len() ==> (#[trigger] fwd@[u])@ == spec_succ(*f, u as usize),
        topo_inv(*f, old(done)@, old(indeg)@, old(sorted)@),
        (v as int) <= f.blocks.len(),
        !old(done)@[v as int],
        old(indeg)@[v as int] == 0,
    ensures
        topo_inv(*f, final(done)@, final(indeg)@, final(sorted)@),
        final(sorted)@ == old(sorted)@.push(v),
        final(done)@ == old(done)@.update(v as int, true),
{
    let ghost n = f.blocks.len() as int;
    let ghost done0 = done@;
    let ghost sorted0 = sorted@;
    proof {
        assert((old(indeg)@[v as int] as nat) == undone_count(*f, done0, v));
        lemma_undone_preds_zero(*f, done0, v, done0.len());
        // every predecessor of v is done
        assert forall|s: usize| #[trigger] spec_edge(*f, s, v) && (s as int) <= n implies done0[s
            as int] by {
            assert((s as nat) < done0.len());
        }
    }
    done.set(v, true);
    sorted.push(v);
    let ghost done1 = done@;
    let ghost sorted1 = sorted@;
    proof {
        broadcast use vstd::seq_lib::group_seq_properties;

        // v was not yet sorted
        assert(!sorted0.contains(v));
        assert(sorted1.no_duplicates());
        // the new entry's predecessors all sit in the old prefix
        assert forall|k2: int, a: usize|
            0 <= k2 < sorted1.len() && (a as int) <= n && #[trigger] spec_edge(*f, a, sorted1[k2])
                implies exists|k1: int| 0 <= k1 < k2 && sorted1[k1] == a by {
            if k2 < sorted0.len() {
                assert(spec_edge(*f, a, sorted0[k2]));
                let k1 = choose|k1: int| 0 <= k1 < k2 && sorted0[k1] == a;
                assert(sorted1[k1] == a);
            } else {
                assert(sorted1[k2] == v);
                if a == v {
                    // a self-edge would make v its own undone predecessor
                    assert(done0[v as int]);
                    assert(false);
                }
                assert(done0[a as int]);
                assert(sorted0.contains(a));
                let k1 = choose|k1: int| 0 <= k1 < sorted0.len() && sorted0[k1] == a;
                assert(sorted1[k1] == a);
            }
        }
    }
    // lower the count of each successor of v
    let succs: &Vec<usize> = &fwd[v];
    proof {
        lemma_succ_no_dup(*f, v);
        lemma_succ_bound(*f, v);
    }
    proof {
        assert(succs@.subrange(0, succs@.len() as int) =~= succs@);
        assert forall|w: usize| (w as int) <= n && !done1[w as int] implies (indeg@[w as int]
            as nat) == undone_count(*f, done1, w) + (if succs@.contains(w) {
            1nat
        } else {
            0nat
        }) by {
            assert(w != v);
            assert(!done0[w as int]);
            assert((indeg@[w as int] as nat) == undone_count(*f, done0, w));
            lemma_undone_preds_update(*f, done0, v, w, done0.len());
            assert(spec_edge(*f, v, w) == spec_succ(*f, v).contains(w));
        }
    }
    let mut j: usize = 0;
    while j < succs.len()
        invariant
            f.blocks.len() < usize::MAX,
            n == f.blocks.len() as int,
            0 <= j <= succs.len(),
            succs@ == spec_succ(*f, v),
            succs@.no_duplicates(),
            forall|i: int| 0 <= i < succs@.len() ==> (#[trigger] succs@[i]) as int <= n,
            done@ == done1,
            sorted@ == sorted1,
            indeg@.len() == n + 1,
            (v as int) <= n,
            !done0[v as int],
            done1 == done0.update(v as int, true),
            done0.len() == n + 1,
            done1.len() == n + 1,
            forall|s: usize| #[trigger] spec_edge(*f, s, v) && (s as int) <= n ==> done0[s as int],
            forall|w: usize|
                (w as int) <= n && !done1[w as int] ==> (indeg@[w as int] as nat)
                    == #[trigger] undone_count(*f, done1, w) + if succs@.subrange(
                    j as int,
                    succs@.len() as int,
                ).contains(w) {
                    1nat
                } else {
                    0nat
                },
            forall|a: usize, b: usize|
                (a as int) <= n && (b as int) <= n && done1[b as int] && #[trigger] spec_edge(
                    *f,
                    a,
                    b,
                ) ==> done1[a as int],
            forall|a: usize, b: usize|
                (a as int) <= n && (b as int) <= n && done0[b as int] && #[trigger] spec_edge(
                    *f,
                    a,
                    b,
                ) ==> done0[a as int],
        decreases succs.len() - j,
    {
        let w = succs[j];
        proof {
            assert(spec_edge(*f, v, w));
            // w is not done: v is an undone predecessor of w before this call
            if done1[w as int] {
                if w != v {
                    assert(done0[w as int]);
                    assert(done0[v as int]);
                    assert(false);
                } else {
                    assert(spec_edge(*f, v, v));
                    assert(done0[v as int]);
                    assert(false);
                }
            }
            assert(succs@.subrange(j as int, succs@.len() as int).contains(w)) by {
                assert(succs@.subrange(j as int, succs@.len() as int)[0] == w);
            }
            assert((indeg@[w as int] as nat) == undone_count(*f, done1, w) + 1nat);
        }
        let iw = indeg[w];
        indeg.set(w, iw - 1);
        proof {
            let ghost pre_indeg = indeg@.update(w as int, iw);
            let tail0 = succs@.subrange(j as int, succs@.len() as int);
            let tail1 = succs@.subrange(j as int + 1, succs@.len() as int);
            assert forall|u: usize| #[trigger] tail1.contains(u) implies tail0.contains(u) && u
                != w by {
                let i = choose|i: int| 0 <= i < tail1.len() && tail1[i] == u;
                assert(tail0[i + 1] == u);
                assert(succs@[j as int + 1 + i] == u);
                if u == w {
                    assert(succs@[j as int] == w);
                    assert(!succs@.no_duplicates());
                }
            }
            assert forall|u: usize| tail0.contains(u) && u != w implies tail1.contains(u) by {
                let i = choose|i: int| 0 <= i < tail0.len() && tail0[i] == u;
                assert(i != 0);
                assert(tail1[i - 1] == u);
            }
            assert forall|u: usize| (u as int) <= n && !done1[u as int] implies (indeg@[u as int]
                as nat) == #[trigger] undone_count(*f, done1, u) + (if tail1.contains(u) {
                1nat
            } else {
                0nat
            }) by {
                if u == w {
                    assert(!tail1.contains(u));
                    assert(indeg@[u as int] == iw - 1);
                } else {
                    assert(tail0.contains(u) == tail1.contains(u));
                }
            }
        }
        j += 1;
    }
    proof {
        assert(succs@.subrange(succs@.len() as int, succs@.len() as int) =~= Seq::<usize>::empty());
        assert forall|w: usize| (w as int) <= n && !done1[w as int] implies (indeg@[w as int]
            as nat) == #[trigger] undone_count(*f, done1, w) by {
            assert(!succs@.subrange(succs@.len() as int, succs@.len() as int).contains(w));
        }
    }
}

/// Compute a forward topological order over the blocks plus the terminal
/// node, or report that the graph is cyclic. The order exists exactly when
/// the graph is acyclic.
pub fn forward_topological_sort(f: &Function) -> (r: Option<Vec<usize>>)
    requires
        f.blocks.len() < usize::MAX - 1,
    ensures
        match r {
            Some(ord) => is_topo_order(*f, ord@) && ord@ == spec_forward_order(*f),
            None => !has_topo_order(*f),
        },
{
    let ghost n = f.blocks.len() as int;
    let nn = f.blocks.len();
    let fwd = get_forward_edges(f);
    let bwd = get_backward_edges(f);
    let mut done: Vec<bool> = Vec::new();
    let mut indeg: Vec<usize> = Vec::new();
    let mut sorted: Vec<usize> = Vec::new();
    let mut v: usize = 0;
    while v < nn + 1
        invariant
            nn == f.blocks.len(),
            nn < usize::MAX - 1,
            0 <= v <= nn + 1,
            bwd@.len() == nn + 1,
            forall|d: int| 0 <= d <= nn ==> (#[trigger] bwd@[d])@ == spec_preds(*f, d as usize),
            done@.len() == v,
            indeg@.len() == v,
            forall|i: int| 0 <= i < v ==> !(#[trigger] done@[i]),
            forall|i: int| 0 <= i < v ==> (#[trigger] indeg@[i])@ == spec_preds(*f, i as usize).len(),
        decreases nn + 1 - v,
    {
        done.push(false);
        let p = bwd[v].len();
        indeg.push(p);
        v += 1;
    }
    let ghost init_done = Seq::new((nn + 1) as nat, |i: int| false);
    let ghost mut fuel_left: nat = (nn + 1) as nat;
    proof {
        assert forall|w: usize| (w as int) <= n && !done@[w as int] implies (indeg@[w as int]
            as nat) == #[trigger] undone_count(*f, done@, w) by {
            lemma_undone_preds_init(*f, done@, w, done@.len());
        }
        assert(topo_inv(*f, done@, indeg@, sorted@));
        assert(done@ =~= init_done);
    }
    while sorted.len() < nn + 1
        invariant
            nn == f.blocks.len(),
            nn < usize::MAX - 1,
            fwd@.len() == nn + 1,
            forall|u: int|
                0 <= u <= nn ==> (#[trigger] fwd@[u])@ == spec_succ(*f, u as usize),
            topo_inv(*f, done@, indeg@, sorted@),
            sorted@.len() <= nn + 1,
            init_done == Seq::new((nn + 1) as nat, |i: int| false),
            fuel_left + sorted@.len() >= nn + 1,
            spec_sort_rounds(*f, init_done, (nn + 1) as nat) == sorted@ + spec_sort_rounds(
                *f,
                done@,
                fuel_left,
            ),
        decreases nn + 1 - sorted.len(),
    {
        let ghost pass_len = sorted@.len();
        let ghost dps = done@;
        let ghost spre = sorted@;
        let mut progressed: bool = false;
        let mut v: usize = 0;
        while v < nn + 1
            invariant
                nn == f.blocks.len(),
                nn < usize::MAX - 1,
                0 <= v <= nn + 1,
                fwd@.len() == nn + 1,
                forall|u: int|
                    0 <= u <= nn ==> (#[trigger] fwd@[u])@ == spec_succ(*f, u as usize),
                topo_inv(*f, done@, indeg@, sorted@),
                sorted@.len() <= nn + 1,
                pass_len < nn + 1,
                progressed ==> sorted@.len() > pass_len,
                !progressed ==> sorted@.len() == pass_len,
                !progressed ==> forall|w: int| 0 <= w < v && !done@[w] ==> #[trigger] indeg@[w] != 0,
                spre.len() == pass_len,
                sorted@.subrange(0, pass_len as int) == spre,
                init_done == Seq::new((nn + 1) as nat, |i: int| false),
                fuel_left + pass_len >= nn + 1,
                spec_sort_rounds(*f, init_done, (nn + 1) as nat) == spre + spec_sort_rounds(
                    *f,
                    dps,
                    fuel_left,
                ),
                pass_from(*f, dps, 0).0 == sorted@.skip(pass_len as int) + pass_from(
                    *f,
                    done@,
                    v as int,
                ).0,
                pass_from(*f, dps, 0).1 == pass_from(*f, done@, v as int).1,
            decreases nn + 1 - v,
        {
            if !done[v] && indeg[v] == 0 {
                proof {
                    if sorted@.len() >= nn + 1 {
                        lemma_distinct_bounded_full(sorted@, nn);
                        assert(sorted@.contains(v));
                        let i = choose|i: int| 0 <= i < sorted@.len() && sorted@[i] == v;
                        assert(done@[v as int]);
                    }
                    // the scan's extraction condition is the specified one
                    assert((indeg@[v as int] as nat) == undone_count(*f, done@, v));
                    lemma_undone_preds_zero(*f, done@, v, done@.len());
                    assert forall|s: usize| #[trigger] spec_edge(*f, s, v) implies done@[s
                        as int] by {
                        assert((s as nat) < done@.len());
                    }
                }
                let ghost dpre = done@;
                let ghost sopre = sorted@;
                mark_node(f, &fwd, v, &mut done, &mut indeg, &mut sorted);
                progressed = true;
                proof {
                    assert(pass_from(*f, dpre, v as int).0 == seq![v] + pass_from(
                        *f,
                        done@,
                        v as int + 1,
                    ).0);
                    assert(pass_from(*f, dpre, v as int).1 == pass_from(*f, done@, v as int + 1).1);
                    assert(sorted@.skip(pass_len as int) =~= sopre.skip(pass_len as int) + seq![v]);
                    assert(sorted@.skip(pass_len as int) + pass_from(*f, done@, v as int + 1).0
                        =~= sopre.skip(pass_len as int) + pass_from(*f, dpre, v as int).0);
                    assert(sorted@.subrange(0, pass_len as int) =~= spre);
                }
            } else {
                proof {
                    // the node is skipped in this pass: done already, or a
                    // predecessor is still waiting
                    if !done@[v as int] {
                        assert((indeg@[v as int] as nat) == undone_count(*f, done@, v));
                        lemma_undone_preds_zero(*f, done@, v, done@.len());
                        assert(!(forall|s: usize|
                            (s as nat) < done@.len() && #[trigger] spec_edge(*f, s, v)
                                ==> done@[s as int]));
                        let s0 = choose|s: usize|
                            (s as nat) < done@.len() && #[trigger] spec_edge(*f, s, v) && !done@[s
                                as int];
                        assert(spec_edge(*f, s0, v) && !done@[s0 as int]);
                    }
                    assert(pass_from(*f, done@, v as int) == pass_from(*f, done@, v as int + 1));
                }
            }
            v += 1;
        }
        if !progressed {
            proof {
                // a full pass without progress: every unsorted node keeps an
                // unsorted predecessor, so no topological order can exist
                if has_topo_order(*f) {
                    let ord = choose|ord: Seq<usize>| is_topo_order(*f, ord);
                    let w0 = lemma_distinct_bounded_missing(sorted@, nn);
                    assert(!done@[w0 as int]);
                    lemma_distinct_bounded_full(ord, nn);
                    assert(ord.contains(w0));
                    let j0 = choose|i: int| 0 <= i < ord.len() && ord[i] == w0;
                    assert(!done@[ord[j0] as int]);
                    let j = lemma_first_undone(ord, done@, 0, j0);
                    let u = ord[j];
                    assert(indeg@[u as int] != 0);
                    assert((indeg@[u as int] as nat) == undone_count(*f, done@, u));
                    lemma_undone_preds_zero(*f, done@, u, done@.len());
                    assert(undone_count(*f, done@, u) != 0);
                    let p = choose|s: usize|
                        (s as nat) < done@.len() && #[trigger] spec_edge(*f, s, u) && !done@[s
                            as int];
                    assert(spec_edge(*f, p, u));
                    assert(ord.contains(p));
                    let i = choose|i: int| 0 <= i < ord.len() && ord[i] == p;
                    assert(spec_edge(*f, ord[i], ord[j]));
                    assert(i < j);
                    assert(done@[ord[i] as int]);
                    assert(false);
                }
            }
            return None;
        }
        proof {
            // the pass is over: fold its extractions into the round spec
            assert(pass_from(*f, done@, (nn + 1) as int).0 =~= Seq::<usize>::empty());
            assert(pass_from(*f, done@, (nn + 1) as int).1 == done@);
            assert(pass_from(*f, dps, 0).0 =~= sorted@.skip(pass_len as int));
            assert(pass_from(*f, dps, 0).1 == done@);
            assert(sorted@.skip(pass_len as int).len() >= 1);
            assert(fuel_left >= 1);
            assert(spec_sort_rounds(*f, dps, fuel_left) == sorted@.skip(pass_len as int)
                + spec_sort_rounds(*f, done@, (fuel_left - 1) as nat));
            fuel_left = (fuel_left - 1) as nat;
            assert(spre + (sorted@.skip(pass_len as int) + spec_sort_rounds(*f, done@, fuel_left))
                =~= sorted@ + spec_sort_rounds(*f, done@, fuel_left));
        }
    }
    proof {
        assert(sorted@.len() == nn + 1);
        assert forall|k1: int, k2: int|
            0 <= k1 < sorted@.len() && 0 <= k2 < sorted@.len() && #[trigger] spec_edge(
                *f,
                sorted@[k1],
                sorted@[k2],
            ) implies k1 < k2 by {
            let a = sorted@[k1];
            let kk = choose|kk: int| 0 <= kk < k2 && sorted@[kk] == a;
            if kk != k1 {
                assert(!sorted@.no_duplicates());
            }
        }
        assert(is_topo_order(*f, sorted@));
        // every node is done, so no further pass extracts anything
        lemma_distinct_bounded_full(sorted@, nn);
        assert forall|i: int| 0 <= i < done@.len() implies #[trigger] done@[i] by {
            let w = i as usize;
            assert(sorted@.contains(w));
            let j = choose|j: int| 0 <= j < sorted@.len() && sorted@[j] == w;
            assert(done@[sorted@[j] as int]);
        }
        lemma_pass_all_done(*f, done@, 0);
        assert(spec_sort_rounds(*f, done@, fuel_left) =~= Seq::<usize>::empty());
        assert(sorted@ + spec_sort_rounds(*f, done@, fuel_left) =~= sorted@);
        assert(init_done =~= Seq::new((f.blocks.len() + 1) as nat, |i: int| false));
        assert(sorted@ == spec_forward_order(*f));
    }
    Some(sorted)
}

/// The backward topological order: the reverse of the forward order.
pub fn backward_topological_sort(f: &Function) -> (r: Option<Vec<usize>>)
    requires
        f.blocks.len() < usize::MAX - 1,
    ensures
        match r {
            Some(ord) => is_topo_order(*f, ord@.reverse()) && ord@ == spec_forward_order(
                *f,
            ).reverse(),
            None => !has_topo_order(*f),
        },
{
    match forward_topological_sort(f) {
        Some(mut ord) => {
            let ghost fw = ord@;
            let n = ord.len();
            let mut rev: Vec<usize> = Vec::new();
            let mut i: usize = 0;
            while i < n
                invariant
                    0 <= i <= n,
                    n == ord.len(),
                    rev@.len() == i,
                    forall|k: int| 0 <= k < i ==> (#[trigger] rev@[k]) == ord@[n - 1 - k],
                decreases n - i,
            {
                rev.push(ord[n - 1 - i]);
                i += 1;
            }
            proof {
                assert(rev@.reverse() =~= ord@);
                assert(rev@ =~= ord@.reverse());
            }
            Some(rev)
        },
        None => None,
    }
}

} // verus!
