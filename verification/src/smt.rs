//! Rendering the assertion list for the solver, and the one call into it.
//!
//! Every variable is rendered as a quoted symbol carrying its sort (`b!`
//! for booleans, `i!` for integers) so that the two namespaces of the
//! evaluation semantics never collide, with `!`, `|`, `\` and the NUL
//! byte escaped injectively. Declarations are collected from the
//! assertions themselves. The whole text is pinned, character for
//! character, by `spec_render_script`; the solver call takes that text as
//! an argument tied to the same specification, so its body holds nothing
//! but the solver calls.

use std::fmt::Write;

use vstd::prelude::*;

use crate::names::{chars_eq, chars_of_str};
use crate::pretty::spec_dec;
use crate::term::{
    BoolExpr, BoolExprV, CmpOp, IntExpr, IntExprV, bool_view, int_view, satisfiable, views_of,
};

verus! {

/// What the solver answered: a model may accompany a positive answer.
pub enum SatOutcome {
    Sat(Option<String>),
    Unsat,
    Unknown,
}

/// How one character of a variable name is escaped inside a quoted
/// symbol: the escape lead `!` doubles; `|`, `\` and NUL, which a quoted
/// symbol or the solver's text interface cannot carry, become two-letter
/// codes.
pub open spec fn esc_char(c: char) -> Seq<char> {
    if c == '!' {
        seq!['!', '!']
    } else if c == '|' {
        seq!['!', 'v']
    } else if c == '\\' {
        seq!['!', 's']
    } else if c == '\0' {
        seq!['!', 'z']
    } else {
        seq![c]
    }
}

/// A whole name, escaped.
pub open spec fn esc_text(s: Seq<char>) -> Seq<char>
    decreases s.len(),
{
    if s.len() == 0 {
        Seq::empty()
    } else {
        esc_text(s.drop_last()) + esc_char(s.last())
    }
}

/// The quoted, sort-prefixed symbol of a variable.
pub open spec fn sym_text(prefix: char, name: Seq<char>) -> Seq<char> {
    seq!['|', prefix, '!'] + esc_text(name) + seq!['|']
}

/// An integer literal: negatives in applied form.
pub open spec fn int_lit_text(v: i64) -> Seq<char> {
    if v < 0 {
        "(- "@ + spec_dec((-(v as int)) as nat) + ")"@
    } else {
        spec_dec(v as nat)
    }
}

/// The text of an integer term.
pub open spec fn int_term_text(e: IntExprV) -> Seq<char>
    decreases e,
{
    match e {
        IntExprV::IVar(n) => sym_text('i', n),
        IntExprV::ILit(v) => int_lit_text(v),
        IntExprV::IMul(a, b) => "(* "@ + int_term_text(*a) + seq![' '] + int_term_text(*b)
            + seq![')'],
    }
}

/// The opening text of a comparison.
pub open spec fn cmp_head_text(op: CmpOp) -> Seq<char> {
    match op {
        CmpOp::CmpEq => "(= "@,
        CmpOp::CmpNe => "(distinct "@,
        CmpOp::CmpGe => "(>= "@,
        CmpOp::CmpGt => "(> "@,
        CmpOp::CmpLe => "(<= "@,
        CmpOp::CmpLt => "(< "@,
    }
}

/// The text of a boolean term.
pub open spec fn bool_term_text(e: BoolExprV) -> Seq<char>
    decreases e,
{
    match e {
        BoolExprV::BLit(b) => if b {
            "true"@
        } else {
            "false"@
        },
        BoolExprV::BVar(n) => sym_text('b', n),
        BoolExprV::BNot(a) => "(not "@ + bool_term_text(*a) + seq![')'],
        BoolExprV::BAnd(a, b) => "(and "@ + bool_term_text(*a) + seq![' '] + bool_term_text(*b)
            + seq![')'],
        BoolExprV::BXor(a, b) => "(xor "@ + bool_term_text(*a) + seq![' '] + bool_term_text(*b)
            + seq![')'],
        BoolExprV::BImplies(a, b) => "(=> "@ + bool_term_text(*a) + seq![' '] + bool_term_text(*b)
            + seq![')'],
        BoolExprV::BEqBool(a, b) => "(= "@ + bool_term_text(*a) + seq![' '] + bool_term_text(*b)
            + seq![')'],
        BoolExprV::BCmp(op, a, b) => cmp_head_text(op) + int_term_text(a) + seq![' ']
            + int_term_text(b) + seq![')'],
    }
}

/// Record a name once: the list keeps its first occurrence.
pub open spec fn add_name_spec(ns: Seq<Seq<char>>, x: Seq<char>) -> Seq<Seq<char>> {
    if ns.contains(x) {
        ns
    } else {
        ns.push(x)
    }
}

/// The integer names of a term, appended to an accumulator in occurrence
/// order.
pub open spec fn collect_int_spec(e: IntExprV, ints: Seq<Seq<char>>) -> Seq<Seq<char>>
    decreases e,
{
    match e {
        IntExprV::IVar(n) => add_name_spec(ints, n),
        IntExprV::ILit(_) => ints,
        IntExprV::IMul(a, b) => collect_int_spec(*b, collect_int_spec(*a, ints)),
    }
}

/// The boolean and integer names of a term, appended to accumulators in
/// occurrence order.
pub open spec fn collect_bool_spec(
    e: BoolExprV,
    bools: Seq<Seq<char>>,
    ints: Seq<Seq<char>>,
) -> (Seq<Seq<char>>, Seq<Seq<char>>)
    decreases e,
{
    match e {
        BoolExprV::BLit(_) => (bools, ints),
        BoolExprV::BVar(n) => (add_name_spec(bools, n), ints),
        BoolExprV::BNot(a) => collect_bool_spec(*a, bools, ints),
        BoolExprV::BAnd(a, b) => {
            let p = collect_bool_spec(*a, bools, ints);
            collect_bool_spec(*b, p.0, p.1)
        },
        BoolExprV::BXor(a, b) => {
            let p = collect_bool_spec(*a, bools, ints);
            collect_bool_spec(*b, p.0, p.1)
        },
        BoolExprV::BImplies(a, b) => {
            let p = collect_bool_spec(*a, bools, ints);
            collect_bool_spec(*b, p.0, p.1)
        },
        BoolExprV::BEqBool(a, b) => {
            let p = collect_bool_spec(*a, bools, ints);
            collect_bool_spec(*b, p.0, p.1)
        },
        BoolExprV::BCmp(_, a, b) => (bools, collect_int_spec(b, collect_int_spec(a, ints))),
    }
}

/// The names of the first `k` assertions.
pub open spec fn collect_script_spec(
    s: Seq<BoolExprV>,
    k: nat,
    bools: Seq<Seq<char>>,
    ints: Seq<Seq<char>>,
) -> (Seq<Seq<char>>, Seq<Seq<char>>)
    decreases k,
{
    if k == 0 || k > s.len() {
        (bools, ints)
    } else {
        let p = collect_script_spec(s, (k - 1) as nat, bools, ints);
        collect_bool_spec(s[k - 1], p.0, p.1)
    }
}

/// One declaration line per collected name, in order.
pub open spec fn decls_text(ns: Seq<Seq<char>>, k: nat, prefix: char, tail: Seq<char>) -> Seq<char>
    decreases k,
{
    if k == 0 || k > ns.len() {
        Seq::empty()
    } else {
        decls_text(ns, (k - 1) as nat, prefix, tail) + "(declare-const "@ + sym_text(
            prefix,
            ns[k - 1],
        ) + tail
    }
}

/// One assertion line per formula, in order.
pub open spec fn asserts_text(s: Seq<BoolExprV>, k: nat) -> Seq<char>
    decreases k,
{
    if k == 0 || k > s.len() {
        Seq::empty()
    } else {
        asserts_text(s, (k - 1) as nat) + "(assert "@ + bool_term_text(s[k - 1]) + ")\n"@
    }
}

/// The whole solver input: boolean declarations, integer declarations,
/// then the assertions, each exactly as the term texts above give them.
pub open spec fn spec_render_script(s: Seq<BoolExprV>) -> Seq<char> {
    let p = collect_script_spec(s, s.len(), Seq::empty(), Seq::empty());
    decls_text(p.0, p.0.len(), 'b', " Bool)\n"@) + decls_text(p.1, p.1.len(), 'i', " Int)\n"@)
        + asserts_text(s, s.len())
}

fn push_lit(out: &mut Vec<char>, s: &str)
    ensures
        final(out)@ == old(out)@ + s@,
{
    let cs = chars_of_str(s);
    let mut i: usize = 0;
    while i < cs.len()
        invariant
            0 <= i <= cs.len(),
            cs@ == s@,
            out@ == old(out)@ + s@.subrange(0, i as int),
        decreases cs.len() - i,
    {
        out.push(cs[i]);
        proof {
            assert(out@ =~= old(out)@ + s@.subrange(0, i as int + 1));
        }
        i += 1;
    }
    proof {
        assert(out@ =~= old(out)@ + s@);
    }
}

/// Append a sorted, escaped, quoted symbol for a variable name.
fn push_symbol(out: &mut Vec<char>, prefix: char, name: &Vec<char>)
    ensures
        final(out)@ == old(out)@ + sym_text(prefix, name@),
{
    let ghost head = old(out)@ + seq!['|', prefix, '!'];
    out.push('|');
    out.push(prefix);
    out.push('!');
    proof {
        assert(out@ =~= head + esc_text(name@.subrange(0, 0)));
        assert(esc_text(name@.subrange(0, 0)) =~= Seq::<char>::empty());
    }
    let mut i: usize = 0;
    while i < name.len()
        invariant
            0 <= i <= name.len(),
            out@ == head + esc_text(name@.subrange(0, i as int)),
            head == old(out)@ + seq!['|', prefix, '!'],
        decreases name.len() - i,
    {
        let ghost pre = name@.subrange(0, i as int);
        let ghost cur = name@.subrange(0, i as int + 1);
        proof {
            assert(cur.drop_last() =~= pre);
            assert(cur.last() == name@[i as int]);
        }
        let c = name[i];
        if c == '!' {
            out.push('!');
            out.push('!');
        } else if c == '|' {
            out.push('!');
            out.push('v');
        } else if c == '\\' {
            out.push('!');
            out.push('s');
        } else if c == '\0' {
            out.push('!');
            out.push('z');
        } else {
            out.push(c);
        }
        proof {
            assert(out@ =~= head + esc_text(cur));
        }
        i += 1;
    }
    out.push('|');
    proof {
        assert(name@.subrange(0, name@.len() as int) =~= name@);
        assert(out@ =~= old(out)@ + sym_text(prefix, name@));
    }
}

/// Append a decimal integer literal, negatives in applied form.
fn push_i64(out: &mut Vec<char>, v: i64)
    ensures
        final(out)@ == old(out)@ + int_lit_text(v),
{
    let neg = v < 0;
    if neg {
        push_lit(out, "(- ");
    }
    let ghost head = out@;
    let mut mag: u64 = if neg {
        (-(v as i128)) as u64
    } else {
        v as u64
    };
    let ghost mag0 = mag as nat;
    let mut digits: Vec<char> = Vec::new();
    if mag == 0 {
        digits.push('0');
        proof {
            assert(digits@ =~= spec_dec(0).reverse());
        }
    }
    while mag > 0
        invariant
            mag >= 0,
            neg == (v < 0),
            head == (if neg {
                old(out)@ + "(- "@
            } else {
                old(out)@
            }),
            out@ == head,
            mag0 == (if neg {
                (-(v as int)) as nat
            } else {
                v as nat
            }),
            mag > 0 ==> spec_dec(mag0) == spec_dec(mag as nat) + digits@.reverse(),
            mag == 0 ==> spec_dec(mag0) == digits@.reverse(),
        decreases mag,
    {
        let ghost dpre = digits@;
        let d = (mag % 10) as u8;
        digits.push((48 + d) as char);
        proof {
            assert(digits@.reverse() =~= seq![((48 + (mag as nat) % 10) as u8) as char]
                + dpre.reverse());
            if mag >= 10 {
                assert(spec_dec(mag as nat) == spec_dec((mag as nat) / 10) + seq![
                    ((48 + (mag as nat) % 10) as u8) as char,
                ]);
                assert(spec_dec(mag as nat) + dpre.reverse() =~= spec_dec((mag / 10) as nat)
                    + digits@.reverse());
            } else {
                assert(spec_dec(mag as nat) =~= seq![((48 + (mag as nat)) as u8) as char]);
                assert((mag as nat) % 10 == mag as nat);
                assert(spec_dec(mag as nat) + dpre.reverse() =~= digits@.reverse());
            }
        }
        mag = mag / 10;
    }
    let mut i: usize = digits.len();
    while i > 0
        invariant
            i <= digits.len(),
            neg == (v < 0),
            head == (if neg {
                old(out)@ + "(- "@
            } else {
                old(out)@
            }),
            mag0 == (if neg {
                (-(v as int)) as nat
            } else {
                v as nat
            }),
            spec_dec(mag0) == digits@.reverse(),
            out@ == head + digits@.reverse().subrange(0, digits@.len() - i),
        decreases i,
    {
        i -= 1;
        out.push(digits[i]);
        proof {
            assert(digits@.reverse()[digits@.len() - 1 - i] == digits@[i as int]);
            assert(out@ =~= head + digits@.reverse().subrange(0, digits@.len() - i));
        }
    }
    proof {
        assert(digits@.reverse().subrange(0, digits@.len() as int) =~= digits@.reverse());
        assert(out@ == head + spec_dec(mag0));
        if neg {
            assert(mag0 == (-(v as int)) as nat);
        } else {
            assert(mag0 == v as nat);
        }
    }
    if neg {
        push_lit(out, ")");
        proof {
            assert(out@ =~= old(out)@ + int_lit_text(v));
        }
    } else {
        proof {
            assert(out@ =~= old(out)@ + int_lit_text(v));
        }
    }
}

/// The views of a list of collected names.
pub open spec fn names_view(ns: Seq<Vec<char>>) -> Seq<Seq<char>> {
    ns.map_values(|v: Vec<char>| v@)
}

fn names_contain(ns: &Vec<Vec<char>>, x: &Vec<char>) -> (r: bool)
    ensures
        r == names_view(ns@).contains(x@),
{
    let mut i: usize = 0;
    while i < ns.len()
        invariant
            0 <= i <= ns.len(),
            forall|j: int| 0 <= j < i ==> (#[trigger] ns@[j])@ != x@,
        decreases ns.len() - i,
    {
        if chars_eq(&ns[i], x) {
            proof {
                assert(names_view(ns@)[i as int] == x@);
            }
            return true;
        }
        i += 1;
    }
    proof {
        if names_view(ns@).contains(x@) {
            let j = choose|j: int| 0 <= j < names_view(ns@).len() && names_view(ns@)[j] == x@;
            assert((ns@[j])@ == x@);
        }
    }
    false
}

fn add_name(ns: &mut Vec<Vec<char>>, x: &Vec<char>)
    ensures
        names_view(final(ns)@) == add_name_spec(names_view(old(ns)@), x@),
{
    if !names_contain(ns, x) {
        let mut c: Vec<char> = Vec::new();
        let mut i: usize = 0;
        while i < x.len()
            invariant
                0 <= i <= x.len(),
                c@ == x@.subrange(0, i as int),
            decreases x.len() - i,
        {
            c.push(x[i]);
            proof {
                assert(c@ =~= x@.subrange(0, i as int + 1));
            }
            i += 1;
        }
        proof {
            assert(c@ =~= x@);
        }
        ns.push(c);
        proof {
            assert(names_view(ns@) =~= names_view(old(ns)@).push(x@));
        }
    }
}

fn collect_int(e: &IntExpr, ints: &mut Vec<Vec<char>>)
    ensures
        names_view(final(ints)@) == collect_int_spec(int_view(*e), names_view(old(ints)@)),
    decreases *e,
{
    proof {
        reveal_with_fuel(int_view, 2);
    }
    match e {
        IntExpr::IVar(n) => add_name(ints, n),
        IntExpr::ILit(_) => {},
        IntExpr::IMul(a, b) => {
            collect_int(a, ints);
            collect_int(b, ints);
        },
    }
}

fn collect_bool(e: &BoolExpr, bools: &mut Vec<Vec<char>>, ints: &mut Vec<Vec<char>>)
    ensures
        names_view(final(bools)@) == collect_bool_spec(
            bool_view(*e),
            names_view(old(bools)@),
            names_view(old(ints)@),
        ).0,
        names_view(final(ints)@) == collect_bool_spec(
            bool_view(*e),
            names_view(old(bools)@),
            names_view(old(ints)@),
        ).1,
    decreases *e,
{
    proof {
        reveal_with_fuel(bool_view, 2);
    }
    match e {
        BoolExpr::BLit(_) => {},
        BoolExpr::BVar(n) => add_name(bools, n),
        BoolExpr::BNot(a) => collect_bool(a, bools, ints),
        BoolExpr::BAnd(a, b) => {
            collect_bool(a, bools, ints);
            collect_bool(b, bools, ints);
        },
        BoolExpr::BXor(a, b) => {
            collect_bool(a, bools, ints);
            collect_bool(b, bools, ints);
        },
        BoolExpr::BImplies(a, b) => {
            collect_bool(a, bools, ints);
            collect_bool(b, bools, ints);
        },
        BoolExpr::BEqBool(a, b) => {
            collect_bool(a, bools, ints);
            collect_bool(b, bools, ints);
        },
        BoolExpr::BCmp(_, a, b) => {
            collect_int(a, ints);
            collect_int(b, ints);
        },
    }
}

#[verifier::rlimit(100)]
fn render_int(e: &IntExpr, out: &mut Vec<char>)
    ensures
        final(out)@ == old(out)@ + int_term_text(int_view(*e)),
    decreases *e,
{
    proof {
        reveal_with_fuel(int_view, 2);
    }
    match e {
        IntExpr::IVar(n) => push_symbol(out, 'i', n),
        IntExpr::ILit(v) => push_i64(out, *v),
        IntExpr::IMul(a, b) => {
            push_lit(out, "(* ");
            render_int(a, out);
            out.push(' ');
            render_int(b, out);
            out.push(')');
            proof {
                assert(out@ =~= old(out)@ + int_term_text(int_view(*e)));
            }
        },
    }
}

#[verifier::rlimit(100)]
fn render_bool(e: &BoolExpr, out: &mut Vec<char>)
    ensures
        final(out)@ == old(out)@ + bool_term_text(bool_view(*e)),
    decreases *e,
{
    proof {
        reveal_with_fuel(bool_view, 2);
    }
    match e {
        BoolExpr::BLit(b) => {
            if *b {
                push_lit(out, "true");
            } else {
                push_lit(out, "false");
            }
        },
        BoolExpr::BVar(n) => push_symbol(out, 'b', n),
        BoolExpr::BNot(a) => {
            push_lit(out, "(not ");
            render_bool(a, out);
            out.push(')');
            proof {
                assert(out@ =~= old(out)@ + bool_term_text(bool_view(*e)));
            }
        },
        BoolExpr::BAnd(a, b) => {
            push_lit(out, "(and ");
            render_bool(a, out);
            out.push(' ');
            render_bool(b, out);
            out.push(')');
            proof {
                assert(out@ =~= old(out)@ + bool_term_text(bool_view(*e)));
            }
        },
        BoolExpr::BXor(a, b) => {
            push_lit(out, "(xor ");
            render_bool(a, out);
            out.push(' ');
            render_bool(b, out);
            out.push(')');
            proof {
                assert(out@ =~= old(out)@ + bool_term_text(bool_view(*e)));
            }
        },
        BoolExpr::BImplies(a, b) => {
            push_lit(out, "(=> ");
            render_bool(a, out);
            out.push(' ');
            render_bool(b, out);
            out.push(')');
            proof {
                assert(out@ =~= old(out)@ + bool_term_text(bool_view(*e)));
            }
        },
        BoolExpr::BEqBool(a, b) => {
            push_lit(out, "(= ");
            render_bool(a, out);
            out.push(' ');
            render_bool(b, out);
            out.push(')');
            proof {
                assert(out@ =~= old(out)@ + bool_term_text(bool_view(*e)));
            }
        },
        BoolExpr::BCmp(op, a, b) => {
            match op {
                CmpOp::CmpEq => push_lit(out, "(= "),
                CmpOp::CmpNe => push_lit(out, "(distinct "),
                CmpOp::CmpGe => push_lit(out, "(>= "),
                CmpOp::CmpGt => push_lit(out, "(> "),
                CmpOp::CmpLe => push_lit(out, "(<= "),
                CmpOp::CmpLt => push_lit(out, "(< "),
            }
            render_int(a, out);
            out.push(' ');
            render_int(b, out);
            out.push(')');
            proof {
                assert(out@ =~= old(out)@ + bool_term_text(bool_view(*e)));
            }
        },
    }
}

/// Render the assertion list as solver input: declarations for every
/// variable occurring in it, then one `assert` per formula, in order —
/// exactly the text `spec_render_script` gives.
pub fn render_script(script: &Vec<BoolExpr>) -> (r: Vec<char>)
    ensures
        r@ == spec_render_script(views_of(script@)),
{
    let ghost sv = views_of(script@);
    let mut bools: Vec<Vec<char>> = Vec::new();
    let mut ints: Vec<Vec<char>> = Vec::new();
    proof {
        assert(names_view(bools@) =~= Seq::<Seq<char>>::empty());
        assert(names_view(ints@) =~= Seq::<Seq<char>>::empty());
    }
    let mut k: usize = 0;
    while k < script.len()
        invariant
            0 <= k <= script.len(),
            sv == views_of(script@),
            names_view(bools@) == collect_script_spec(
                sv,
                k as nat,
                Seq::empty(),
                Seq::empty(),
            ).0,
            names_view(ints@) == collect_script_spec(sv, k as nat, Seq::empty(), Seq::empty()).1,
        decreases script.len() - k,
    {
        collect_bool(&script[k], &mut bools, &mut ints);
        proof {
            assert(sv[k as int] == bool_view(script@[k as int]));
        }
        k += 1;
    }
    let ghost bs = collect_script_spec(sv, sv.len(), Seq::empty(), Seq::empty()).0;
    let ghost is = collect_script_spec(sv, sv.len(), Seq::empty(), Seq::empty()).1;
    let mut out: Vec<char> = Vec::new();
    let mut k: usize = 0;
    while k < bools.len()
        invariant
            0 <= k <= bools.len(),
            names_view(bools@) == bs,
            out@ == decls_text(bs, k as nat, 'b', " Bool)\n"@),
        decreases bools.len() - k,
    {
        push_lit(&mut out, "(declare-const ");
        push_symbol(&mut out, 'b', &bools[k]);
        push_lit(&mut out, " Bool)\n");
        proof {
            assert(bs[k as int] == (bools@[k as int])@);
            assert(out@ =~= decls_text(bs, (k + 1) as nat, 'b', " Bool)\n"@));
        }
        k += 1;
    }
    let ghost head1 = decls_text(bs, bs.len(), 'b', " Bool)\n"@);
    let mut k: usize = 0;
    while k < ints.len()
        invariant
            0 <= k <= ints.len(),
            names_view(ints@) == is,
            head1 == decls_text(bs, bs.len(), 'b', " Bool)\n"@),
            out@ == head1 + decls_text(is, k as nat, 'i', " Int)\n"@),
        decreases ints.len() - k,
    {
        push_lit(&mut out, "(declare-const ");
        push_symbol(&mut out, 'i', &ints[k]);
        push_lit(&mut out, " Int)\n");
        proof {
            assert(is[k as int] == (ints@[k as int])@);
            assert(out@ =~= head1 + decls_text(is, (k + 1) as nat, 'i', " Int)\n"@));
        }
        k += 1;
    }
    let ghost head2 = head1 + decls_text(is, is.len(), 'i', " Int)\n"@);
    let mut k: usize = 0;
    while k < script.len()
        invariant
            0 <= k <= script.len(),
            sv == views_of(script@),
            head2 == decls_text(bs, bs.len(), 'b', " Bool)\n"@) + decls_text(
                is,
                is.len(),
                'i',
                " Int)\n"@,
            ),
            out@ == head2 + asserts_text(sv, k as nat),
        decreases script.len() - k,
    {
        push_lit(&mut out, "(assert ");
        render_bool(&script[k], &mut out);
        push_lit(&mut out, ")\n");
        proof {
            assert(sv[k as int] == bool_view(script@[k as int]));
            assert(out@ =~= head2 + asserts_text(sv, (k + 1) as nat));
        }
        k += 1;
    }
    proof {
        assert(out@ =~= spec_render_script(sv));
    }
    out
}

/// Relies on z3's `Solver`: `check` answers `Sat` only for a satisfiable
/// assertion set and `Unsat` only for an unsatisfiable one, reading the
/// assertions from the given text, which the `requires` pins to
/// `spec_render_script` — the exact rendering of the formulas that
/// `eval_bool` interprets, over escaped, NUL-free, sort-prefixed symbols.
/// Nothing is promised of `Unknown` or of the model text; the model is
/// formatted fallibly and withheld when its text cannot be produced.
#[verifier::external_body]
pub fn solve_script(script: &Vec<BoolExpr>, text: &String) -> (r: SatOutcome)
    requires
        text@ == spec_render_script(views_of(script@)),
    ensures
        (r is Sat) ==> satisfiable(views_of(script@)),
        (r is Unsat) ==> !satisfiable(views_of(script@)),
{
    let solver = z3::Solver::new();
    solver.from_string(text.as_str());
    match solver.check() {
        z3::SatResult::Sat => {
            let mut m = String::new();
            let ok = match solver.get_model() {
                Some(md) => write!(&mut m, "{}", md).is_ok(),
                None => false,
            };
            SatOutcome::Sat(if ok { Some(m) } else { None })
        },
        z3::SatResult::Unsat => SatOutcome::Unsat,
        z3::SatResult::Unknown => SatOutcome::Unknown,
    }
}

} // verus!
