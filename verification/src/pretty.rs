//! Human-readable renditions of modules and functions, and the symbol
//! filter the driver applies: a function is analyzed when its demangled
//! name mentions the file's stem and is not the program entry point.

use vstd::prelude::*;

use crate::cfg::spec_succ;
use crate::compile::{IsCleanup, is_panic_block, node_name, node_name_chars, spec_is_panic_block};
use crate::ir::{Function, Module, spec_terminator};
use crate::names::chars_of_str;

verus! {

/// What `rustc_demangle` makes of a symbol: the demangled form depends on
/// the symbol text alone.
pub uninterp spec fn demangled_of(s: Seq<char>) -> Seq<char>;

/// Relies on rustc_demangle::demangle: a pure function of the symbol
/// text, printed in its default form.
#[verifier::external_body]
pub fn demangle_string(s: &str) -> (r: String)
    ensures
        r@ == demangled_of(s@),
{
    rustc_demangle::demangle(s).to_string()
}

/// Relies on std's `FromIterator` for `String`: collecting characters
/// yields exactly those characters.
#[verifier::external_body]
pub fn string_from_chars(v: &Vec<char>) -> (r: String)
    ensures
        r@ == v@,
{
    v.iter().collect()
}

/// `n` occurs in `h` as a contiguous run.
pub open spec fn contains_seq(h: Seq<char>, n: Seq<char>) -> bool {
    exists|i: int| 0 <= i <= h.len() - n.len() && #[trigger] h.subrange(i, i + n.len()) == n
}

/// Does `n` occur in `h` as a contiguous run?
pub fn chars_contain(h: &Vec<char>, n: &Vec<char>) -> (r: bool)
    ensures
        r == contains_seq(h@, n@),
{
    if n.len() > h.len() {
        proof {
            assert(!contains_seq(h@, n@));
        }
        return false;
    }
    if n.len() == 0 {
        proof {
            assert(h@.subrange(0, 0 + n@.len() as int) =~= n@);
            assert(contains_seq(h@, n@));
        }
        return true;
    }
    let mut i: usize = 0;
    while i <= h.len() - n.len()
        invariant
            1 <= n.len() <= h.len(),
            0 <= i <= h.len() - n.len() + 1,
            forall|i2: int| 0 <= i2 < i ==> #[trigger] h@.subrange(i2, i2 + n@.len()) != n@,
        decreases h.len() - n.len() + 1 - i,
    {
        let mut j: usize = 0;
        let mut matched: bool = true;
        while j < n.len()
            invariant
                matched ==> forall|j2: int| 0 <= j2 < j ==> h@[i + j2] == n@[j2],
                0 <= j <= n.len(),
                i + n.len() <= h.len(),
                !matched ==> h@.subrange(i as int, i + n@.len()) != n@,
            decreases n.len() - j,
        {
            if h[i + j] != n[j] {
                proof {
                    assert(h@.subrange(i as int, i + n@.len())[j as int] == h@[i + j]);
                }
                matched = false;
                j = n.len();
            } else {
                j += 1;
            }
        }
        if matched {
            proof {
                assert(h@.subrange(i as int, i + n@.len()) =~= n@);
            }
            return true;
        }
        i += 1;
    }
    false
}

/// Whether the driver analyzes a symbol: its demangled name mentions the
/// stem but is not the `::main` entry point.
pub fn selects_function(mangled: &str, stem: &str) -> (r: bool)
    ensures
        r == (contains_seq(demangled_of(mangled@), stem@) && !contains_seq(
            demangled_of(mangled@),
            "::main"@,
        )),
{
    let d = demangle_string(mangled);
    let dc = chars_of_str(d.as_str());
    let sc = chars_of_str(stem);
    let mc = chars_of_str("::main");
    chars_contain(&dc, &sc) && !chars_contain(&dc, &mc)
}

/// Append a literal to the buffer.
fn append_str(out: &mut Vec<char>, s: &str)
    ensures
        final(out)@ == old(out)@ + s@,
{
    let cs = chars_of_str(s);
    let mut i: usize = 0;
    while i < cs.len()
        invariant
            0 <= i <= cs.len(),
            cs@ == s@,
            out@ == old(out)@ + s@.subrange(0, i as int),
        decreases cs.len() - i,
    {
        out.push(cs[i]);
        proof {
            assert(out@ =~= old(out)@ + s@.subrange(0, i as int + 1));
        }
        i += 1;
    }
    proof {
        assert(out@ =~= old(out)@ + s@);
    }
}

/// Append an owned string's characters to the buffer.
fn append_string(out: &mut Vec<char>, s: &String)
    ensures
        final(out)@ == old(out)@ + s@,
{
    append_str(out, s.as_str());
}

/// The decimal form of a number.
pub open spec fn spec_dec(n: nat) -> Seq<char>
    decreases n,
{
    if n < 10 {
        seq![((48 + n) as u8) as char]
    } else {
        spec_dec(n / 10) + seq![((48 + n % 10) as u8) as char]
    }
}

/// Render a number in decimal.
pub fn dec_chars(n: usize) -> (r: Vec<char>)
    ensures
        r@ == spec_dec(n as nat),
    decreases n,
{
    if n < 10 {
        let mut r: Vec<char> = Vec::new();
        r.push((48 + n as u8) as char);
        proof {
            assert(r@ =~= spec_dec(n as nat));
        }
        r
    } else {
        let mut r = dec_chars(n / 10);
        r.push((48 + (n % 10) as u8) as char);
        proof {
            assert(r@ =~= spec_dec(n as nat));
        }
        r
    }
}

/// One line per function of the module: the demangled name beside the raw
/// symbol.
pub open spec fn file_function_lines(fs: Seq<Function>, k: nat) -> Seq<char>
    decreases k,
{
    if k == 0 || k > fs.len() {
        Seq::empty()
    } else {
        file_function_lines(fs, (k - 1) as nat) + "\t"@ + demangled_of(fs[k - 1].name@) + " == "@
            + fs[k - 1].name@ + "\n"@
    }
}

/// The listing of a module's functions.
pub open spec fn spec_file_functions(m: Module) -> Seq<char> {
    "Functions in "@ + m.name@ + ":\n"@ + file_function_lines(m.functions@, m.functions.len() as nat)
}

/// List every function of the module with its demangled name.
pub fn print_file_functions(m: &Module) -> (r: String)
    ensures
        r@ == spec_file_functions(*m),
{
    let mut out: Vec<char> = Vec::new();
    append_str(&mut out, "Functions in ");
    append_string(&mut out, &m.name);
    append_str(&mut out, ":\n");
    let ghost head = "Functions in "@ + m.name@ + ":\n"@;
    proof {
        assert(out@ =~= head + file_function_lines(m.functions@, 0));
    }
    let mut k: usize = 0;
    while k < m.functions.len()
        invariant
            0 <= k <= m.functions.len(),
            head == "Functions in "@ + m.name@ + ":\n"@,
            out@ == head + file_function_lines(m.functions@, k as nat),
        decreases m.functions.len() - k,
    {
        append_str(&mut out, "\t");
        let d = demangle_string(m.functions[k].name.as_str());
        append_string(&mut out, &d);
        append_str(&mut out, " == ");
        append_string(&mut out, &m.functions[k].name);
        append_str(&mut out, "\n");
        proof {
            assert(out@ =~= head + file_function_lines(m.functions@, (k + 1) as nat));
        }
        k += 1;
    }
    string_from_chars(&out)
}

/// The rendition of one cleanup classification.
pub open spec fn cleanup_text(c: IsCleanup) -> Seq<char> {
    match c {
        IsCleanup::Yes => "Yes"@,
        IsCleanup::No => "No"@,
        IsCleanup::Unknown => "Unknown"@,
    }
}

/// The statement lines of one block.
pub open spec fn statement_lines(b: crate::ir::BasicBlock, k: nat) -> Seq<char>
    decreases k,
{
    if k == 0 || k > b.instrs.len() {
        Seq::empty()
    } else {
        statement_lines(b, (k - 1) as nat) + "\t\tStatement: "@ + b.instrs[k - 1].printed@ + "\n"@
    }
}

/// The rendition of one block: its name, its classification, its
/// statements, and whether it ends in a terminator.
pub open spec fn block_text(b: crate::ir::BasicBlock) -> Seq<char> {
    "\tBasic Block: "@ + b.name@ + "\n\t\tis_cleanup: "@ + cleanup_text(
        spec_is_panic_block(b),
    ) + "\n"@ + statement_lines(b, b.instrs.len() as nat) + (if spec_terminator(b) is Some {
        "\t\tLast statement is a terminator\n"@
    } else {
        "\t\tNo terminator\n"@
    })
}

/// The block renditions of the first `k` blocks.
pub open spec fn blocks_text(f: Function, k: nat) -> Seq<char>
    decreases k,
{
    if k == 0 || k > f.blocks.len() {
        Seq::empty()
    } else {
        blocks_text(f, (k - 1) as nat) + block_text(f.blocks[k - 1])
    }
}

/// One line per successor of the entry block.
pub open spec fn successor_lines(f: Function, k: nat) -> Seq<char>
    decreases k,
{
    if k == 0 || k > spec_succ(f, 0).len() {
        Seq::empty()
    } else {
        successor_lines(f, (k - 1) as nat) + "\tSuccessor to start node: "@ + node_name(
            f,
            spec_succ(f, 0)[k - 1],
        ) + "\n"@
    }
}

/// The whole rendition of a function.
pub open spec fn spec_pretty_function(f: Function) -> Seq<char> {
    "Number of Nodes: "@ + spec_dec(f.blocks.len() as nat) + "\n"@ + "Arg count: "@ + spec_dec(
        f.params.len() as nat,
    ) + "\nBasic Blocks:\n"@ + blocks_text(f, f.blocks.len() as nat) + "Start node: "@
        + f.blocks[0].name@ + "\n"@ + successor_lines(f, spec_succ(f, 0).len())
}

/// Render a function: its sizes, each block with its statements and
/// classification, the entry block and its successors.
#[verifier::rlimit(100)]
pub fn pretty_print_function(f: &Function) -> (r: String)
    requires
        f.blocks.len() >= 1,
        f.blocks.len() < usize::MAX,
    ensures
        r@ == spec_pretty_function(*f),
{
    let mut out: Vec<char> = Vec::new();
    append_str(&mut out, "Number of Nodes: ");
    let mut d = dec_chars(f.blocks.len());
    let mut i: usize = 0;
    while i < d.len()
        invariant
            0 <= i <= d.len(),
            out@ == "Number of Nodes: "@ + d@.subrange(0, i as int),
            d@ == spec_dec(f.blocks.len() as nat),
        decreases d.len() - i,
    {
        out.push(d[i]);
        proof {
            assert(out@ =~= "Number of Nodes: "@ + d@.subrange(0, i as int + 1));
        }
        i += 1;
    }
    proof {
        assert(out@ =~= "Number of Nodes: "@ + spec_dec(f.blocks.len() as nat));
    }
    append_str(&mut out, "\n");
    append_str(&mut out, "Arg count: ");
    let ghost head1 = "Number of Nodes: "@ + spec_dec(f.blocks.len() as nat) + "\n"@ + "Arg count: "@;
    proof {
        assert(out@ =~= head1);
    }
    let d2 = dec_chars(f.params.len());
    let mut i: usize = 0;
    while i < d2.len()
        invariant
            0 <= i <= d2.len(),
            out@ == head1 + d2@.subrange(0, i as int),
            d2@ == spec_dec(f.params.len() as nat),
            head1 == "Number of Nodes: "@ + spec_dec(f.blocks.len() as nat) + "\n"@
                + "Arg count: "@,
        decreases d2.len() - i,
    {
        out.push(d2[i]);
        proof {
            assert(out@ =~= head1 + d2@.subrange(0, i as int + 1));
        }
        i += 1;
    }
    append_str(&mut out, "\nBasic Blocks:\n");
    let ghost head2 = head1 + spec_dec(f.params.len() as nat) + "\nBasic Blocks:\n"@;
    proof {
        assert(out@ =~= head2 + blocks_text(*f, 0));
    }
    let mut k: usize = 0;
    while k < f.blocks.len()
        invariant
            0 <= k <= f.blocks.len(),
            f.blocks.len() >= 1,
            f.blocks.len() < usize::MAX,
            out@ == head2 + blocks_text(*f, k as nat),
            head2 == "Number of Nodes: "@ + spec_dec(f.blocks.len() as nat) + "\n"@
                + "Arg count: "@ + spec_dec(f.params.len() as nat) + "\nBasic Blocks:\n"@,
        decreases f.blocks.len() - k,
    {
        let ghost pre = out@;
        let b = &f.blocks[k];
        append_str(&mut out, "\tBasic Block: ");
        append_string(&mut out, &b.name);
        append_str(&mut out, "\n\t\tis_cleanup: ");
        match is_panic_block(b) {
            IsCleanup::Yes => append_str(&mut out, "Yes"),
            IsCleanup::No => append_str(&mut out, "No"),
            IsCleanup::Unknown => append_str(&mut out, "Unknown"),
        }
        append_str(&mut out, "\n");
        let ghost mid = pre + "\tBasic Block: "@ + b.name@ + "\n\t\tis_cleanup: "@ + cleanup_text(
            spec_is_panic_block(*b),
        ) + "\n"@;
        proof {
            assert(out@ =~= mid + statement_lines(*b, 0));
        }
        let mut j: usize = 0;
        while j < b.instrs.len()
            invariant
                0 <= j <= b.instrs.len(),
                out@ == mid + statement_lines(*b, j as nat),
            decreases b.instrs.len() - j,
        {
            append_str(&mut out, "\t\tStatement: ");
            append_string(&mut out, &b.instrs[j].printed);
            append_str(&mut out, "\n");
            proof {
                assert(out@ =~= mid + statement_lines(*b, (j + 1) as nat));
            }
            j += 1;
        }
        match b.terminator() {
            Some(_) => append_str(&mut out, "\t\tLast statement is a terminator\n"),
            None => append_str(&mut out, "\t\tNo terminator\n"),
        }
        proof {
            assert(out@ =~= pre + block_text(f.blocks[k as int]));
            assert(out@ =~= head2 + blocks_text(*f, (k + 1) as nat));
        }
        k += 1;
    }
    append_str(&mut out, "Start node: ");
    append_string(&mut out, &f.blocks[0].name);
    append_str(&mut out, "\n");
    let ghost head3 = head2 + blocks_text(*f, f.blocks.len() as nat) + "Start node: "@
        + f.blocks[0].name@ + "\n"@;
    proof {
        assert(out@ =~= head3 + successor_lines(*f, 0));
    }
    let fwd = crate::cfg::get_forward_edges(f);
    let succs = &fwd[0];
    let mut k: usize = 0;
    while k < succs.len()
        invariant
            0 <= k <= succs.len(),
            succs@ == spec_succ(*f, 0),
            f.blocks.len() < usize::MAX,
            out@ == head3 + successor_lines(*f, k as nat),
        decreases succs.len() - k,
    {
        proof {
            crate::cfg::lemma_succ_bound(*f, 0);
        }
        append_str(&mut out, "\tSuccessor to start node: ");
        let n = node_name_chars(f, succs[k]);
        let ns = string_from_chars(&n);
        append_string(&mut out, &ns);
        append_str(&mut out, "\n");
        proof {
            assert(out@ =~= head3 + successor_lines(*f, (k + 1) as nat));
        }
        k += 1;
    }
    proof {
        assert(out@ =~= spec_pretty_function(*f));
    }
    string_from_chars(&out)
}

} // verus!
