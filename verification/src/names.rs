//! Name resolution: canonicalize the printed text form of an LLVM value to
//! a solver identifier. A printed form without the `%` sigil is a constant
//! literal whose second whitespace token is the literal (`true`, `false` or
//! a signed decimal); the identifier is then `const_<literal>` and a
//! standing equality must accompany it. Otherwise the identifier is the
//! `%`-prefixed name read up to the first `"`, space or comma.

use vstd::prelude::*;
use vstd::string::StrSliceExecFns;

verus! {

/// Turn a string into its characters.
pub fn chars_of_str(s: &str) -> (r: Vec<char>)
    ensures
        r@ == s@,
{
    let n = s.unicode_len();
    let mut r: Vec<char> = Vec::new();
    let mut i: usize = 0;
    while i < n
        invariant
            0 <= i <= n,
            n == s@.len(),
            r@ == s@.subrange(0, i as int),
        decreases n - i,
    {
        let c = s.get_char(i);
        r.push(c);
        proof {
            assert(r@ =~= s@.subrange(0, i as int + 1));
        }
        i += 1;
    }
    proof {
        assert(r@ =~= s@);
    }
    r
}

/// Are two character lists equal?
pub fn chars_eq(a: &Vec<char>, b: &Vec<char>) -> (r: bool)
    ensures
        r == (a@ == b@),
{
    if a.len() != b.len() {
        proof {
            assert(a@ != b@);
        }
        return false;
    }
    let mut i: usize = 0;
    while i < a.len()
        invariant
            0 <= i <= a.len(),
            a.len() == b.len(),
            forall|j: int| 0 <= j < i ==> a@[j] == b@[j],
        decreases a.len() - i,
    {
        if a[i] != b[i] {
            return false;
        }
        i += 1;
    }
    proof {
        assert(a@ =~= b@);
    }
    true
}

/// A whitespace character, as the printed forms of the IR use them.
pub open spec fn is_space(c: char) -> bool {
    c == ' ' || c == '\t' || c == '\n' || c == '\r'
}

pub fn char_is_space(c: char) -> (r: bool)
    ensures
        r == is_space(c),
{
    c == ' ' || c == '\t' || c == '\n' || c == '\r'
}

/// The first position at or after `k` whose character satisfies `space`
/// (when `space` is set) or fails it (when clear); the length if none does.
pub open spec fn first_from(s: Seq<char>, k: int, space: bool) -> int
    decreases s.len() - k,
{
    if k < 0 || k >= s.len() {
        s.len() as int
    } else if is_space(s[k]) == space {
        k
    } else {
        first_from(s, k + 1, space)
    }
}

proof fn lemma_first_from_bounds(s: Seq<char>, k: int, space: bool)
    requires
        0 <= k <= s.len(),
    ensures
        k <= first_from(s, k, space) <= s.len(),
        forall|i: int| k <= i < first_from(s, k, space) ==> is_space(#[trigger] s[i]) != space,
        first_from(s, k, space) < s.len() ==> is_space(s[first_from(s, k, space)]) == space,
    decreases s.len() - k,
{
    if k < s.len() && is_space(s[k]) != space {
        lemma_first_from_bounds(s, k + 1, space);
    }
}

fn find_first_from(s: &Vec<char>, k: usize, space: bool) -> (r: usize)
    requires
        k <= s.len(),
    ensures
        r == first_from(s@, k as int, space),
        k <= r <= s.len(),
{
    proof {
        lemma_first_from_bounds(s@, k as int, space);
    }
    let mut i: usize = k;
    while i < s.len()
        invariant
            k <= i <= s.len(),
            first_from(s@, k as int, space) == first_from(s@, i as int, space),
        decreases s.len() - i,
    {
        if char_is_space(s[i]) == space {
            return i;
        }
        i += 1;
    }
    i
}

/// The second whitespace-separated token of `s`, when there is one.
pub open spec fn second_token(s: Seq<char>) -> Option<Seq<char>> {
    let i0 = first_from(s, 0, false);
    let i1 = first_from(s, i0, true);
    let i2 = first_from(s, i1, false);
    let i3 = first_from(s, i2, true);
    if i2 < s.len() {
        Some(s.subrange(i2, i3))
    } else {
        None
    }
}

/// The value of a string of decimal digits.
pub open spec fn digits_val(s: Seq<char>) -> int
    decreases s.len(),
{
    if s.len() == 0 {
        0
    } else {
        digits_val(s.drop_last()) * 10 + (s.last() as u32 - 48)
    }
}

/// Every character is a decimal digit.
pub open spec fn all_digits(s: Seq<char>) -> bool {
    forall|i: int| 0 <= i < s.len() ==> 48 <= (#[trigger] s[i]) as u32 <= 57
}

/// Parse a decimal integer with an optional sign, as `i32` parsing accepts
/// it: the value must fit the type.
pub open spec fn spec_parse_i32(s: Seq<char>) -> Option<i32> {
    let sign = s.len() > 0 && (s[0] == '-' || s[0] == '+');
    let neg = s.len() > 0 && s[0] == '-';
    let mag = if sign {
        s.subrange(1, s.len() as int)
    } else {
        s
    };
    if mag.len() == 0 || !all_digits(mag) {
        None
    } else {
        let v = if neg {
            -digits_val(mag)
        } else {
            digits_val(mag)
        };
        if i32::MIN <= v <= i32::MAX {
            Some(v as i32)
        } else {
            None
        }
    }
}

proof fn lemma_digits_val_nonneg(s: Seq<char>)
    requires
        all_digits(s),
    ensures
        digits_val(s) >= 0,
    decreases s.len(),
{
    if s.len() > 0 {
        assert(all_digits(s.drop_last())) by {
            assert(forall|i: int|
                0 <= i < s.len() - 1 ==> (#[trigger] s.drop_last()[i]) == s[i]);
        }
        lemma_digits_val_nonneg(s.drop_last());
    }
}

proof fn lemma_digits_val_prefix(s: Seq<char>, k: int)
    requires
        all_digits(s),
        0 <= k <= s.len(),
    ensures
        digits_val(s) >= digits_val(s.subrange(0, k)),
    decreases s.len() - k,
{
    if k < s.len() {
        lemma_digits_val_prefix(s, k + 1);
        let p1 = s.subrange(0, k + 1);
        let p0 = s.subrange(0, k);
        assert(p1.drop_last() =~= p0);
        assert(all_digits(p1));
        assert(all_digits(p0));
        lemma_digits_val_nonneg(p0);
        assert(digits_val(p1) == digits_val(p0) * 10 + (p1.last() as u32 - 48));
        assert(digits_val(p1) >= digits_val(p0));
    } else {
        assert(s.subrange(0, k) =~= s);
    }
}

/// Parse the characters as a signed 32-bit decimal.
pub fn parse_i32_chars(s: &Vec<char>) -> (r: Option<i32>)
    ensures
        r == spec_parse_i32(s@),
{
    let ghost whole = s@;
    let mut start: usize = 0;
    let mut neg: bool = false;
    if s.len() > 0 && (s[0] == '-' || s[0] == '+') {
        start = 1;
        neg = s[0] == '-';
    }
    let ghost mag = if start == 1 {
        whole.subrange(1, whole.len() as int)
    } else {
        whole
    };
    proof {
        if start == 0 {
            assert(mag =~= whole.subrange(0, whole.len() as int));
        }
    }
    if s.len() == start {
        assert(mag.len() == 0);
        return None;
    }
    let mut acc: i64 = 0;
    let mut i: usize = start;
    while i < s.len()
        invariant
            start <= i <= s.len(),
            start <= 1,
            mag == whole.subrange(start as int, whole.len() as int),
            mag == (if s@.len() > 0 && (s@[0] == '-' || s@[0] == '+') {
                s@.subrange(1, s@.len() as int)
            } else {
                s@
            }),
            whole == s@,
            s.len() > start,
            (start == 1) == (s@.len() > 0 && (s@[0] == '-' || s@[0] == '+')),
            neg == (start == 1 && s@[0] == '-'),
            0 <= acc <= 0x80000000i64,
            all_digits(mag.subrange(0, i - start)),
            acc == digits_val(mag.subrange(0, i - start)),
        decreases s.len() - i,
    {
        let ghost p0 = mag.subrange(0, i - start);
        let ghost p1 = mag.subrange(0, i - start + 1);
        let c = s[i];
        let cu = c as u32;
        proof {
            assert(mag[i - start] == whole[i as int]);
        }
        if !(cu >= 48 && cu <= 57) {
            proof {
                assert(!(48 <= mag[i - start] as u32 <= 57));
                assert(!all_digits(mag));
            }
            return None;
        }
        proof {
            assert(p1.drop_last() =~= p0);
            assert(p1.last() == mag[i - start]);
            assert(all_digits(p1)) by {
                assert forall|j: int| 0 <= j < p1.len() implies 48 <= (#[trigger] p1[j]) as u32
                    <= 57 by {
                    if j < p1.len() - 1 {
                        assert(p1[j] == p0[j]);
                    } else {
                        assert(p1[j] == mag[i - start]);
                    }
                }
            }
            assert(digits_val(p1) == digits_val(p0) * 10 + (p1.last() as u32 - 48));
        }
        acc = acc * 10 + ((cu - 48) as i64);
        i += 1;
        proof {
            assert(acc == digits_val(p1));
        }
        if acc > 0x80000000i64 {
            proof {
                if all_digits(mag) {
                    lemma_digits_val_prefix(mag, i - start);
                    assert(mag.subrange(0, mag.len() as int) =~= mag);
                    assert(digits_val(mag) >= acc);
                    assert(digits_val(mag) > 0x80000000);
                    assert(spec_parse_i32(s@) is None);
                } else {
                    assert(spec_parse_i32(s@) is None);
                }
            }
            return None;
        }
    }
    proof {
        assert(mag.subrange(0, mag.len() as int) =~= mag);
        assert(all_digits(mag));
        assert(acc == digits_val(mag));
    }
    if neg {
        if acc > 0x80000000i64 {
            return None;
        }
        Some((-acc) as i32)
    } else {
        if acc > 0x7fffffffi64 {
            return None;
        }
        Some(acc as i32)
    }
}

/// A resolved value, at the specification level.
pub enum ResolvedView {
    Reg(Seq<char>),
    BoolConst(bool),
    IntConst(Seq<char>, i32),
}

/// A resolved value: an SSA register name taken verbatim (with its `%`), a
/// boolean constant literal, or an integer constant literal with its text.
pub enum Resolved {
    Reg(Vec<char>),
    BoolConst(bool),
    IntConst(Vec<char>, i32),
}

impl View for Resolved {
    type V = ResolvedView;

    open spec fn view(&self) -> ResolvedView {
        match self {
            Resolved::Reg(v) => ResolvedView::Reg(v@),
            Resolved::BoolConst(b) => ResolvedView::BoolConst(*b),
            Resolved::IntConst(v, n) => ResolvedView::IntConst(v@, *n),
        }
    }
}

/// A character that ends a register name: `"`, space or comma.
pub open spec fn is_name_end(c: char) -> bool {
    c == '"' || c == ' ' || c == ','
}

/// The first position at or after `k` that ends a register name, or the
/// length.
pub open spec fn name_end_from(s: Seq<char>, k: int) -> int
    decreases s.len() - k,
{
    if k < 0 || k >= s.len() {
        s.len() as int
    } else if is_name_end(s[k]) {
        k
    } else {
        name_end_from(s, k + 1)
    }
}

/// The first position at or after `k` holding `%`, or the length.
pub open spec fn sigil_from(s: Seq<char>, k: int) -> int
    decreases s.len() - k,
{
    if k < 0 || k >= s.len() {
        s.len() as int
    } else if s[k] == '%' {
        k
    } else {
        sigil_from(s, k + 1)
    }
}

proof fn lemma_sigil_from(s: Seq<char>, k: int)
    requires
        0 <= k <= s.len(),
    ensures
        k <= sigil_from(s, k) <= s.len(),
        sigil_from(s, k) < s.len() ==> s[sigil_from(s, k)] == '%',
        (sigil_from(s, k) == s.len()) ==> forall|i: int| k <= i < s.len() ==> s[i] != '%',
    decreases s.len() - k,
{
    if k < s.len() && s[k] != '%' {
        lemma_sigil_from(s, k + 1);
    }
}

/// Resolve a printed value form to an identifier. Without a `%` sigil the
/// form is a constant literal and its second token decides the constant;
/// a form whose literal is neither boolean nor a decimal that fits `i32`
/// is malformed and yields nothing. With a sigil the name runs from the
/// first `%` up to the first `"`, space or comma.
pub open spec fn spec_resolve(s: Seq<char>) -> Option<ResolvedView> {
    if !s.contains('%') {
        match second_token(s) {
            None => None,
            Some(tok) => if tok == "true"@ {
                Some(ResolvedView::BoolConst(true))
            } else if tok == "false"@ {
                Some(ResolvedView::BoolConst(false))
            } else {
                match spec_parse_i32(tok) {
                    Some(v) => Some(ResolvedView::IntConst(tok, v)),
                    None => None,
                }
            },
        }
    } else {
        let st = sigil_from(s, 0);
        let en = name_end_from(s, st);
        Some(ResolvedView::Reg(s.subrange(st, en)))
    }
}

fn find_sigil(s: &Vec<char>) -> (r: usize)
    ensures
        r == sigil_from(s@, 0),
        r <= s.len(),
        (r < s.len()) == s@.contains('%'),
{
    proof {
        lemma_sigil_from(s@, 0);
        if sigil_from(s@, 0) < s@.len() {
            assert(s@.contains('%'));
        } else {
            if s@.contains('%') {
                let i = choose|i: int| 0 <= i < s@.len() && s@[i] == '%';
                assert(false);
            }
        }
    }
    let mut i: usize = 0;
    while i < s.len()
        invariant
            0 <= i <= s.len(),
            sigil_from(s@, 0) == sigil_from(s@, i as int),
        decreases s.len() - i,
    {
        if s[i] == '%' {
            return i;
        }
        i += 1;
    }
    i
}

fn find_name_end(s: &Vec<char>, k: usize) -> (r: usize)
    requires
        k <= s.len(),
    ensures
        r == name_end_from(s@, k as int),
        k <= r <= s.len(),
{
    proof {
        assert forall|j: int| k <= j <= s@.len() implies j <= #[trigger] name_end_from(s@, j)
            <= s@.len() by {
            lemma_name_end_bounds(s@, j);
        }
    }
    let mut i: usize = k;
    while i < s.len()
        invariant
            k <= i <= s.len(),
            name_end_from(s@, k as int) == name_end_from(s@, i as int),
        decreases s.len() - i,
    {
        let c = s[i];
        if c == '"' || c == ' ' || c == ',' {
            return i;
        }
        i += 1;
    }
    i
}

proof fn lemma_name_end_bounds(s: Seq<char>, k: int)
    requires
        0 <= k <= s.len(),
    ensures
        k <= name_end_from(s, k) <= s.len(),
    decreases s.len() - k,
{
    if k < s.len() && !is_name_end(s[k]) {
        lemma_name_end_bounds(s, k + 1);
    }
}

/// Copy the range `[st, en)` out of the characters.
fn chars_range(s: &Vec<char>, st: usize, en: usize) -> (r: Vec<char>)
    requires
        st <= en <= s.len(),
    ensures
        r@ == s@.subrange(st as int, en as int),
{
    let mut r: Vec<char> = Vec::new();
    let mut i: usize = st;
    while i < en
        invariant
            st <= i <= en <= s.len(),
            r@ == s@.subrange(st as int, i as int),
        decreases en - i,
    {
        r.push(s[i]);
        proof {
            assert(r@ =~= s@.subrange(st as int, i as int + 1));
        }
        i += 1;
    }
    r
}

/// Resolve the printed form of a value, as characters.
pub fn resolve_chars(s: &Vec<char>) -> (r: Option<Resolved>)
    ensures
        match r {
            Some(rv) => spec_resolve(s@) == Some(rv@),
            None => spec_resolve(s@) is None,
        },
{
    let sig = find_sigil(s);
    if sig < s.len() {
        let en = find_name_end(s, sig);
        let name = chars_range(s, sig, en);
        Some(Resolved::Reg(name))
    } else {
        // constant literal: find the second whitespace token
        let i0 = find_first_from(s, 0, false);
        let i1 = find_first_from(s, i0, true);
        let i2 = find_first_from(s, i1, false);
        let i3 = find_first_from(s, i2, true);
        if i2 >= s.len() {
            return None;
        }
        let tok = chars_range(s, i2, i3);
        let tchars = chars_of_str("true");
        let fchars = chars_of_str("false");
        if chars_eq(&tok, &tchars) {
            Some(Resolved::BoolConst(true))
        } else if chars_eq(&tok, &fchars) {
            Some(Resolved::BoolConst(false))
        } else {
            match parse_i32_chars(&tok) {
                Some(v) => Some(Resolved::IntConst(tok, v)),
                None => None,
            }
        }
    }
}

/// A register identifier carries the sigil: it begins with `%`.
pub proof fn lemma_reg_starts_with_sigil(s: Seq<char>, n: Seq<char>)
    requires
        spec_resolve(s) == Some(ResolvedView::Reg(n)),
    ensures
        n.len() >= 1,
        n[0] == '%',
{
    lemma_sigil_from(s, 0);
    let st = sigil_from(s, 0);
    if st == s.len() {
        assert(!s.contains('%')) by {
            if s.contains('%') {
                let i = choose|i: int| 0 <= i < s.len() && s[i] == '%';
                assert(false);
            }
        }
        assert(false);
    }
    assert(s.contains('%')) by {
        assert(s[st] == '%');
    }
    assert(!is_name_end(s[st]));
    assert(name_end_from(s, st) == name_end_from(s, st + 1));
    lemma_name_end_bounds(s, st + 1);
    assert(n[0] == s[st]);
}

/// Name resolution is deterministic: equal printed forms resolve to equal
/// identifiers (and equal standing constants).
pub proof fn lemma_resolution_deterministic(a: Seq<char>, b: Seq<char>)
    requires
        a == b,
    ensures
        spec_resolve(a) == spec_resolve(b),
{
}

/// The solver identifier of a resolved value: the register name verbatim,
/// or `const_` followed by the literal.
pub open spec fn resolved_name(rv: ResolvedView) -> Seq<char> {
    match rv {
        ResolvedView::Reg(n) => n,
        ResolvedView::BoolConst(b) => if b {
            "const_true"@
        } else {
            "const_false"@
        },
        ResolvedView::IntConst(tok, _) => "const_"@ + tok,
    }
}

/// Build the solver identifier of a resolved value.
pub fn resolved_name_chars(r: &Resolved) -> (out: Vec<char>)
    ensures
        out@ == resolved_name(r@),
{
    match r {
        Resolved::Reg(n) => {
            let mut out: Vec<char> = Vec::new();
            let mut i: usize = 0;
            while i < n.len()
                invariant
                    0 <= i <= n.len(),
                    out@ == n@.subrange(0, i as int),
                decreases n.len() - i,
            {
                out.push(n[i]);
                proof {
                    assert(out@ =~= n@.subrange(0, i as int + 1));
                }
                i += 1;
            }
            proof {
                assert(out@ =~= n@);
            }
            out
        },
        Resolved::BoolConst(b) => {
            if *b {
                chars_of_str("const_true")
            } else {
                chars_of_str("const_false")
            }
        },
        Resolved::IntConst(tok, _) => {
            let mut out = chars_of_str("const_");
            let mut i: usize = 0;
            while i < tok.len()
                invariant
                    0 <= i <= tok.len(),
                    out@ == "const_"@ + tok@.subrange(0, i as int),
                decreases tok.len() - i,
            {
                out.push(tok[i]);
                proof {
                    assert(out@ =~= "const_"@ + tok@.subrange(0, i as int + 1));
                }
                i += 1;
            }
            proof {
                assert(out@ =~= "const_"@ + tok@);
            }
            out
        },
    }
}

/// Resolve a printed value form straight to its solver identifier, with
/// nothing for a malformed constant literal.
pub fn get_var_name(printed: &str) -> (r: Option<Vec<char>>)
    ensures
        match r {
            Some(n) => spec_resolve(printed@) matches Some(rv) && n@ == resolved_name(rv),
            None => spec_resolve(printed@) is None,
        },
{
    let pc = chars_of_str(printed);
    match resolve_chars(&pc) {
        Some(rv) => Some(resolved_name_chars(&rv)),
        None => None,
    }
}

/// The aggregate-field index of an `extractvalue` instruction: the text
/// after the last space of its printed form. Nothing when no space occurs.
pub open spec fn spec_field_to_extract(s: Seq<char>) -> Option<Seq<char>> {
    if (exists|i: int| 0 <= i < s.len() && s[i] == ' ') {
        let last = choose|last: int|
            0 <= last < s.len() && s[last] == ' ' && (forall|j: int|
                last < j < s.len() ==> s[j] != ' ');
        Some(s.subrange(last + 1, s.len() as int))
    } else {
        None
    }
}

/// Read the field index out of an `extractvalue` instruction's printed
/// form.
pub fn get_field_to_extract(s: &Vec<char>) -> (r: Option<Vec<char>>)
    ensures
        match r {
            Some(v) => spec_field_to_extract(s@) == Some(v@),
            None => spec_field_to_extract(s@) is None,
        },
{
    let mut found: bool = false;
    let mut last: usize = 0;
    let mut i: usize = 0;
    while i < s.len()
        invariant
            0 <= i <= s.len(),
            found == (exists|j: int| 0 <= j < i && s@[j] == ' '),
            found ==> 0 <= last < i && s@[last as int] == ' ' && (forall|j: int|
                last < j < i ==> s@[j] != ' '),
        decreases s.len() - i,
    {
        if s[i] == ' ' {
            found = true;
            last = i;
        }
        i += 1;
    }
    if found {
        proof {
            let l2 = choose|l2: int|
                0 <= l2 < s@.len() && s@[l2] == ' ' && (forall|j: int|
                    l2 < j < s@.len() ==> s@[j] != ' ');
            assert(l2 == last as int);
        }
        Some(chars_range(s, last + 1, s.len()))
    } else {
        None
    }
}

} // verus!
