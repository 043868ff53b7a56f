//! Folding the von Neumann patterns `{}`, `{0}`, `{0,1}`, ... of a rendered
//! text back into numerals.
use crate::model::{decimal, digit_char};
use crate::objects::{push_decimal, string_from_chars, MathsObject};
use crate::parser::{chars_of, MathsParser};
use vstd::prelude::*;

verus! {

/// `s` with every occurrence of `p` replaced by `r`, scanning left to
/// right without overlaps.
pub open spec fn replace_all(s: Seq<char>, p: Seq<char>, r: Seq<char>) -> Seq<char>
    decreases s.len(),
{
    if p.len() == 0 || s.len() < p.len() {
        s
    } else if s.subrange(0, p.len() as int) == p {
        r + replace_all(s.subrange(p.len() as int, s.len() as int), p, r)
    } else {
        seq![s[0]] + replace_all(s.subrange(1, s.len() as int), p, r)
    }
}

/// The numerals `0` to `k - 1` joined by commas.
pub open spec fn numbers_joined(k: nat) -> Seq<char>
    decreases k,
{
    if k == 0 {
        Seq::empty()
    } else if k == 1 {
        decimal(0)
    } else {
        numbers_joined((k - 1) as nat) + seq![','] + decimal((k - 1) as nat)
    }
}

/// The rendered form of the von Neumann encoding of `k` with its elements
/// already folded: `{0,...,k-1}`.
pub open spec fn pattern(k: nat) -> Seq<char> {
    seq!['{'] + numbers_joined(k) + seq!['}']
}

pub proof fn lemma_decimal_len(n: nat)
    ensures
        1 <= decimal(n).len(),
        n >= 1 ==> decimal(n).len() <= n,
    decreases n,
{
    if n >= 10 {
        lemma_decimal_len(n / 10);
    }
}

pub proof fn lemma_numbers_joined_len(k: nat)
    ensures
        k >= 1 ==> numbers_joined(k).len() >= 2 * k - 1,
    decreases k,
{
    if k >= 1 {
        lemma_decimal_len((k - 1) as nat);
    }
    if k >= 2 {
        lemma_numbers_joined_len((k - 1) as nat);
    }
}

/// Each numeral is shorter than the pattern it replaces.
pub proof fn lemma_numeral_shorter(k: nat)
    ensures
        decimal(k).len() < pattern(k).len(),
{
    lemma_decimal_len(k);
    lemma_numbers_joined_len(k);
}

/// Replacing by something shorter never lengthens, and shortens whenever it
/// changes anything.
pub proof fn lemma_replace_len(s: Seq<char>, p: Seq<char>, r: Seq<char>)
    requires
        r.len() < p.len(),
    ensures
        replace_all(s, p, r).len() <= s.len(),
        replace_all(s, p, r) != s ==> replace_all(s, p, r).len() < s.len(),
    decreases s.len(),
{
    if p.len() == 0 || s.len() < p.len() {
    } else if s.subrange(0, p.len() as int) == p {
        lemma_replace_len(s.subrange(p.len() as int, s.len() as int), p, r);
    } else {
        let rest = s.subrange(1, s.len() as int);
        lemma_replace_len(rest, p, r);
        if replace_all(rest, p, r) == rest {
            assert(seq![s[0]] + rest =~= s);
        }
    }
}

/// The folding loop from the number `k` on: replace the pattern of `k` by
/// its numeral, and stop at the first pattern that does not occur.
pub open spec fn collapse_from(s: Seq<char>, k: nat) -> Seq<char>
    decreases s.len(),
    via collapse_from_decreases
{
    let t = replace_all(s, pattern(k), decimal(k));
    if t == s {
        s
    } else {
        collapse_from(t, k + 1)
    }
}

#[via_fn]
proof fn collapse_from_decreases(s: Seq<char>, k: nat) {
    lemma_numeral_shorter(k);
    lemma_replace_len(s, pattern(k), decimal(k));
}

/// The text `s` with the von Neumann patterns folded into numerals.
pub open spec fn collapse(s: Seq<char>) -> Seq<char> {
    collapse_from(s, 0)
}

/// No `{` of `s` is directly followed by `}`.
pub open spec fn no_empty_braces(s: Seq<char>) -> bool {
    forall|i: int| 0 <= i < s.len() - 1 ==> !(#[trigger] s[i] == '{' && s[i + 1] == '}')
}

/// No character of `s` is a brace.
pub open spec fn brace_free(s: Seq<char>) -> bool {
    forall|i: int| 0 <= i < s.len() ==> #[trigger] s[i] != '{' && s[i] != '}'
}

pub proof fn lemma_decimal_brace_free(n: nat)
    ensures
        brace_free(decimal(n)),
        decimal(n).len() > 0,
    decreases n,
{
    if n >= 10 {
        lemma_decimal_brace_free(n / 10);
        let a = decimal(n / 10);
        let b = seq![digit_char(n % 10)];
        assert forall|i: int| 0 <= i < (a + b).len() implies #[trigger] (a + b)[i] != '{' && (a + b)[i] != '}' by {
            if i < a.len() {
                assert((a + b)[i] == a[i]);
            }
        }
    }
}

pub proof fn lemma_no_empty_braces_concat(a: Seq<char>, b: Seq<char>)
    requires
        no_empty_braces(a),
        no_empty_braces(b),
        !(a.len() > 0 && b.len() > 0 && a.last() == '{' && b[0] == '}'),
    ensures
        no_empty_braces(a + b),
{
    let c = a + b;
    assert forall|i: int| 0 <= i < c.len() - 1 implies !(#[trigger] c[i] == '{' && c[i + 1] == '}') by {
        if i + 1 < a.len() {
            assert(c[i] == a[i] && c[i + 1] == a[i + 1]);
        } else if i >= a.len() {
            assert(c[i] == b[i - a.len()] && c[i + 1] == b[i - a.len() + 1]);
        } else {
            assert(c[i] == a.last() && c[i + 1] == b[0]);
        }
    }
}

pub proof fn lemma_no_empty_braces_suffix(s: Seq<char>, k: int)
    requires
        no_empty_braces(s),
        0 <= k <= s.len(),
    ensures
        no_empty_braces(s.subrange(k, s.len() as int)),
{
    let t = s.subrange(k, s.len() as int);
    assert forall|i: int| 0 <= i < t.len() - 1 implies !(#[trigger] t[i] == '{' && t[i + 1] == '}') by {
        assert(t[i] == s[i + k] && t[i + 1] == s[i + k + 1]);
    }
}

/// The first character after a replacement.
pub proof fn lemma_replace_first(s: Seq<char>, p: Seq<char>, r: Seq<char>)
    requires
        s.len() > 0,
        r.len() > 0,
        p.len() > 0,
    ensures
        replace_all(s, p, r).len() > 0,
        replace_all(s, p, r)[0] == if s.len() >= p.len() && s.subrange(0, p.len() as int) == p {
            r[0]
        } else {
            s[0]
        },
{
}

pub proof fn lemma_replace_keeps_free(s: Seq<char>, p: Seq<char>, r: Seq<char>)
    requires
        no_empty_braces(s),
        brace_free(r),
        r.len() > 0,
        p.len() > 0,
    ensures
        no_empty_braces(replace_all(s, p, r)),
    decreases s.len(),
{
    if s.len() < p.len() {
    } else if s.subrange(0, p.len() as int) == p {
        let rest = s.subrange(p.len() as int, s.len() as int);
        lemma_no_empty_braces_suffix(s, p.len() as int);
        lemma_replace_keeps_free(rest, p, r);
        assert forall|i: int| 0 <= i < r.len() - 1 implies !(#[trigger] r[i] == '{' && r[i + 1] == '}') by {
            assert(r[i] != '{');
        }
        assert(r.last() != '{');
        lemma_no_empty_braces_concat(r, replace_all(rest, p, r));
    } else {
        let rest = s.subrange(1, s.len() as int);
        lemma_no_empty_braces_suffix(s, 1);
        lemma_replace_keeps_free(rest, p, r);
        if rest.len() > 0 {
            lemma_replace_first(rest, p, r);
            assert(rest[0] == s[1]);
        }
        lemma_no_empty_braces_concat(seq![s[0]], replace_all(rest, p, r));
    }
}

pub proof fn lemma_pattern_zero()
    ensures
        pattern(0) == seq!['{', '}'],
        decimal(0) == seq!['0'],
{
    assert(pattern(0) =~= seq!['{', '}']);
}

/// Replacing `{}` by `0` leaves no `{}`.
pub proof fn lemma_replace_empty_braces(s: Seq<char>)
    ensures
        no_empty_braces(replace_all(s, seq!['{', '}'], seq!['0'])),
    decreases s.len(),
{
    let p = seq!['{', '}'];
    let r = seq!['0'];
    if s.len() < 2 {
    } else if s.subrange(0, 2) == p {
        let rest = s.subrange(2, s.len() as int);
        lemma_replace_empty_braces(rest);
        lemma_no_empty_braces_concat(r, replace_all(rest, p, r));
    } else {
        let rest = s.subrange(1, s.len() as int);
        lemma_replace_empty_braces(rest);
        if rest.len() > 0 {
            lemma_replace_first(rest, p, r);
            assert(rest[0] == s[1]);
            if rest.len() >= 2 && rest.subrange(0, 2) == p {
            } else if s[0] == '{' && s[1] == '}' {
                assert(s.subrange(0, 2) =~= p);
            }
        }
        lemma_no_empty_braces_concat(seq![s[0]], replace_all(rest, p, r));
    }
}

/// Without `{}`, replacing `{}` changes nothing.
pub proof fn lemma_replace_absent(s: Seq<char>)
    requires
        no_empty_braces(s),
    ensures
        replace_all(s, seq!['{', '}'], seq!['0']) == s,
    decreases s.len(),
{
    let p = seq!['{', '}'];
    if s.len() >= 2 {
        assert(s.subrange(0, 2) != p) by {
            if s.subrange(0, 2) == p {
                assert(s[0] == s.subrange(0, 2)[0] && s[1] == s.subrange(0, 2)[1]);
            }
        }
        let rest = s.subrange(1, s.len() as int);
        lemma_no_empty_braces_suffix(s, 1);
        lemma_replace_absent(rest);
        assert(seq![s[0]] + rest =~= s);
    }
}

/// The result of the folding loop holds no `{}`.
pub proof fn lemma_collapse_from_free(s: Seq<char>, k: nat)
    requires
        k == 0 || no_empty_braces(s),
    ensures
        no_empty_braces(collapse_from(s, k)),
    decreases s.len(),
{
    let t = replace_all(s, pattern(k), decimal(k));
    lemma_numeral_shorter(k);
    lemma_replace_len(s, pattern(k), decimal(k));
    if k == 0 {
        lemma_pattern_zero();
        lemma_replace_empty_braces(s);
    } else {
        lemma_decimal_brace_free(k);
        lemma_replace_keeps_free(s, pattern(k), decimal(k));
    }
    if t != s {
        lemma_collapse_from_free(t, k + 1);
    }
}

/// Folding is idempotent: a folded text has nothing left to fold.
pub proof fn lemma_collapse_idempotent(s: Seq<char>)
    ensures
        collapse(collapse(s)) == collapse(s),
{
    let u = collapse(s);
    lemma_collapse_from_free(s, 0);
    lemma_pattern_zero();
    lemma_replace_absent(u);
}

fn replace_chars(s: &Vec<char>, p: &Vec<char>, r: &Vec<char>) -> (out: Vec<char>)
    requires
        p.len() > 0,
    ensures
        out@ == replace_all(s@, p@, r@),
{
    let mut out: Vec<char> = Vec::new();
    let mut i: usize = 0;
    proof {
        assert(s@.subrange(0, s.len() as int) =~= s@);
        assert(out@ + s@ =~= s@);
    }
    while i < s.len()
        invariant
            p.len() > 0,
            i <= s.len(),
            replace_all(s@, p@, r@) == out@ + replace_all(s@.subrange(i as int, s.len() as int), p@, r@),
        decreases s.len() - i,
    {
        let ghost rest = s@.subrange(i as int, s.len() as int);
        if s.len() - i < p.len() {
            while i < s.len()
                invariant
                    i <= s.len(),
                    replace_all(s@, p@, r@) == out@ + s@.subrange(i as int, s.len() as int),
                decreases s.len() - i,
            {
                let ghost before = out@;
                out.push(s[i]);
                proof {
                    assert(before + s@.subrange(i as int, s.len() as int) =~= out@ + s@.subrange(i + 1, s.len() as int));
                }
                i += 1;
            }
            proof {
                assert(out@ + s@.subrange(i as int, s.len() as int) =~= out@);
            }
            return out;
        }
        let mut j: usize = 0;
        while j < p.len() && s[i + j] == p[j]
            invariant
                i + p.len() <= s.len(),
                j <= p.len(),
                forall|m: int| 0 <= m < j ==> s@[i + m] == p@[m],
            decreases p.len() - j,
        {
            j += 1;
        }
        let ghost before = out@;
        if j == p.len() {
            proof {
                assert(rest.subrange(0, p.len() as int) =~= p@);
                assert(rest.subrange(p.len() as int, rest.len() as int) =~= s@.subrange(i + p.len(), s.len() as int));
            }
            let mut m: usize = 0;
            while m < r.len()
                invariant
                    m <= r.len(),
                    out@ == before + r@.subrange(0, m as int),
                decreases r.len() - m,
            {
                out.push(r[m]);
                m += 1;
                proof {
                    assert(out@ =~= before + r@.subrange(0, m as int));
                }
            }
            proof {
                assert(r@.subrange(0, r.len() as int) =~= r@);
                assert(out@ + replace_all(s@.subrange(i + p.len(), s.len() as int), p@, r@) =~= before
                    + replace_all(rest, p@, r@));
            }
            i += p.len();
        } else {
            proof {
                assert(rest.subrange(0, p.len() as int)[j as int] != p@[j as int]);
                assert(rest.subrange(1, rest.len() as int) =~= s@.subrange(i + 1, s.len() as int));
            }
            out.push(s[i]);
            proof {
                assert(out@ + replace_all(s@.subrange(i + 1, s.len() as int), p@, r@) =~= before
                    + replace_all(rest, p@, r@));
            }
            i += 1;
        }
    }
    proof {
        assert(s@.subrange(i as int, s.len() as int) =~= Seq::<char>::empty());
        assert(out@ + Seq::<char>::empty() =~= out@);
    }
    out
}

fn same_chars(a: &Vec<char>, b: &Vec<char>) -> (r: bool)
    ensures
        r == (a@ == b@),
{
    if a.len() != b.len() {
        return false;
    }
    let mut i: usize = 0;
    while i < a.len()
        invariant
            a.len() == b.len(),
            i <= a.len(),
            forall|m: int| 0 <= m < i ==> a@[m] == b@[m],
        decreases a.len() - i,
    {
        if a[i] != b[i] {
            return false;
        }
        i += 1;
    }
    proof {
        assert(a@ =~= b@);
    }
    true
}

/// Folds the von Neumann patterns of `text` into numerals: `{}` becomes `0`,
/// then `{0}` becomes `1`, `{0,1}` becomes `2`, and so on, until a pattern
/// does not occur.
pub fn collapse_natural_numbers(text: &str) -> (r: String)
    ensures
        r@ == collapse(text@),
{
    let mut current = chars_of(text);
    let mut joined: Vec<char> = Vec::new();
    let mut k: u64 = 0;
    loop
        invariant
            collapse(text@) == collapse_from(current@, k as nat),
            joined@ == numbers_joined(k as nat),
            k + current@.len() <= text@.len(),
            text@.len() <= usize::MAX,
        decreases current@.len(),
    {
        let mut pat: Vec<char> = Vec::new();
        pat.push('{');
        let mut m: usize = 0;
        while m < joined.len()
            invariant
                m <= joined.len(),
                pat@ == seq!['{'] + joined@.subrange(0, m as int),
            decreases joined.len() - m,
        {
            pat.push(joined[m]);
            m += 1;
            proof {
                assert(pat@ =~= seq!['{'] + joined@.subrange(0, m as int));
            }
        }
        pat.push('}');
        proof {
            assert(joined@.subrange(0, joined.len() as int) =~= joined@);
            assert(pat@ =~= pattern(k as nat));
        }
        let mut numeral: Vec<char> = Vec::new();
        push_decimal(k, &mut numeral);
        proof {
            assert(numeral@ =~= decimal(k as nat));
            lemma_numeral_shorter(k as nat);
            lemma_replace_len(current@, pattern(k as nat), decimal(k as nat));
        }
        let next = replace_chars(&current, &pat, &numeral);
        if same_chars(&next, &current) {
            return string_from_chars(&current);
        }
        if k > 0 {
            joined.push(',');
        }
        push_decimal(k, &mut joined);
        proof {
            assert(joined@ =~= numbers_joined((k + 1) as nat));
        }
        k += 1;
        current = next;
    }
}

impl MathsParser {
    /// The textual form of the object with its von Neumann patterns folded
    /// into numerals.
    pub fn replace_natural_numbers(maths_object: MathsObject) -> (r: String)
        ensures
            r@ == collapse(crate::model::render(maths_object@)),
    {
        let text = maths_object.to_string();
        collapse_natural_numbers(text.as_str())
    }
}

} // verus!
