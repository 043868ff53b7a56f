//! The textual notation: bracket matching, recursive descent and trimming.
use crate::model::{
    contains_eq, decimal, detect_pair, digit_char, lemma_von_neumann_objs, reduction, wf_obj, Obj,
};
use crate::model::obj_eq;
use crate::objects::{lemma_set_view, seq_view, view_obj, MathsObject, MathsSet, NaturalNumber};
use vstd::string::StrSliceExecFns;
use vstd::prelude::*;

verus! {

/// Why a text is not an object of the notation.
#[derive(Clone, Copy, Debug, PartialEq, Eq, Structural)]
pub enum ParseError {
    /// The text is empty once surrounding whitespace is removed.
    EmptyInput,
    /// A segment between brackets or commas is empty where an object is required.
    EmptySegment,
    /// An opening bracket has no matching closing bracket.
    UnmatchedBracket,
    /// A leaf is not a decimal literal of a natural number in range, or
    /// characters follow the closing bracket of a set or pair.
    InvalidNumber,
    /// A parenthesised form does not hold exactly one top-level comma.
    MalformedPair,
}

/// Nesting depth after one more character: brackets of either kind open
/// and close a level; a closing bracket at depth zero is ignored.
pub open spec fn depth_step(d: nat, c: char) -> nat {
    if c == '{' || c == '(' {
        d + 1
    } else if c == '}' || c == ')' {
        if d > 0 {
            (d - 1) as nat
        } else {
            0
        }
    } else {
        d
    }
}

/// Nesting depth after the first `k` characters of `s`.
pub open spec fn depth_at(s: Seq<char>, k: int) -> nat
    decreases k,
{
    if k <= 0 || k > s.len() {
        0
    } else {
        depth_step(depth_at(s, k - 1), s[k - 1])
    }
}

/// The character sought for `next`: the matching closer of a bracket, or
/// `next` itself.
pub open spec fn closer_of(next: char) -> char {
    if next == '{' {
        '}'
    } else if next == '(' {
        ')'
    } else {
        next
    }
}

/// The first position at or after `i` where `target` stands at depth zero,
/// or the length of `s`.
pub open spec fn match_from(s: Seq<char>, target: char, i: int) -> int
    decreases s.len() - i,
{
    if i < 0 || i >= s.len() {
        s.len() as int
    } else if s[i] == target && depth_at(s, i + 1) == 0 {
        i
    } else {
        match_from(s, target, i + 1)
    }
}

/// Position of the top-level match of `next` in `s`, or the length of `s`.
pub open spec fn find_closing(s: Seq<char>, next: char) -> int {
    match_from(s, closer_of(next), 0)
}

/// Whether `c` is a decimal digit.
pub open spec fn is_digit(c: char) -> bool {
    '0' <= c <= '9'
}

/// The value of a decimal digit.
pub open spec fn digit_value(c: char) -> nat {
    (c as u32 - '0' as u32) as nat
}

/// The value of a string of decimal digits.
pub open spec fn digits_value(s: Seq<char>) -> nat
    decreases s.len(),
{
    if s.len() == 0 {
        0
    } else {
        digits_value(s.drop_last()) * 10 + digit_value(s.last())
    }
}

/// Whether the literal `s` starts with a minus sign.
pub open spec fn is_negative(s: Seq<char>) -> bool {
    s.len() > 0 && s[0] == '-'
}

/// The digits of the literal `s`, after its sign.
pub open spec fn digits_part(s: Seq<char>) -> Seq<char> {
    if is_negative(s) {
        s.subrange(1, s.len() as int)
    } else {
        s
    }
}

/// Whether every character of `d` is a decimal digit.
pub open spec fn all_digits(d: Seq<char>) -> bool {
    forall|i: int| 0 <= i < d.len() ==> is_digit(#[trigger] d[i])
}

/// The natural number that a literal `['-'] digit+` denotes, if it denotes
/// one in the range of `u32` (`-0` is zero).
pub open spec fn number_value(s: Seq<char>) -> Option<nat> {
    let d = digits_part(s);
    if d.len() == 0 || !all_digits(d) {
        None
    } else if is_negative(s) && digits_value(d) != 0 {
        None
    } else if digits_value(d) > u32::MAX {
        None
    } else {
        Some(digits_value(d))
    }
}

/// A parsed set, promoted to an ordered pair when it is a Kuratowski pair.
pub open spec fn set_or_pair(es: Seq<Obj>) -> Obj {
    match detect_pair(es) {
        Some(p) => Obj::Pair(Box::new(p.0), Box::new(p.1)),
        None => Obj::Collection(es),
    }
}

/// Parse of one object that spans all of `s`.
pub open spec fn parse_object(s: Seq<char>) -> Result<Obj, ParseError>
    decreases s.len(), 0nat,
{
    if s.len() == 0 {
        Err(ParseError::EmptySegment)
    } else if s[0] == '{' {
        let j = find_closing(s, '{');
        if j < 1 || j >= s.len() {
            Err(ParseError::UnmatchedBracket)
        } else if j != s.len() - 1 {
            Err(ParseError::InvalidNumber)
        } else {
            match parse_set_body(s.subrange(1, j), Seq::empty()) {
                Ok(es) => Ok(set_or_pair(es)),
                Err(e) => Err(e),
            }
        }
    } else if s[0] == '(' {
        let j = find_closing(s, '(');
        if j < 1 || j >= s.len() {
            Err(ParseError::UnmatchedBracket)
        } else if j != s.len() - 1 {
            Err(ParseError::InvalidNumber)
        } else {
            parse_pair_body(s.subrange(1, j))
        }
    } else {
        match number_value(s) {
            Some(n) => Ok(Obj::Num(n)),
            None => Err(ParseError::InvalidNumber),
        }
    }
}

/// Parse of the comma-separated body of a set, after the elements `acc`;
/// an element equal to one already held is skipped.
pub open spec fn parse_set_body(body: Seq<char>, acc: Seq<Obj>) -> Result<Seq<Obj>, ParseError>
    decreases body.len(), 1nat,
{
    if body.len() == 0 {
        Ok(acc)
    } else {
        let e = find_closing(body, ',');
        if e <= 0 || e > body.len() {
            Err(ParseError::EmptySegment)
        } else {
            match parse_object(body.subrange(0, e)) {
                Err(x) => Err(x),
                Ok(o) => {
                    let acc2 = if contains_eq(acc, o) {
                        acc
                    } else {
                        acc.push(o)
                    };
                    if e >= body.len() {
                        Ok(acc2)
                    } else {
                        parse_set_body(body.subrange(e + 1, body.len() as int), acc2)
                    }
                },
            }
        }
    }
}

/// Parse of the inside of `( ... )`: two objects around one top-level comma.
pub open spec fn parse_pair_body(b: Seq<char>) -> Result<Obj, ParseError>
    decreases b.len(), 1nat,
{
    if b.len() == 0 {
        Err(ParseError::EmptySegment)
    } else {
        let j = find_closing(b, ',');
        if j < 0 || j >= b.len() {
            Err(ParseError::MalformedPair)
        } else {
            let l = b.subrange(0, j);
            let r = b.subrange(j + 1, b.len() as int);
            if l.len() == 0 || r.len() == 0 {
                Err(ParseError::EmptySegment)
            } else if find_closing(r, ',') < r.len() {
                Err(ParseError::MalformedPair)
            } else {
                match parse_object(l) {
                    Err(x) => Err(x),
                    Ok(a) => match parse_object(r) {
                        Err(x) => Err(x),
                        Ok(c) => Ok(Obj::Pair(Box::new(a), Box::new(c))),
                    },
                }
            }
        }
    }
}

/// Whether `c` is white space (the Unicode `White_Space` property).
pub open spec fn is_white(c: char) -> bool {
    ('\u{9}' <= c <= '\u{d}') || c == ' ' || c == '\u{85}' || c == '\u{a0}' || c == '\u{1680}'
        || ('\u{2000}' <= c <= '\u{200a}') || c == '\u{2028}' || c == '\u{2029}' || c == '\u{202f}'
        || c == '\u{205f}' || c == '\u{3000}'
}

/// The first position at or after `i` that holds no white space, or the
/// length of `s`.
pub open spec fn skip_white(s: Seq<char>, i: int) -> int
    decreases s.len() - i,
{
    if i < 0 || i >= s.len() {
        s.len() as int
    } else if !is_white(s[i]) {
        i
    } else {
        skip_white(s, i + 1)
    }
}

/// The end of `s[..k]` with trailing white space removed.
pub open spec fn trim_end(s: Seq<char>, k: int) -> int
    decreases k,
{
    if k <= 0 || k > s.len() {
        0
    } else if !is_white(s[k - 1]) {
        k
    } else {
        trim_end(s, k - 1)
    }
}

/// `s` without leading and trailing white space.
pub open spec fn trim(s: Seq<char>) -> Seq<char> {
    let a = skip_white(s, 0);
    let b = trim_end(s, s.len() as int);
    if a >= b {
        Seq::empty()
    } else {
        s.subrange(a, b)
    }
}

/// Parse of a whole text: surrounding white space is ignored.
pub open spec fn parse(text: Seq<char>) -> Result<Obj, ParseError> {
    let t = trim(text);
    if t.len() == 0 {
        Err(ParseError::EmptyInput)
    } else {
        parse_object(t)
    }
}

proof fn lemma_wf_element(es: Seq<Obj>, i: int)
    requires
        wf_obj(Obj::Collection(es)),
        0 <= i < es.len(),
    ensures
        wf_obj(es[i]),
{
    assert(Obj::Collection(es)->Collection_0 == es);
}

proof fn lemma_set_or_pair_wf(es: Seq<Obj>)
    requires
        wf_obj(Obj::Collection(es)),
    ensures
        wf_obj(set_or_pair(es)),
{
    if let Some(p) = detect_pair(es) {
        let l = es[0]->Collection_0;
        let r = es[1]->Collection_0;
        lemma_wf_element(es, 0);
        lemma_wf_element(es, 1);
        assert(es[0] == Obj::Collection(l) && es[1] == Obj::Collection(r));
        if l.len() == 1 && r.len() == 2 {
            lemma_wf_element(l, 0);
            lemma_wf_element(r, 0);
            lemma_wf_element(r, 1);
        } else {
            lemma_wf_element(r, 0);
            lemma_wf_element(l, 0);
            lemma_wf_element(l, 1);
        }
    }
}

proof fn lemma_parse_object_wf(s: Seq<char>)
    ensures
        parse_object(s) matches Ok(o) ==> wf_obj(o),
    decreases s.len(), 0nat,
{
    if s.len() == 0 {
    } else if s[0] == '{' {
        let j = find_closing(s, '{');
        if !(j < 1 || j >= s.len()) {
            lemma_set_body_wf(s.subrange(1, j), Seq::empty());
            if let Ok(es) = parse_set_body(s.subrange(1, j), Seq::empty()) {
                lemma_set_or_pair_wf(es);
            }
        }
    } else if s[0] == '(' {
        let j = find_closing(s, '(');
        if !(j < 1 || j >= s.len()) {
            lemma_pair_body_wf(s.subrange(1, j));
        }
    }
}

proof fn lemma_set_body_wf(body: Seq<char>, acc: Seq<Obj>)
    requires
        wf_obj(Obj::Collection(acc)),
    ensures
        parse_set_body(body, acc) matches Ok(es) ==> wf_obj(Obj::Collection(es)),
    decreases body.len(), 1nat,
{
    if body.len() > 0 {
        let e = find_closing(body, ',');
        if !(e <= 0 || e > body.len()) {
            lemma_parse_object_wf(body.subrange(0, e));
            if let Ok(o) = parse_object(body.subrange(0, e)) {
                let acc2 = if contains_eq(acc, o) {
                    acc
                } else {
                    acc.push(o)
                };
                assert(wf_obj(Obj::Collection(acc2))) by {
                    if !contains_eq(acc, o) {
                        assert forall|i: int, k: int|
                            #![trigger acc2[i], acc2[k]]
                            0 <= i < k < acc2.len() implies !crate::model::obj_eq(acc2[i], acc2[k]) by {
                            assert(Obj::Collection(acc)->Collection_0 == acc);
                            if k == acc.len() {
                                assert(acc2[i] == acc[i]);
                                assert(!crate::model::obj_eq(acc[i], o));
                            } else {
                                assert(acc2[i] == acc[i] && acc2[k] == acc[k]);
                            }
                        }
                        assert forall|i: int| #![trigger acc2[i]] 0 <= i < acc2.len() implies wf_obj(acc2[i]) by {
                            if i < acc.len() {
                                assert(acc2[i] == acc[i]);
                                lemma_wf_element(acc, i);
                            }
                        }
                    }
                }
                if e < body.len() {
                    lemma_set_body_wf(body.subrange(e + 1, body.len() as int), acc2);
                }
            }
        }
    }
}

proof fn lemma_pair_body_wf(b: Seq<char>)
    ensures
        parse_pair_body(b) matches Ok(o) ==> wf_obj(o),
    decreases b.len(), 1nat,
{
    if b.len() > 0 {
        let j = find_closing(b, ',');
        if !(j < 0 || j >= b.len()) {
            lemma_parse_object_wf(b.subrange(0, j));
            lemma_parse_object_wf(b.subrange(j + 1, b.len() as int));
        }
    }
}

/// Parsing skips repeated elements, so every set in a parsed object holds
/// no two equal elements.
pub proof fn lemma_parse_well_formed(text: Seq<char>)
    ensures
        parse(text) matches Ok(o) ==> wf_obj(o),
{
    lemma_parse_object_wf(trim(text));
}

pub proof fn lemma_decimal_digits(n: nat)
    ensures
        decimal(n).len() > 0,
        all_digits(decimal(n)),
        digits_value(decimal(n)) == n,
    decreases n,
{
    let d = n % 10;
    assert(digit_value(digit_char(d)) == d && is_digit(digit_char(d)));
    if n < 10 {
        let s = decimal(n);
        assert(s.drop_last() =~= Seq::<char>::empty());
        assert(digits_value(s.drop_last()) == 0);
        assert(s.last() == digit_char(d));
        assert(digits_value(s) == digits_value(s.drop_last()) * 10 + digit_value(s.last()));
    } else {
        lemma_decimal_digits(n / 10);
        let a = decimal(n / 10);
        let s = decimal(n);
        assert(s.drop_last() =~= a);
        assert(s.last() == digit_char(d));
        assert forall|i: int| 0 <= i < s.len() implies is_digit(#[trigger] s[i]) by {
            if i < a.len() {
                assert(s[i] == a[i]);
            }
        }
        assert(digits_value(s) == digits_value(s.drop_last()) * 10 + digit_value(s.last()));
        assert(n == (n / 10) * 10 + n % 10);
    }
}

/// Every natural number in range reads back from its numeral, and reduces
/// to a set with exactly that many elements.
pub proof fn lemma_number_round_trip(n: nat)
    requires
        n <= u32::MAX,
    ensures
        parse(decimal(n)) == Ok::<Obj, ParseError>(Obj::Num(n)),
        reduction(Obj::Num(n)).len() == n,
{
    let t = decimal(n);
    lemma_decimal_digits(n);
    lemma_von_neumann_objs(n);
    assert(is_digit(t[0]));
    assert(is_digit(t[t.len() - 1]));
    assert(skip_white(t, 0) == 0);
    assert(trim_end(t, t.len() as int) == t.len());
    assert(trim(t) =~= t);
    assert(!is_negative(t));
    assert(digits_part(t) == t);
}

/// Position, counted from `lo`, of the top-level match of `next` in
/// `chars[lo..hi]`, or `hi - lo` where there is none.
fn find_closing_in(chars: &Vec<char>, lo: usize, hi: usize, next: char) -> (r: usize)
    requires
        lo <= hi <= chars.len(),
    ensures
        r as int == find_closing(chars@.subrange(lo as int, hi as int), next),
        r <= hi - lo,
{
    let ghost s = chars@.subrange(lo as int, hi as int);
    let target = if next == '{' {
        '}'
    } else if next == '(' {
        ')'
    } else {
        next
    };
    let mut depth: usize = 0;
    let mut i: usize = 0;
    while i < hi - lo
        invariant
            lo <= hi <= chars.len(),
            s == chars@.subrange(lo as int, hi as int),
            i <= hi - lo,
            depth == depth_at(s, i as int),
            depth <= i,
            target == closer_of(next),
            match_from(s, target, 0) == match_from(s, target, i as int),
        decreases hi - lo - i,
    {
        let c = chars[lo + i];
        if c == '{' || c == '(' {
            depth += 1;
        } else if c == '}' || c == ')' {
            if depth > 0 {
                depth -= 1;
            }
        }
        proof {
            assert(s[i as int] == c);
        }
        if c == target && depth == 0 {
            return i;
        }
        i += 1;
    }
    i
}

/// The natural number written in `chars[lo..hi]`.
fn parse_number(chars: &Vec<char>, lo: usize, hi: usize) -> (r: Result<u32, ParseError>)
    requires
        lo < hi <= chars.len(),
    ensures
        match r {
            Ok(n) => number_value(chars@.subrange(lo as int, hi as int)) == Some(n as nat),
            Err(e) => e == ParseError::InvalidNumber && number_value(
                chars@.subrange(lo as int, hi as int),
            ) is None,
        },
{
    let ghost s = chars@.subrange(lo as int, hi as int);
    let neg = chars[lo] == '-';
    let start = if neg {
        lo + 1
    } else {
        lo
    };
    let ghost d = chars@.subrange(start as int, hi as int);
    proof {
        if neg {
            assert(d =~= s.subrange(1, s.len() as int));
        } else {
            assert(d =~= s);
        }
    }
    if start == hi {
        return Err(ParseError::InvalidNumber);
    }
    let mut value: u64 = 0;
    let mut over = false;
    let mut i: usize = start;
    proof {
        assert(d.subrange(0, 0) =~= Seq::<char>::empty());
    }
    while i < hi
        invariant
            lo <= start <= i <= hi <= chars.len(),
            d == chars@.subrange(start as int, hi as int),
            s == chars@.subrange(lo as int, hi as int),
            neg == is_negative(s),
            d == digits_part(s),
            forall|k: int| 0 <= k < i - start ==> is_digit(#[trigger] d[k]),
            0 < d.len(),
            !over ==> value == digits_value(d.subrange(0, i - start)) && value <= u32::MAX,
            over ==> digits_value(d.subrange(0, i - start)) > u32::MAX,
        decreases hi - i,
    {
        let c = chars[i];
        proof {
            assert(d[i - start] == c);
        }
        if !('0' <= c && c <= '9') {
            proof {
                assert(!is_digit(d[i - start]));
                assert(!all_digits(d));
            }
            return Err(ParseError::InvalidNumber);
        }
        proof {
            assert(d.subrange(0, i - start + 1).drop_last() =~= d.subrange(0, i - start));
            assert(d.subrange(0, i - start + 1).last() == c);
        }
        if !over {
            let dv = (c as u32 - '0' as u32) as u64;
            value = value * 10 + dv;
            if value > 4294967295u64 {
                over = true;
            }
        }
        i += 1;
    }
    proof {
        assert(d.subrange(0, hi - start) =~= d);
    }
    if over {
        return Err(ParseError::InvalidNumber);
    }
    if neg && value != 0 {
        return Err(ParseError::InvalidNumber);
    }
    Ok(value as u32)
}

/// Whether `o` equals an element of `acc`.
fn holds_equal(acc: &Vec<MathsObject>, o: &MathsObject) -> (r: bool)
    ensures
        r == contains_eq(seq_view(acc@), o@),
{
    let mut k: usize = 0;
    while k < acc.len()
        invariant
            0 <= k <= acc.len(),
            forall|m: int| 0 <= m < k ==> !obj_eq(#[trigger] seq_view(acc@)[m], o@),
        decreases acc.len() - k,
    {
        if acc[k].equals(o) {
            proof {
                assert(obj_eq(seq_view(acc@)[k as int], o@));
            }
            return true;
        }
        k += 1;
    }
    false
}

fn parse_object_in(chars: &Vec<char>, lo: usize, hi: usize) -> (r: Result<MathsObject, ParseError>)
    requires
        lo <= hi <= chars.len(),
    ensures
        match r {
            Ok(o) => parse_object(chars@.subrange(lo as int, hi as int)) == Ok::<Obj, ParseError>(o@),
            Err(e) => parse_object(chars@.subrange(lo as int, hi as int)) == Err::<Obj, ParseError>(e),
        },
    decreases hi - lo, 0nat,
{
    let ghost s = chars@.subrange(lo as int, hi as int);
    if lo == hi {
        return Err(ParseError::EmptySegment);
    }
    let c = chars[lo];
    if c == '{' {
        let j = find_closing_in(chars, lo, hi, '{');
        if j < 1 || j >= hi - lo {
            return Err(ParseError::UnmatchedBracket);
        }
        if j != hi - lo - 1 {
            return Err(ParseError::InvalidNumber);
        }
        proof {
            assert(s.subrange(1, j as int) =~= chars@.subrange(lo + 1, lo + j));
        }
        match parse_set_body_in(chars, lo + 1, lo + j) {
            Err(e) => Err(e),
            Ok(elements) => {
                let set = MathsSet { elements };
                match set.to_ordered_pair() {
                    Some(p) => Ok(MathsObject::OrderedPair(Box::new(p))),
                    None => {
                        proof {
                            lemma_set_view(set);
                        }
                        Ok(MathsObject::MathsSet(set))
                    },
                }
            },
        }
    } else if c == '(' {
        let j = find_closing_in(chars, lo, hi, '(');
        if j < 1 || j >= hi - lo {
            return Err(ParseError::UnmatchedBracket);
        }
        if j != hi - lo - 1 {
            return Err(ParseError::InvalidNumber);
        }
        proof {
            assert(s.subrange(1, j as int) =~= chars@.subrange(lo + 1, lo + j));
        }
        parse_pair_body_in(chars, lo + 1, lo + j)
    } else {
        match parse_number(chars, lo, hi) {
            Ok(n) => Ok(MathsObject::NaturalNumber(NaturalNumber { natural_number: n })),
            Err(e) => Err(e),
        }
    }
}

fn parse_set_body_in(chars: &Vec<char>, lo: usize, hi: usize) -> (r: Result<Vec<MathsObject>, ParseError>)
    requires
        lo <= hi <= chars.len(),
    ensures
        match r {
            Ok(v) => parse_set_body(chars@.subrange(lo as int, hi as int), Seq::empty()) == Ok::<
                Seq<Obj>,
                ParseError,
            >(seq_view(v@)),
            Err(e) => parse_set_body(chars@.subrange(lo as int, hi as int), Seq::empty()) == Err::<
                Seq<Obj>,
                ParseError,
            >(e),
        },
    decreases hi - lo, 1nat,
{
    let mut acc: Vec<MathsObject> = Vec::new();
    let mut start: usize = lo;
    proof {
        assert(seq_view(acc@) =~= Seq::<Obj>::empty());
    }
    while start < hi
        invariant
            lo <= start <= hi <= chars.len(),
            parse_set_body(chars@.subrange(lo as int, hi as int), Seq::empty()) == parse_set_body(
                chars@.subrange(start as int, hi as int),
                seq_view(acc@),
            ),
        decreases hi - start,
    {
        let ghost body = chars@.subrange(start as int, hi as int);
        let e = find_closing_in(chars, start, hi, ',');
        if e == 0 {
            return Err(ParseError::EmptySegment);
        }
        proof {
            assert(body.subrange(0, e as int) =~= chars@.subrange(start as int, start + e));
        }
        let o = match parse_object_in(chars, start, start + e) {
            Err(x) => {
                return Err(x);
            },
            Ok(o) => o,
        };
        let present = holds_equal(&acc, &o);
        let ghost old_acc = seq_view(acc@);
        if !present {
            acc.push(o);
            proof {
                assert(seq_view(acc@) =~= old_acc.push(o@));
            }
        }
        if start + e >= hi {
            return Ok(acc);
        }
        proof {
            assert(body.subrange(e + 1, body.len() as int) =~= chars@.subrange(start + e + 1, hi as int));
        }
        start = start + e + 1;
    }
    Ok(acc)
}

fn parse_pair_body_in(chars: &Vec<char>, lo: usize, hi: usize) -> (r: Result<MathsObject, ParseError>)
    requires
        lo <= hi <= chars.len(),
    ensures
        match r {
            Ok(o) => parse_pair_body(chars@.subrange(lo as int, hi as int)) == Ok::<Obj, ParseError>(o@),
            Err(e) => parse_pair_body(chars@.subrange(lo as int, hi as int)) == Err::<Obj, ParseError>(e),
        },
    decreases hi - lo, 1nat,
{
    let ghost b = chars@.subrange(lo as int, hi as int);
    if lo == hi {
        return Err(ParseError::EmptySegment);
    }
    let j = find_closing_in(chars, lo, hi, ',');
    if j >= hi - lo {
        return Err(ParseError::MalformedPair);
    }
    proof {
        assert(b.subrange(0, j as int) =~= chars@.subrange(lo as int, lo + j));
        assert(b.subrange(j + 1, b.len() as int) =~= chars@.subrange(lo + j + 1, hi as int));
    }
    if j == 0 || lo + j + 1 == hi {
        return Err(ParseError::EmptySegment);
    }
    let k = find_closing_in(chars, lo + j + 1, hi, ',');
    if k < hi - (lo + j + 1) {
        return Err(ParseError::MalformedPair);
    }
    let left = match parse_object_in(chars, lo, lo + j) {
        Err(x) => {
            return Err(x);
        },
        Ok(o) => o,
    };
    let right = match parse_object_in(chars, lo + j + 1, hi) {
        Err(x) => {
            return Err(x);
        },
        Ok(o) => o,
    };
    Ok(MathsObject::OrderedPair(Box::new(crate::objects::OrderedPair { pair: (left, right) })))
}

fn white(c: char) -> (r: bool)
    ensures
        r == is_white(c),
{
    ('\u{9}' <= c && c <= '\u{d}') || c == ' ' || c == '\u{85}' || c == '\u{a0}' || c == '\u{1680}'
        || ('\u{2000}' <= c && c <= '\u{200a}') || c == '\u{2028}' || c == '\u{2029}' || c
        == '\u{202f}' || c == '\u{205f}' || c == '\u{3000}'
}

/// The characters of a string.
pub(crate) fn chars_of(text: &str) -> (r: Vec<char>)
    ensures
        r@ == text@,
        text@.len() <= usize::MAX,
{
    let n = text.unicode_len();
    let mut v: Vec<char> = Vec::new();
    let mut i: usize = 0;
    while i < n
        invariant
            n == text@.len(),
            i <= n,
            v@ == text@.subrange(0, i as int),
        decreases n - i,
    {
        v.push(text.get_char(i));
        i += 1;
        proof {
            assert(v@ =~= text@.subrange(0, i as int));
        }
    }
    proof {
        assert(v@ =~= text@);
    }
    v
}

/// Parse of a whole text, as a list of characters.
pub fn parse_chars(chars: &Vec<char>) -> (r: Result<MathsObject, ParseError>)
    ensures
        match r {
            Ok(o) => parse(chars@) == Ok::<Obj, ParseError>(o@),
            Err(e) => parse(chars@) == Err::<Obj, ParseError>(e),
        },
{
    let ghost s = chars@;
    let mut a: usize = 0;
    while a < chars.len() && white(chars[a])
        invariant
            a <= chars.len(),
            s == chars@,
            skip_white(s, 0) == skip_white(s, a as int),
        decreases chars.len() - a,
    {
        a += 1;
    }
    let mut b: usize = chars.len();
    while b > 0 && white(chars[b - 1])
        invariant
            b <= chars.len(),
            s == chars@,
            trim_end(s, s.len() as int) == trim_end(s, b as int),
        decreases b,
    {
        b -= 1;
    }
    if a >= b {
        return Err(ParseError::EmptyInput);
    }
    parse_object_in(chars, a, b)
}

/// Entry points of the notation.
pub struct MathsParser {}

impl MathsParser {
    /// Parses a text into an object; surrounding white space is ignored.
    pub fn from_string(maths_string: &str) -> (r: Result<MathsObject, ParseError>)
        ensures
            match r {
                Ok(o) => parse(maths_string@) == Ok::<Obj, ParseError>(o@),
                Err(e) => parse(maths_string@) == Err::<Obj, ParseError>(e),
            },
    {
        let chars = chars_of(maths_string);
        parse_chars(&chars)
    }
}

} // verus!
