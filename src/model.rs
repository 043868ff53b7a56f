//! Mathematical model: the abstract shape of an object, its reduction to a
//! pure set, and extensional equality of pure sets.
use crate::extensional::{
    all_matched, all_matched_by, ext_eq, lemma_all_matched, lemma_all_matched_by, lemma_ext_eq_refl,
    lemma_ext_eq_unfold, lemma_matched_by_elim, lemma_matched_elim, matched, matched_by,
};
use vstd::prelude::*;

verus! {

/// The abstract shape of a `MathsObject`.
pub enum Obj {
    Collection(Seq<Obj>),
    Pair(Box<Obj>, Box<Obj>),
    Num(nat),
}

/// A hereditarily finite set, given by a list of its elements.
pub enum PureSet {
    Node(Seq<PureSet>),
}

pub open spec fn elems(p: PureSet) -> Seq<PureSet> {
    p->Node_0
}

/// von Neumann encoding: `n = {0, ..., n-1}`.
#[verifier::opaque]
pub open spec fn von_neumann(n: nat) -> PureSet
    decreases n,
{
    if n == 0 {
        PureSet::Node(Seq::empty())
    } else {
        let p = von_neumann((n - 1) as nat);
        PureSet::Node(elems(p).push(p))
    }
}

/// Kuratowski encoding: `(a, b) = {{a}, {a, b}}`.
pub open spec fn kuratowski(a: PureSet, b: PureSet) -> PureSet {
    PureSet::Node(seq![PureSet::Node(seq![a]), PureSet::Node(seq![a, b])])
}

/// Reduction of an object to its pure set.
pub open spec fn pure(o: Obj) -> PureSet
    decreases o,
{
    match o {
        Obj::Collection(es) => PureSet::Node(
            Seq::new(
                es.len(),
                |i: int|
                    if 0 <= i < es.len() {
                        pure(es[i])
                    } else {
                        PureSet::Node(Seq::empty())
                    },
            ),
        ),
        Obj::Pair(a, b) => kuratowski(pure(*a), pure(*b)),
        Obj::Num(n) => von_neumann(n),
    }
}

/// Equality of two objects: equality of their reductions.
pub open spec fn obj_eq(a: Obj, b: Obj) -> bool {
    ext_eq(pure(a), pure(b))
}

/// Whether `s` holds an element equal to `o`.
pub open spec fn contains_eq(s: Seq<Obj>, o: Obj) -> bool {
    exists|i: int| 0 <= i < s.len() && #[trigger] obj_eq(s[i], o)
}

/// The elements of the von Neumann encoding of `n`, as objects.
pub open spec fn von_neumann_objs(n: nat) -> Seq<Obj>
    decreases n,
{
    if n == 0 {
        Seq::empty()
    } else {
        let p = von_neumann_objs((n - 1) as nat);
        p.push(Obj::Collection(p))
    }
}

/// No two elements of any set in the object are equal.
pub open spec fn wf_obj(o: Obj) -> bool
    decreases o,
{
    match o {
        Obj::Collection(es) => {
            &&& forall|i: int, j: int|
                #![trigger es[i], es[j]]
                0 <= i < j < es.len() ==> !obj_eq(es[i], es[j])
            &&& forall|i: int| #![trigger es[i]] 0 <= i < es.len() ==> wf_obj(es[i])
        },
        Obj::Pair(a, b) => wf_obj(*a) && wf_obj(*b),
        Obj::Num(n) => true,
    }
}

pub proof fn lemma_pure_set(es: Seq<Obj>)
    ensures
        elems(pure(Obj::Collection(es))).len() == es.len(),
        forall|i: int| 0 <= i < es.len() ==> #[trigger] elems(pure(Obj::Collection(es)))[i] == pure(es[i]),
{
}

pub proof fn lemma_von_neumann_elems(n: nat)
    ensures
        elems(von_neumann(n)).len() == n,
        forall|k: int| 0 <= k < n ==> #[trigger] elems(von_neumann(n))[k] == von_neumann(k as nat),
    decreases n,
{
    reveal_with_fuel(von_neumann, 2);
    if n > 0 {
        lemma_von_neumann_elems((n - 1) as nat);
    }
}

/// The reduction of `n` has `n` elements, the reductions of `0` to `n - 1`.
pub proof fn lemma_von_neumann_objs(n: nat)
    ensures
        von_neumann_objs(n).len() == n,
        pure(Obj::Collection(von_neumann_objs(n))) == von_neumann(n),
        forall|k: int|
            0 <= k < n ==> #[trigger] von_neumann_objs(n)[k] == Obj::Collection(
                von_neumann_objs(k as nat),
            ),
    decreases n,
{
    if n > 0 {
        let m = (n - 1) as nat;
        lemma_von_neumann_objs(m);
        let p = von_neumann_objs(m);
        let q = p.push(Obj::Collection(p));
        lemma_pure_set(p);
        lemma_pure_set(q);
        lemma_von_neumann_elems(m);
        lemma_von_neumann_elems(n);
        assert forall|i: int| 0 <= i < n implies #[trigger] elems(pure(Obj::Collection(q)))[i] == elems(
            von_neumann(n),
        )[i] by {
            assert(elems(pure(Obj::Collection(q)))[i] == pure(q[i]));
            if i < m {
                assert(q[i] == p[i]);
                assert(pure(p[i]) == elems(pure(Obj::Collection(p)))[i]);
                assert(elems(von_neumann(m))[i] == von_neumann(i as nat));
            } else {
                assert(q[i] == Obj::Collection(p));
            }
        }
        assert(elems(pure(Obj::Collection(q))) =~= elems(von_neumann(n)));
        assert(von_neumann(n) == PureSet::Node(elems(von_neumann(n)))) by {
            reveal_with_fuel(von_neumann, 1);
        }
        assert forall|k: int| 0 <= k < n implies #[trigger] q[k] == Obj::Collection(
            von_neumann_objs(k as nat),
        ) by {
            if k < m {
                assert(q[k] == p[k]);
            }
        }
    } else {
        reveal_with_fuel(von_neumann, 1);
        assert(elems(pure(Obj::Collection(von_neumann_objs(n)))) =~= elems(von_neumann(n)));
    }
}

/// Distinct naturals have distinct von Neumann encodings.
pub proof fn lemma_von_neumann_injective(n: nat, m: nat)
    requires
        n < m,
    ensures
        !ext_eq(von_neumann(n), von_neumann(m)),
        !ext_eq(von_neumann(m), von_neumann(n)),
    decreases m, 1nat,
{
    lemma_von_neumann_not_below(n, m);
    lemma_von_neumann_not_above(n, m);
}

proof fn lemma_von_neumann_not_below(n: nat, m: nat)
    requires
        n < m,
    ensures
        !ext_eq(von_neumann(n), von_neumann(m)),
    decreases m, 0nat,
{
    let xs = elems(von_neumann(n));
    let ys = elems(von_neumann(m));
    lemma_von_neumann_elems(n);
    lemma_von_neumann_elems(m);
    if ext_eq(von_neumann(n), von_neumann(m)) {
        lemma_ext_eq_unfold(von_neumann(n), von_neumann(m));
        lemma_all_matched_by(xs, ys);
        assert(matched_by(xs, ys[n as int]));
        let i = lemma_matched_by_elim(xs, ys[n as int]);
        assert(xs[i] == von_neumann(i as nat));
        assert(ys[n as int] == von_neumann(n));
        lemma_von_neumann_injective(i as nat, n);
    }
}

proof fn lemma_von_neumann_not_above(n: nat, m: nat)
    requires
        n < m,
    ensures
        !ext_eq(von_neumann(m), von_neumann(n)),
    decreases m, 0nat,
{
    let xs = elems(von_neumann(n));
    let ys = elems(von_neumann(m));
    lemma_von_neumann_elems(n);
    lemma_von_neumann_elems(m);
    if ext_eq(von_neumann(m), von_neumann(n)) {
        lemma_ext_eq_unfold(von_neumann(m), von_neumann(n));
        lemma_all_matched(ys, xs);
        assert(matched(ys[n as int], xs));
        let j = lemma_matched_elim(ys[n as int], xs);
        assert(xs[j] == von_neumann(j as nat));
        assert(ys[n as int] == von_neumann(n));
        lemma_von_neumann_injective(j as nat, n);
    }
}

pub proof fn lemma_nonempty_not_empty(x: PureSet, e: PureSet)
    requires
        elems(x).len() > 0,
        elems(e).len() == 0,
    ensures
        !ext_eq(x, e),
        !ext_eq(e, x),
{
    if ext_eq(x, e) {
        lemma_ext_eq_unfold(x, e);
        lemma_all_matched(elems(x), elems(e));
        assert(matched(elems(x)[0], elems(e)));
        let j = lemma_matched_elim(elems(x)[0], elems(e));
    }
    if ext_eq(e, x) {
        lemma_ext_eq_unfold(e, x);
        lemma_all_matched_by(elems(e), elems(x));
        assert(matched_by(elems(e), elems(x)[0]));
        let i = lemma_matched_by_elim(elems(e), elems(x)[0]);
    }
}

/// No ordered pair reduces to a natural number: every element of a pair's
/// reduction is non-empty, while a natural is empty or holds the empty set.
pub proof fn lemma_pair_not_natural(a: PureSet, b: PureSet, n: nat)
    ensures
        !ext_eq(kuratowski(a, b), von_neumann(n)),
        !ext_eq(von_neumann(n), kuratowski(a, b)),
{
    let k = kuratowski(a, b);
    let ks = elems(k);
    let vs = elems(von_neumann(n));
    lemma_von_neumann_elems(n);
    lemma_von_neumann_elems(0);
    assert(ks.len() >= 1);
    assert(forall|i: int| 0 <= i < ks.len() ==> elems(#[trigger] ks[i]).len() > 0);
    if ext_eq(k, von_neumann(n)) {
        lemma_ext_eq_unfold(k, von_neumann(n));
        if n == 0 {
            lemma_all_matched(ks, vs);
            assert(matched(ks[0], vs));
            let j = lemma_matched_elim(ks[0], vs);
        } else {
            lemma_all_matched_by(ks, vs);
            assert(matched_by(ks, vs[0]));
            let i = lemma_matched_by_elim(ks, vs[0]);
            lemma_nonempty_not_empty(ks[i], vs[0]);
        }
    }
    if ext_eq(von_neumann(n), k) {
        lemma_ext_eq_unfold(von_neumann(n), k);
        if n == 0 {
            lemma_all_matched_by(vs, ks);
            assert(matched_by(vs, ks[0]));
            let i = lemma_matched_by_elim(vs, ks[0]);
        } else {
            lemma_all_matched(vs, ks);
            assert(matched(vs[0], ks));
            let j = lemma_matched_elim(vs[0], ks);
            lemma_nonempty_not_empty(ks[j], vs[0]);
        }
    }
}

/// Two naturals are equal as sets exactly when they are equal as numbers.
pub proof fn lemma_von_neumann_eq(n: nat, m: nat)
    ensures
        ext_eq(von_neumann(n), von_neumann(m)) <==> n == m,
{
    if n < m {
        lemma_von_neumann_injective(n, m);
    } else if m < n {
        lemma_von_neumann_injective(m, n);
    } else {
        lemma_ext_eq_refl(von_neumann(n));
    }
}

/// The elements of an object's encoding as a set, as objects: a pair is
/// `{{a}, {a, b}}` as written, even when `a` and `b` are equal.
pub open spec fn encoding(o: Obj) -> Seq<Obj> {
    match o {
        Obj::Collection(es) => es,
        Obj::Pair(a, b) => seq![Obj::Collection(seq![*a]), Obj::Collection(seq![*a, *b])],
        Obj::Num(n) => von_neumann_objs(n),
    }
}

/// The elements of the pure set that an object reduces to, as objects,
/// without repetition: a pair `(a, a)` reduces to `{{a}}`.
pub open spec fn reduction(o: Obj) -> Seq<Obj> {
    match o {
        Obj::Pair(a, b) => if obj_eq(*a, *b) {
            seq![Obj::Collection(seq![*a])]
        } else {
            encoding(o)
        },
        _ => encoding(o),
    }
}

/// An object and the set of its encoding are the same pure set.
pub proof fn lemma_encoding(o: Obj)
    ensures
        pure(Obj::Collection(encoding(o))) == pure(o),
{
    match o {
        Obj::Collection(es) => {},
        Obj::Pair(a, b) => {
            let sa = Obj::Collection(seq![*a]);
            let sab = Obj::Collection(seq![*a, *b]);
            lemma_pure_set(seq![*a]);
            lemma_pure_set(seq![*a, *b]);
            lemma_pure_set(seq![sa, sab]);
            assert(elems(pure(sa)) =~= seq![pure(*a)]);
            assert(elems(pure(sab)) =~= seq![pure(*a), pure(*b)]);
            assert(elems(pure(Obj::Collection(seq![sa, sab]))) =~= elems(pure(o)));
        },
        Obj::Num(n) => {
            lemma_von_neumann_objs(n);
        },
    }
}

/// Recognition of the Kuratowski encoding `{{a}, {a, b}}`: the pair
/// `(a, b)`, if the elements `es` have that shape.
pub open spec fn detect_pair(es: Seq<Obj>) -> Option<(Obj, Obj)> {
    if es.len() != 2 {
        None
    } else {
        match (es[0], es[1]) {
            (Obj::Collection(l), Obj::Collection(r)) => {
                if l.len() == 1 && r.len() == 2 {
                    pick_pair(l[0], r)
                } else if l.len() == 2 && r.len() == 1 {
                    pick_pair(r[0], l)
                } else {
                    None
                }
            },
            _ => None,
        }
    }
}

/// The pair `(a, b)` where `d` is `{a, b}` in either order.
pub open spec fn pick_pair(a: Obj, d: Seq<Obj>) -> Option<(Obj, Obj)> {
    if obj_eq(a, d[0]) {
        Some((a, d[1]))
    } else if obj_eq(a, d[1]) {
        Some((a, d[0]))
    } else {
        None
    }
}

/// The character of a decimal digit.
pub open spec fn digit_char(d: nat) -> char {
    if d == 0 {
        '0'
    } else if d == 1 {
        '1'
    } else if d == 2 {
        '2'
    } else if d == 3 {
        '3'
    } else if d == 4 {
        '4'
    } else if d == 5 {
        '5'
    } else if d == 6 {
        '6'
    } else if d == 7 {
        '7'
    } else if d == 8 {
        '8'
    } else {
        '9'
    }
}

/// The decimal numeral of `n`, without leading zeros.
pub open spec fn decimal(n: nat) -> Seq<char>
    decreases n,
{
    if n < 10 {
        seq![digit_char(n)]
    } else {
        decimal(n / 10) + seq![digit_char(n % 10)]
    }
}

/// The textual form of an object: `{e1,...,en}`, `(a,b)` or a numeral.
pub open spec fn render(o: Obj) -> Seq<char>
    decreases o, 0nat,
{
    match o {
        Obj::Collection(es) => seq!['{'] + render_list(es, es.len()) + seq!['}'],
        Obj::Pair(a, b) => seq!['('] + render(*a) + seq![','] + render(*b) + seq![')'],
        Obj::Num(n) => decimal(n),
    }
}

/// The first `n` objects of `es` rendered and joined by commas.
pub open spec fn render_list(es: Seq<Obj>, n: nat) -> Seq<char>
    decreases es, n,
{
    if n == 0 || n > es.len() {
        Seq::empty()
    } else if n == 1 {
        render(es[0])
    } else {
        render_list(es, (n - 1) as nat) + seq![','] + render(es[n - 1])
    }
}

proof fn lemma_wf_one(x: Obj)
    requires
        wf_obj(x),
    ensures
        wf_obj(Obj::Collection(seq![x])),
{
    let es = seq![x];
    assert(es[0] == x);
}

proof fn lemma_wf_two(x: Obj, y: Obj)
    requires
        wf_obj(x),
        wf_obj(y),
        !obj_eq(x, y),
    ensures
        wf_obj(Obj::Collection(seq![x, y])),
{
    let es = seq![x, y];
    assert(es[0] == x && es[1] == y);
}

/// `{a}` and `{a, b}` are equal only when `a` and `b` are.
proof fn lemma_singleton_not_doubleton(a: Obj, b: Obj)
    requires
        !obj_eq(a, b),
    ensures
        !obj_eq(Obj::Collection(seq![a]), Obj::Collection(seq![a, b])),
{
    let pa = pure(a);
    let pb = pure(b);
    lemma_pure_set(seq![a]);
    lemma_pure_set(seq![a, b]);
    let xs = elems(pure(Obj::Collection(seq![a])));
    let ys = elems(pure(Obj::Collection(seq![a, b])));
    assert(xs =~= seq![pa]);
    assert(ys =~= seq![pa, pb]);
    if obj_eq(Obj::Collection(seq![a]), Obj::Collection(seq![a, b])) {
        lemma_ext_eq_unfold(pure(Obj::Collection(seq![a])), pure(Obj::Collection(seq![a, b])));
        lemma_all_matched_by(xs, ys);
        assert(matched_by(xs, ys[1]));
        let i = lemma_matched_by_elim(xs, ys[1]);
        assert(xs[i] == pa && ys[1] == pb);
    }
}

/// The reduction of `n` holds no two equal elements.
pub proof fn lemma_von_neumann_objs_wf(n: nat)
    ensures
        wf_obj(Obj::Collection(von_neumann_objs(n))),
    decreases n,
{
    let es = von_neumann_objs(n);
    lemma_von_neumann_objs(n);
    assert forall|i: int, j: int| #![trigger es[i], es[j]] 0 <= i < j < es.len() implies !obj_eq(
        es[i],
        es[j],
    ) by {
        lemma_von_neumann_objs(i as nat);
        lemma_von_neumann_objs(j as nat);
        lemma_von_neumann_injective(i as nat, j as nat);
    }
    assert forall|i: int| #![trigger es[i]] 0 <= i < es.len() implies wf_obj(es[i]) by {
        lemma_von_neumann_objs_wf(i as nat);
    }
}

/// The reduction of a well-formed object holds no two equal elements.
pub proof fn lemma_reduction_wf(o: Obj)
    ensures
        wf_obj(o) ==> wf_obj(Obj::Collection(reduction(o))),
{
    if wf_obj(o) {
        match o {
            Obj::Collection(es) => {},
            Obj::Pair(a, b) => {
                lemma_wf_one(*a);
                if !obj_eq(*a, *b) {
                    lemma_wf_two(*a, *b);
                    lemma_singleton_not_doubleton(*a, *b);
                    lemma_wf_two(Obj::Collection(seq![*a]), Obj::Collection(seq![*a, *b]));
                } else {
                    lemma_wf_one(Obj::Collection(seq![*a]));
                }
            },
            Obj::Num(n) => {
                lemma_von_neumann_objs_wf(n);
            },
        }
    }
}

} // verus!
