//! The objects of the notation: sets, ordered pairs and natural numbers.
use crate::extensional::{
    all_matched, all_matched_by, ext_eq, lemma_all_matched, lemma_all_matched_by, lemma_ext_eq_nodes,
    lemma_matched_by_elim, lemma_matched_by_intro, lemma_matched_elim,
    lemma_matched_intro, matched, matched_by,
};
use crate::model::{
    decimal, detect_pair, digit_char, elems, encoding, lemma_encoding, lemma_pair_not_natural,
    lemma_pure_set, lemma_reduction_wf, lemma_von_neumann_eq, lemma_von_neumann_objs, obj_eq,
    pick_pair, pure, reduction, render, render_list, von_neumann_objs, wf_obj, Obj, PureSet,
};
use vstd::prelude::*;

verus! {

/// An object of the notation.
pub enum MathsObject {
    MathsSet(MathsSet),
    OrderedPair(Box<OrderedPair>),
    NaturalNumber(NaturalNumber),
}

/// A set, as the list of its elements in insertion order.
pub struct MathsSet {
    pub elements: Vec<MathsObject>,
}

/// An ordered pair of objects.
pub struct OrderedPair {
    pub pair: (MathsObject, MathsObject),
}

/// A natural number, written in decimal.
pub struct NaturalNumber {
    pub natural_number: u32,
}

/// The abstract shape of an object.
pub open spec fn view_obj(o: MathsObject) -> Obj
    decreases o,
{
    match o {
        MathsObject::MathsSet(s) => Obj::Collection(
            Seq::new(
                s.elements.len() as nat,
                |i: int|
                    if 0 <= i < s.elements.len() {
                        view_obj(s.elements[i])
                    } else {
                        Obj::Num(0)
                    },
            ),
        ),
        MathsObject::OrderedPair(p) => Obj::Pair(
            Box::new(view_obj(p.pair.0)),
            Box::new(view_obj(p.pair.1)),
        ),
        MathsObject::NaturalNumber(n) => Obj::Num(n.natural_number as nat),
    }
}

/// The shapes of a list of objects.
pub open spec fn seq_view(v: Seq<MathsObject>) -> Seq<Obj> {
    Seq::new(v.len(), |i: int| view_obj(v[i]))
}

impl View for MathsObject {
    type V = Obj;

    open spec fn view(&self) -> Obj {
        view_obj(*self)
    }
}

impl View for MathsSet {
    type V = Seq<Obj>;

    open spec fn view(&self) -> Seq<Obj> {
        seq_view(self.elements@)
    }
}

impl View for OrderedPair {
    type V = (Obj, Obj);

    open spec fn view(&self) -> (Obj, Obj) {
        (self.pair.0@, self.pair.1@)
    }
}

impl View for NaturalNumber {
    type V = nat;

    open spec fn view(&self) -> nat {
        self.natural_number as nat
    }
}

pub proof fn lemma_set_view(s: MathsSet)
    ensures
        view_obj(MathsObject::MathsSet(s)) == Obj::Collection(s@),
{
    assert(view_obj(MathsObject::MathsSet(s))->Collection_0 =~= s@);
}

/// The pure sets of a list of objects.
pub open spec fn pure_elems(v: Seq<MathsObject>) -> Seq<PureSet> {
    elems(pure(Obj::Collection(seq_view(v))))
}

pub proof fn lemma_pure_elems(v: Seq<MathsObject>)
    ensures
        pure_elems(v).len() == v.len(),
        forall|i: int| 0 <= i < v.len() ==> #[trigger] pure_elems(v)[i] == pure(v[i]@),
{
    lemma_pure_set(seq_view(v));
}

fn clone_object(o: &MathsObject) -> (r: MathsObject)
    ensures
        r@ == o@,
    decreases o,
{
    match o {
        MathsObject::MathsSet(s) => {
            let mut v: Vec<MathsObject> = Vec::new();
            let mut i: usize = 0;
            while i < s.elements.len()
                invariant
                    *o == MathsObject::MathsSet(*s),
                    0 <= i <= s.elements.len(),
                    v@.len() == i,
                    forall|k: int| 0 <= k < i ==> (#[trigger] v@[k])@ == s.elements@[k]@,
                decreases s.elements.len() - i,
            {
                proof {
                    assert(decreases_to!(*o => (*o)->MathsSet_0));
                    assert(decreases_to!(*s => s.elements));
                    assert(decreases_to!(s.elements => s.elements[i as int]));
                }
                let c = clone_object(&s.elements[i]);
                v.push(c);
                i += 1;
            }
            let r = MathsObject::MathsSet(MathsSet { elements: v });
            proof {
                assert(view_obj(r)->Collection_0 =~= view_obj(*o)->Collection_0);
            }
            r
        },
        MathsObject::OrderedPair(p) => {
            let a = clone_object(&p.pair.0);
            let b = clone_object(&p.pair.1);
            MathsObject::OrderedPair(Box::new(OrderedPair { pair: (a, b) }))
        },
        MathsObject::NaturalNumber(n) => MathsObject::NaturalNumber(
            NaturalNumber { natural_number: n.natural_number },
        ),
    }
}

fn clone_elements(v: &Vec<MathsObject>) -> (r: Vec<MathsObject>)
    ensures
        seq_view(r@) == seq_view(v@),
{
    let mut out: Vec<MathsObject> = Vec::new();
    let mut i: usize = 0;
    while i < v.len()
        invariant
            0 <= i <= v.len(),
            out@.len() == i,
            forall|k: int| 0 <= k < i ==> (#[trigger] out@[k])@ == v@[k]@,
        decreases v.len() - i,
    {
        let c = clone_object(&v[i]);
        out.push(c);
        i += 1;
    }
    assert(seq_view(out@) =~= seq_view(v@));
    out
}

impl Clone for MathsObject {
    fn clone(&self) -> (r: Self)
        ensures
            r@ == self@,
    {
        clone_object(self)
    }
}

impl Clone for MathsSet {
    fn clone(&self) -> (r: Self)
        ensures
            r@ == self@,
    {
        MathsSet { elements: clone_elements(&self.elements) }
    }
}

impl Clone for OrderedPair {
    fn clone(&self) -> (r: Self)
        ensures
            r@ == self@,
    {
        OrderedPair { pair: (clone_object(&self.pair.0), clone_object(&self.pair.1)) }
    }
}

impl Clone for NaturalNumber {
    fn clone(&self) -> (r: Self)
        ensures
            r@ == self@,
    {
        NaturalNumber { natural_number: self.natural_number }
    }
}

/// Conversion of an object to the set that it reduces to.
pub trait ToMathsSet {
    /// The abstract shape of the value.
    spec fn shape(&self) -> Obj;

    /// The elements of the pure set that the value reduces to: a set is
    /// itself, `(a, b)` is `{{a}, {a, b}}` (`{{a}}` when `a` equals `b`),
    /// `n` is `{0, ..., n-1}`. A well-formed value gives a set without
    /// repeated elements.
    fn to_maths_set(&self) -> (r: MathsSet)
        ensures
            r@ == reduction(self.shape()),
            wf_obj(self.shape()) ==> wf_obj(Obj::Collection(r@)),
    ;
}

impl ToMathsSet for MathsSet {
    open spec fn shape(&self) -> Obj {
        Obj::Collection(self@)
    }

    fn to_maths_set(&self) -> (r: MathsSet) {
        proof {
            lemma_reduction_wf(self.shape());
        }
        self.clone()
    }
}

impl ToMathsSet for OrderedPair {
    open spec fn shape(&self) -> Obj {
        Obj::Pair(Box::new(self.pair.0@), Box::new(self.pair.1@))
    }

    fn to_maths_set(&self) -> (r: MathsSet) {
        let same = self.pair.0.equals(&self.pair.1);
        proof {
            lemma_reduction_wf(self.shape());
        }
        if same {
            let mut single: Vec<MathsObject> = Vec::new();
            single.push(clone_object(&self.pair.0));
            let left = MathsSet { elements: single };
            proof {
                lemma_set_view(left);
                assert(left@ =~= seq![self.pair.0@]);
            }
            let mut elements: Vec<MathsObject> = Vec::new();
            elements.push(MathsObject::MathsSet(left));
            let r = MathsSet { elements };
            proof {
                assert(r@ =~= reduction(self.shape()));
            }
            r
        } else {
            encode_pair(self)
        }
    }
}

/// The set `{{a}, {a, b}}` of the pair `(a, b)`, as written.
fn encode_pair(p: &OrderedPair) -> (r: MathsSet)
    ensures
        r@ == encoding(p.shape()),
{
    let mut left_elements: Vec<MathsObject> = Vec::new();
    left_elements.push(clone_object(&p.pair.0));
    let mut right_elements: Vec<MathsObject> = Vec::new();
    right_elements.push(clone_object(&p.pair.0));
    right_elements.push(clone_object(&p.pair.1));
    let left = MathsSet { elements: left_elements };
    let right = MathsSet { elements: right_elements };
    proof {
        lemma_set_view(left);
        lemma_set_view(right);
        assert(left@ =~= seq![p.pair.0@]);
        assert(right@ =~= seq![p.pair.0@, p.pair.1@]);
    }
    let mut elements: Vec<MathsObject> = Vec::new();
    elements.push(MathsObject::MathsSet(left));
    elements.push(MathsObject::MathsSet(right));
    let r = MathsSet { elements };
    proof {
        assert(r@ =~= encoding(p.shape()));
    }
    r
}

/// The set encoding of an object, with pairs as written.
fn encode(o: &MathsObject) -> (r: MathsSet)
    ensures
        r@ == encoding(o@),
{
    match o {
        MathsObject::MathsSet(s) => {
            proof {
                lemma_set_view(*s);
            }
            s.clone()
        },
        MathsObject::OrderedPair(p) => encode_pair(p),
        MathsObject::NaturalNumber(n) => n.to_maths_set(),
    }
}

impl ToMathsSet for NaturalNumber {
    open spec fn shape(&self) -> Obj {
        Obj::Num(self.natural_number as nat)
    }

    fn to_maths_set(&self) -> (r: MathsSet) {
        proof {
            lemma_reduction_wf(self.shape());
        }
        let mut current = MathsSet { elements: Vec::new() };
        let mut k: u32 = 0;
        proof {
            assert(current@ =~= von_neumann_objs(0));
        }
        while k < self.natural_number
            invariant
                k <= self.natural_number,
                current@ == von_neumann_objs(k as nat),
            decreases self.natural_number - k,
        {
            let copy = current.clone();
            proof {
                lemma_set_view(copy);
            }
            let ghost before = current.elements@;
            current.elements.push(MathsObject::MathsSet(copy));
            proof {
                assert(current.elements@ == before.push(MathsObject::MathsSet(copy)));
                assert(current@ =~= von_neumann_objs((k + 1) as nat));
            }
            k += 1;
        }
        current
    }
}

impl ToMathsSet for MathsObject {
    open spec fn shape(&self) -> Obj {
        self@
    }

    fn to_maths_set(&self) -> (r: MathsSet) {
        match self {
            MathsObject::MathsSet(s) => {
                proof {
                    lemma_set_view(*s);
                }
                s.to_maths_set()
            },
            MathsObject::OrderedPair(p) => p.to_maths_set(),
            MathsObject::NaturalNumber(n) => n.to_maths_set(),
        }
    }
}

/// Whether two lists of objects hold the same elements, up to equality of
/// elements, order and repetition aside.
fn elements_equal(xs: &Vec<MathsObject>, ys: &Vec<MathsObject>) -> (r: bool)
    ensures
        r == ext_eq(pure(Obj::Collection(seq_view(xs@))), pure(Obj::Collection(seq_view(ys@)))),
    decreases pure(Obj::Collection(seq_view(xs@))), 0nat,
{
    let ghost px = pure_elems(xs@);
    let ghost py = pure_elems(ys@);
    let ghost top = pure(Obj::Collection(seq_view(xs@)));
    proof {
        lemma_pure_elems(xs@);
        lemma_pure_elems(ys@);
        lemma_ext_eq_nodes(px, py);
        assert(top == PureSet::Node(px));
        assert(pure(Obj::Collection(seq_view(ys@))) == PureSet::Node(py));
    }
    let mut i: usize = 0;
    while i < xs.len()
        invariant
            0 <= i <= xs.len(),
            px == pure_elems(xs@),
            py == pure_elems(ys@),
            top == pure(Obj::Collection(seq_view(xs@))),
            top->Node_0 == px,
            px.len() == xs.len(),
            py.len() == ys.len(),
            forall|k: int| 0 <= k < xs.len() ==> #[trigger] px[k] == pure(xs@[k]@),
            forall|k: int| 0 <= k < ys.len() ==> #[trigger] py[k] == pure(ys@[k]@),
            forall|k: int| #![trigger px[k]] 0 <= k < i ==> matched(px[k], py),
        decreases xs.len() - i,
    {
        let mut found = false;
        let mut j: usize = 0;
        while j < ys.len() && !found
            invariant
                0 <= i < xs.len(),
                0 <= j <= ys.len(),
                top == pure(Obj::Collection(seq_view(xs@))),
                top->Node_0 == px,
                px.len() == xs.len(),
                py.len() == ys.len(),
                forall|k: int| 0 <= k < xs.len() ==> #[trigger] px[k] == pure(xs@[k]@),
                forall|k: int| 0 <= k < ys.len() ==> #[trigger] py[k] == pure(ys@[k]@),
                found ==> matched(px[i as int], py),
                !found ==> forall|l: int| 0 <= l < j ==> !ext_eq(px[i as int], #[trigger] py[l]),
            decreases ys.len() - j,
        {
            proof {
                assert(decreases_to!(top => top->Node_0));
                assert(decreases_to!(px => px[i as int]));
            }
            if xs[i].equals(&ys[j]) {
                proof {
                    lemma_matched_intro(px[i as int], py, j as int);
                }
                found = true;
            }
            j += 1;
        }
        if !found {
            proof {
                if matched(px[i as int], py) {
                    let l = lemma_matched_elim(px[i as int], py);
                }
                lemma_all_matched(px, py);
                assert(!all_matched(px, py));
                lemma_ext_eq_nodes(px, py);
                assert(pure(Obj::Collection(seq_view(ys@))) == PureSet::Node(py));
            }
            return false;
        }
        i += 1;
    }
    let mut j: usize = 0;
    while j < ys.len()
        invariant
            0 <= j <= ys.len(),
            px == pure_elems(xs@),
            py == pure_elems(ys@),
            top == pure(Obj::Collection(seq_view(xs@))),
            top->Node_0 == px,
            px.len() == xs.len(),
            py.len() == ys.len(),
            forall|k: int| 0 <= k < xs.len() ==> #[trigger] px[k] == pure(xs@[k]@),
            forall|k: int| 0 <= k < ys.len() ==> #[trigger] py[k] == pure(ys@[k]@),
            forall|k: int| #![trigger px[k]] 0 <= k < xs.len() ==> matched(px[k], py),
            forall|k: int| #![trigger py[k]] 0 <= k < j ==> matched_by(px, py[k]),
        decreases ys.len() - j,
    {
        let mut found = false;
        let mut i: usize = 0;
        while i < xs.len() && !found
            invariant
                0 <= j < ys.len(),
                0 <= i <= xs.len(),
                top == pure(Obj::Collection(seq_view(xs@))),
                top->Node_0 == px,
                px.len() == xs.len(),
                py.len() == ys.len(),
                forall|k: int| 0 <= k < xs.len() ==> #[trigger] px[k] == pure(xs@[k]@),
                forall|k: int| 0 <= k < ys.len() ==> #[trigger] py[k] == pure(ys@[k]@),
                found ==> matched_by(px, py[j as int]),
                !found ==> forall|l: int| 0 <= l < i ==> !ext_eq(#[trigger] px[l], py[j as int]),
            decreases xs.len() - i,
        {
            proof {
                assert(decreases_to!(top => top->Node_0));
                assert(decreases_to!(px => px[i as int]));
            }
            if xs[i].equals(&ys[j]) {
                proof {
                    lemma_matched_by_intro(px, py[j as int], i as int);
                }
                found = true;
            }
            i += 1;
        }
        if !found {
            proof {
                if matched_by(px, py[j as int]) {
                    let l = lemma_matched_by_elim(px, py[j as int]);
                }
                lemma_all_matched_by(px, py);
                assert(!all_matched_by(px, py));
                lemma_ext_eq_nodes(px, py);
                assert(pure(Obj::Collection(seq_view(ys@))) == PureSet::Node(py));
            }
            return false;
        }
        j += 1;
    }
    proof {
        lemma_all_matched(px, py);
        lemma_all_matched_by(px, py);
        assert(all_matched(px, py));
        assert(all_matched_by(px, py));
        lemma_ext_eq_nodes(px, py);
        assert(pure(Obj::Collection(seq_view(ys@))) == PureSet::Node(py));
    }
    true
}

impl MathsObject {
    /// Extensional equality: whether the two objects reduce to the same pure
    /// set. Two numbers are compared by value, and a pair never equals a
    /// number.
    pub fn equals(&self, other: &MathsObject) -> (r: bool)
        ensures
            r == obj_eq(self@, other@),
        decreases pure(self@), 1nat,
    {
        if let MathsObject::MathsSet(a) = self {
            if let MathsObject::MathsSet(b) = other {
                proof {
                    lemma_set_view(*a);
                    lemma_set_view(*b);
                }
                return elements_equal(&a.elements, &b.elements);
            }
        }
        if let MathsObject::NaturalNumber(a) = self {
            if let MathsObject::NaturalNumber(b) = other {
                proof {
                    lemma_von_neumann_eq(a.natural_number as nat, b.natural_number as nat);
                }
                return a.natural_number == b.natural_number;
            }
            if let MathsObject::OrderedPair(p) = other {
                proof {
                    lemma_pair_not_natural(pure(p.pair.0@), pure(p.pair.1@), a.natural_number as nat);
                }
                return false;
            }
        }
        if let MathsObject::OrderedPair(p) = self {
            if let MathsObject::NaturalNumber(b) = other {
                proof {
                    lemma_pair_not_natural(pure(p.pair.0@), pure(p.pair.1@), b.natural_number as nat);
                }
                return false;
            }
        }
        let encoded_self = encode(self);
        let encoded_other = encode(other);
        proof {
            lemma_encoding(self@);
            lemma_encoding(other@);
        }
        elements_equal(&encoded_self.elements, &encoded_other.elements)
    }
}

impl MathsSet {
    /// Extensional equality of sets: each element of one set equals some
    /// element of the other.
    pub fn equals(&self, other: &MathsSet) -> (r: bool)
        ensures
            r == obj_eq(Obj::Collection(self@), Obj::Collection(other@)),
    {
        elements_equal(&self.elements, &other.elements)
    }
}

impl PartialEq for MathsObject {
    fn eq(&self, other: &MathsObject) -> (r: bool) {
        self.equals(other)
    }
}

impl vstd::std_specs::cmp::PartialEqSpecImpl for MathsObject {
    open spec fn obeys_eq_spec() -> bool {
        true
    }

    open spec fn eq_spec(&self, other: &MathsObject) -> bool {
        obj_eq(self@, other@)
    }
}

impl PartialEq for MathsSet {
    fn eq(&self, other: &MathsSet) -> (r: bool) {
        self.equals(other)
    }
}

impl vstd::std_specs::cmp::PartialEqSpecImpl for MathsSet {
    open spec fn obeys_eq_spec() -> bool {
        true
    }

    open spec fn eq_spec(&self, other: &MathsSet) -> bool {
        obj_eq(Obj::Collection(self@), Obj::Collection(other@))
    }
}

impl MathsSet {
    /// The ordered pair that this set encodes as `{{a}, {a, b}}`, if any.
    pub fn to_ordered_pair(&self) -> (r: Option<OrderedPair>)
        ensures
            match r {
                Some(p) => detect_pair(self@) == Some(p@),
                None => detect_pair(self@) is None,
            },
    {
        if self.elements.len() != 2 {
            return None;
        }
        let first = &self.elements[0];
        let second = &self.elements[1];
        if let MathsObject::MathsSet(left) = first {
            if let MathsObject::MathsSet(right) = second {
                proof {
                    lemma_set_view(*left);
                    lemma_set_view(*right);
                }
                if left.elements.len() == 1 && right.elements.len() == 2 {
                    return pick_ordered_pair(&left.elements[0], &right.elements);
                } else if left.elements.len() == 2 && right.elements.len() == 1 {
                    return pick_ordered_pair(&right.elements[0], &left.elements);
                }
            }
        }
        None
    }
}

/// The pair `(a, b)` where `doubleton` holds `a` and `b` in either order.
fn pick_ordered_pair(a: &MathsObject, doubleton: &Vec<MathsObject>) -> (r: Option<OrderedPair>)
    requires
        doubleton.len() == 2,
    ensures
        match r {
            Some(p) => pick_pair(a@, seq_view(doubleton@)) == Some(p@),
            None => pick_pair(a@, seq_view(doubleton@)) is None,
        },
{
    if a.equals(&doubleton[0]) {
        return Some(OrderedPair { pair: (clone_object(a), clone_object(&doubleton[1])) });
    }
    if a.equals(&doubleton[1]) {
        return Some(OrderedPair { pair: (clone_object(a), clone_object(&doubleton[0])) });
    }
    None
}

fn digit(d: u64) -> (c: char)
    requires
        d < 10,
    ensures
        c == digit_char(d as nat),
{
    if d == 0 {
        '0'
    } else if d == 1 {
        '1'
    } else if d == 2 {
        '2'
    } else if d == 3 {
        '3'
    } else if d == 4 {
        '4'
    } else if d == 5 {
        '5'
    } else if d == 6 {
        '6'
    } else if d == 7 {
        '7'
    } else if d == 8 {
        '8'
    } else {
        '9'
    }
}

/// Appends the decimal numeral of `n`.
pub fn push_decimal(n: u64, out: &mut Vec<char>)
    ensures
        final(out)@ == old(out)@ + decimal(n as nat),
    decreases n,
{
    if n >= 10 {
        push_decimal(n / 10, out);
    }
    out.push(digit(n % 10));
    proof {
        assert(out@ =~= old(out)@ + decimal(n as nat));
    }
}

fn render_into(o: &MathsObject, out: &mut Vec<char>)
    ensures
        final(out)@ == old(out)@ + render(o@),
    decreases o,
{
    match o {
        MathsObject::MathsSet(s) => {
            proof {
                lemma_set_view(*s);
            }
            let ghost start = out@;
            let ghost es = s@;
            out.push('{');
            let mut i: usize = 0;
            while i < s.elements.len()
                invariant
                    *o == MathsObject::MathsSet(*s),
                    es == s@,
                    0 <= i <= s.elements.len(),
                    out@ == start + seq!['{'] + render_list(es, i as nat),
                decreases s.elements.len() - i,
            {
                if i > 0 {
                    out.push(',');
                }
                proof {
                    assert(decreases_to!(*o => (*o)->MathsSet_0));
                    assert(decreases_to!(*s => s.elements));
                    assert(decreases_to!(s.elements => s.elements[i as int]));
                }
                render_into(&s.elements[i], out);
                proof {
                    assert(es[i as int] == s.elements@[i as int]@);
                    assert(out@ =~= start + seq!['{'] + render_list(es, (i + 1) as nat));
                }
                i += 1;
            }
            out.push('}');
            proof {
                assert(out@ =~= start + render(o@));
            }
        },
        MathsObject::OrderedPair(p) => {
            let ghost start = out@;
            out.push('(');
            render_into(&p.pair.0, out);
            out.push(',');
            render_into(&p.pair.1, out);
            out.push(')');
            proof {
                assert(out@ =~= start + render(o@));
            }
        },
        MathsObject::NaturalNumber(n) => {
            push_decimal(n.natural_number as u64, out);
        },
    }
}

/// Relies on `FromIterator<char> for String`: the string holds exactly the
/// characters given, in order.
#[verifier::external_body]
pub(crate) fn string_from_chars(chars: &Vec<char>) -> (r: String)
    ensures
        r@ == chars@,
{
    chars.iter().collect()
}

impl MathsObject {
    /// The textual form of the object: sets as `{e1,...,en}` in element
    /// order, pairs as `(a,b)`, numbers in decimal.
    pub fn to_string(&self) -> (r: String)
        ensures
            r@ == render(self@),
    {
        let mut out: Vec<char> = Vec::new();
        render_into(self, &mut out);
        proof {
            assert(out@ =~= render(self@));
        }
        string_from_chars(&out)
    }
}

} // verus!
