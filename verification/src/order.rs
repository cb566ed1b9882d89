//! Orders and the stable sort: by text, by path, by rank and by score.

use vstd::prelude::*;
use crate::paths::{components, components_of, here_comp, prefix_of, root_comp, up_comp};
use crate::text::{chars_of, texts};

verus! {

/// What the values of `s` say.
pub open spec fn views<T: View>(s: Seq<T>) -> Seq<T::V> {
    Seq::new(s.len(), |i: int| s[i]@)
}

/// The smaller of two integers.
pub open spec fn lesser(a: int, b: int) -> int {
    if a <= b {
        a
    } else {
        b
    }
}

/// The larger of two integers.
pub open spec fn greater(a: int, b: int) -> int {
    if a >= b {
        a
    } else {
        b
    }
}

/// The first `limit` of `s`.
pub open spec fn at_most<A>(s: Seq<A>, limit: int) -> Seq<A> {
    if s.len() <= limit {
        s
    } else {
        s.take(limit)
    }
}

/// Values that have a place in an order; values of which neither comes
/// before the other are ties.
pub trait Ranked: View + Sized {
    /// Whether `a` comes before `b`.
    spec fn precedes(a: Self::V, b: Self::V) -> bool;

    /// Whether `self` comes before `other`.
    fn before(&self, other: &Self) -> (r: bool)
        ensures
            r == Self::precedes(self@, other@),
    ;

    /// The order is a strict weak order.
    proof fn lemma_order(a: Self::V, b: Self::V, c: Self::V)
        ensures
            !Self::precedes(a, a),
            Self::precedes(a, b) && Self::precedes(b, c) ==> Self::precedes(a, c),
            !Self::precedes(a, b) && !Self::precedes(b, c) ==> !Self::precedes(a, c),
    ;
}

/// Where `x` goes in a sorted sequence: behind the last value that it does
/// not come before.
pub open spec fn place<T: Ranked>(s: Seq<T::V>, x: T::V) -> int
    decreases s.len(),
{
    if s.len() == 0 {
        0
    } else if T::precedes(x, s.last()) {
        place::<T>(s.drop_last(), x)
    } else {
        s.len() as int
    }
}

/// `s` in order, ties in the order in which they stand in `s`.
pub open spec fn sorted<T: Ranked>(s: Seq<T::V>) -> Seq<T::V>
    decreases s.len(),
{
    if s.len() == 0 {
        s
    } else {
        let t = sorted::<T>(s.drop_last());
        t.insert(place::<T>(t, s.last()), s.last())
    }
}

/// Whether no value comes before one that stands ahead of it.
pub open spec fn in_order<T: Ranked>(s: Seq<T::V>) -> bool {
    forall|i: int, j: int| 0 <= i < j < s.len() ==> !T::precedes(#[trigger] s[j], #[trigger] s[i])
}

proof fn lemma_place<T: Ranked>(s: Seq<T::V>, x: T::V)
    requires
        in_order::<T>(s),
    ensures
        0 <= place::<T>(s, x) <= s.len(),
        forall|i: int| place::<T>(s, x) <= i < s.len() ==> T::precedes(x, #[trigger] s[i]),
        forall|i: int| 0 <= i < place::<T>(s, x) ==> !T::precedes(x, #[trigger] s[i]),
    decreases s.len(),
{
    if s.len() > 0 {
        if T::precedes(x, s.last()) {
            let t = s.drop_last();
            assert forall|i: int, j: int| 0 <= i < j < t.len() implies !T::precedes(
                #[trigger] t[j],
                #[trigger] t[i],
            ) by {
                assert(t[i] == s[i] && t[j] == s[j]);
            }
            lemma_place::<T>(t, x);
            assert forall|i: int| place::<T>(s, x) <= i < s.len() implies T::precedes(
                x,
                #[trigger] s[i],
            ) by {
                if i < t.len() {
                    assert(t[i] == s[i]);
                }
            }
            assert forall|i: int| 0 <= i < place::<T>(s, x) implies !T::precedes(
                x,
                #[trigger] s[i],
            ) by {
                assert(t[i] == s[i]);
            }
        } else {
            assert forall|i: int| 0 <= i < s.len() implies !T::precedes(x, #[trigger] s[i]) by {
                if i < s.len() - 1 {
                    assert(!T::precedes(s[s.len() - 1], s[i]));
                    T::lemma_order(x, s.last(), s[i]);
                }
            }
        }
    }
}

/// Sorting puts values in order and neither adds nor drops one.
pub proof fn sort_orders<T: Ranked>(s: Seq<T::V>)
    ensures
        sorted::<T>(s).len() == s.len(),
        in_order::<T>(sorted::<T>(s)),
        sorted::<T>(s).to_multiset() == s.to_multiset(),
    decreases s.len(),
{
    if s.len() > 0 {
        let t = sorted::<T>(s.drop_last());
        let x = s.last();
        sort_orders::<T>(s.drop_last());
        lemma_place::<T>(t, x);
        let p = place::<T>(t, x);
        let r = t.insert(p, x);
        assert forall|i: int, j: int| 0 <= i < j < r.len() implies !T::precedes(
            #[trigger] r[j],
            #[trigger] r[i],
        ) by {
            if i == p {
                assert(r[j] == t[j - 1]);
                T::lemma_order(x, t[j - 1], x);
            } else if j == p {
                assert(r[i] == t[i]);
            } else {
                let a = if i < p {
                    i
                } else {
                    i - 1
                };
                let b = if j < p {
                    j
                } else {
                    j - 1
                };
                assert(r[i] == t[a] && r[j] == t[b]);
            }
        }
        vstd::seq_lib::to_multiset_insert(t, p, x);
        vstd::seq_lib::to_multiset_insert(s.drop_last(), s.len() - 1, x);
        assert(s.drop_last().insert(s.len() - 1, x) =~= s);
    }
}

/// Sorting leaves a sequence that is in order as it is.
pub proof fn sort_keeps_ordered<T: Ranked>(s: Seq<T::V>)
    requires
        in_order::<T>(s),
    ensures
        sorted::<T>(s) == s,
    decreases s.len(),
{
    if s.len() > 0 {
        let t = s.drop_last();
        assert forall|i: int, j: int| 0 <= i < j < t.len() implies !T::precedes(
            #[trigger] t[j],
            #[trigger] t[i],
        ) by {
            assert(t[i] == s[i] && t[j] == s[j]);
        }
        sort_keeps_ordered::<T>(t);
        if t.len() > 0 {
            assert(t.last() == s[s.len() - 2]);
            assert(!T::precedes(s[s.len() - 1], s[s.len() - 2]));
        }
        assert(t.insert(t.len() as int, s.last()) =~= s);
    }
}

/// Whether values that tie are the same value.
pub open spec fn ties_are_same<T: Ranked>(s: Seq<T::V>) -> bool {
    forall|i: int, j: int|
        0 <= i < s.len() && 0 <= j < s.len() && !T::precedes(#[trigger] s[i], #[trigger] s[j])
            && !T::precedes(s[j], s[i]) ==> s[i] == s[j]
}

proof fn lemma_ordered_unique<T: Ranked>(a: Seq<T::V>, b: Seq<T::V>)
    requires
        in_order::<T>(a),
        in_order::<T>(b),
        ties_are_same::<T>(a),
        a.to_multiset() == b.to_multiset(),
    ensures
        a == b,
    decreases a.len(),
{
    a.to_multiset_ensures();
    b.to_multiset_ensures();
    assert(a.len() == b.len());
    if a.len() > 0 {
        let x = a.last();
        let y = b.last();
        assert(a.contains(x));
        assert(b.contains(y));
        assert(b.to_multiset().count(x) > 0);
        assert(a.to_multiset().count(y) > 0);
        assert(b.contains(x));
        assert(a.contains(y));
        let i = choose|i: int| 0 <= i < a.len() && a[i] == y;
        let j = choose|j: int| 0 <= j < b.len() && b[j] == x;
        T::lemma_order(x, x, x);
        T::lemma_order(y, y, y);
        assert(!T::precedes(x, y)) by {
            if i < a.len() - 1 {
                assert(!T::precedes(a[a.len() - 1], a[i]));
            }
        }
        assert(!T::precedes(y, x)) by {
            if j < b.len() - 1 {
                assert(!T::precedes(b[b.len() - 1], b[j]));
            }
        }
        assert(a[i] == y && a[a.len() - 1] == x);
        assert(x == y);
        let ta = a.drop_last();
        let tb = b.drop_last();
        assert(ta =~= a.remove(a.len() - 1));
        assert(tb =~= b.remove(b.len() - 1));
        assert(ta.to_multiset() =~= a.to_multiset().remove(x));
        assert(tb.to_multiset() =~= b.to_multiset().remove(x));
        assert forall|p: int, q: int| 0 <= p < q < ta.len() implies !T::precedes(
            #[trigger] ta[q],
            #[trigger] ta[p],
        ) by {
            assert(ta[p] == a[p] && ta[q] == a[q]);
        }
        assert forall|p: int, q: int| 0 <= p < q < tb.len() implies !T::precedes(
            #[trigger] tb[q],
            #[trigger] tb[p],
        ) by {
            assert(tb[p] == b[p] && tb[q] == b[q]);
        }
        assert forall|p: int, q: int|
            0 <= p < ta.len() && 0 <= q < ta.len() && !T::precedes(
                #[trigger] ta[p],
                #[trigger] ta[q],
            ) && !T::precedes(ta[q], ta[p]) implies ta[p] == ta[q] by {
            assert(ta[p] == a[p] && ta[q] == a[q]);
        }
        lemma_ordered_unique::<T>(ta, tb);
        assert(a =~= ta.push(x));
        assert(b =~= tb.push(y));
    } else {
        assert(a =~= b);
    }
}

/// What sorting gives does not depend on the order in which the values come,
/// as long as only equal values tie.
pub proof fn sort_ignores_arrival<T: Ranked>(s: Seq<T::V>, t: Seq<T::V>)
    requires
        s.to_multiset() == t.to_multiset(),
        ties_are_same::<T>(s),
    ensures
        sorted::<T>(s) == sorted::<T>(t),
{
    sort_orders::<T>(s);
    sort_orders::<T>(t);
    let r = sorted::<T>(s);
    s.to_multiset_ensures();
    r.to_multiset_ensures();
    assert forall|i: int, j: int|
        0 <= i < r.len() && 0 <= j < r.len() && !T::precedes(#[trigger] r[i], #[trigger] r[j])
            && !T::precedes(r[j], r[i]) implies r[i] == r[j] by {
        assert(r.contains(r[i]) && r.contains(r[j]));
        assert(s.to_multiset().count(r[i]) > 0 && s.to_multiset().count(r[j]) > 0);
        assert(s.contains(r[i]) && s.contains(r[j]));
        let p = choose|p: int| 0 <= p < s.len() && s[p] == r[i];
        let q = choose|q: int| 0 <= q < s.len() && s[q] == r[j];
        assert(s[p] == r[i] && s[q] == r[j]);
    }
    lemma_ordered_unique::<T>(r, sorted::<T>(t));
}

/// `v` in order, ties in the order in which they stand in `v`.
pub fn sort<T: Ranked>(v: Vec<T>) -> (r: Vec<T>)
    ensures
        views(r@) == sorted::<T>(views(v@)),
{
    let mut out: Vec<T> = Vec::new();
    let ghost all = views(v@);
    proof {
        assert(views(out@) =~= sorted::<T>(all.take(0)));
    }
    for x in it: v
        invariant
            it.seq() == v@,
            all == views(v@),
            views(out@) == sorted::<T>(all.take(it.index())),
    {
        let ghost k = it.index();
        let ghost before = out@;
        let ghost xv = x@;
        let mut p: usize = out.len();
        proof {
            assert(views(out@).take(p as int) =~= views(out@));
        }
        while p > 0 && x.before(&out[p - 1])
            invariant
                p <= out@.len(),
                out@ == before,
                place::<T>(views(before).take(p as int), x@) == place::<T>(views(before), x@),
            decreases p,
        {
            proof {
                assert(views(before).take(p as int).drop_last() =~= views(before).take(p - 1));
                assert(views(before).take(p as int).last() == before[p - 1]@);
            }
            p -= 1;
        }
        proof {
            if p > 0 {
                assert(views(before).take(p as int).last() == before[p - 1]@);
            }
            assert(p == place::<T>(views(before), xv));
        }
        out.insert(p, x);
        proof {
            assert(views(out@) =~= views(before).insert(p as int, xv));
            assert(all.take(k + 1).drop_last() =~= all.take(k));
            assert(all.take(k + 1).last() == xv);
        }
    }
    proof {
        assert(all.take(all.len() as int) =~= all);
    }
    out
}

/// Whether the text `a` comes before `b`: at the first place where they
/// differ its character is the smaller one, or it ends there.
pub open spec fn text_precedes(a: Seq<char>, b: Seq<char>) -> bool
    decreases a.len(),
{
    if b.len() == 0 {
        false
    } else if a.len() == 0 {
        true
    } else if a[0] != b[0] {
        a[0] < b[0]
    } else {
        text_precedes(a.skip(1), b.skip(1))
    }
}

proof fn lemma_text_irreflexive(a: Seq<char>)
    ensures
        !text_precedes(a, a),
    decreases a.len(),
{
    if a.len() > 0 {
        lemma_text_irreflexive(a.skip(1));
    }
}

/// Texts are totally ordered.
pub proof fn lemma_text_order(a: Seq<char>, b: Seq<char>, c: Seq<char>)
    ensures
        !text_precedes(a, a),
        text_precedes(a, b) && text_precedes(b, c) ==> text_precedes(a, c),
        !text_precedes(a, b) && !text_precedes(b, c) ==> !text_precedes(a, c),
        !text_precedes(a, b) && !text_precedes(b, a) ==> a == b,
    decreases a.len() + b.len() + c.len(),
{
    if a.len() > 0 && b.len() > 0 && c.len() > 0 {
        lemma_text_order(a.skip(1), b.skip(1), c.skip(1));
        if a.skip(1) == b.skip(1) && a[0] == b[0] {
            assert(a =~= seq![a[0]] + a.skip(1));
            assert(b =~= seq![b[0]] + b.skip(1));
        }
    } else if a.len() > 0 && b.len() > 0 {
        lemma_text_order(a.skip(1), b.skip(1), c);
        if a.skip(1) == b.skip(1) && a[0] == b[0] {
            assert(a =~= seq![a[0]] + a.skip(1));
            assert(b =~= seq![b[0]] + b.skip(1));
        }
    } else {
        lemma_text_irreflexive(a);
        if !text_precedes(a, b) && !text_precedes(b, a) {
            assert(a =~= b);
        }
    }
}

fn chars_before(x: &[char], y: &[char]) -> (r: bool)
    ensures
        r == text_precedes(x@, y@),
{
    let mut i: usize = 0;
    proof {
        assert(x@.skip(0) =~= x@);
        assert(y@.skip(0) =~= y@);
    }
    while i < x.len() && i < y.len()
        invariant
            i <= x@.len(),
            i <= y@.len(),
            text_precedes(x@.skip(i as int), y@.skip(i as int)) == text_precedes(x@, y@),
        decreases x@.len() - i,
    {
        if x[i] != y[i] {
            return x[i] < y[i];
        }
        proof {
            assert(x@.skip(i as int).skip(1) =~= x@.skip(i + 1));
            assert(y@.skip(i as int).skip(1) =~= y@.skip(i + 1));
        }
        i += 1;
    }
    i < y.len()
}

/// Whether the text `a` comes before `b`.
pub fn text_before(a: &str, b: &str) -> (r: bool)
    ensures
        r == text_precedes(a@, b@),
{
    chars_before(&chars_of(a), &chars_of(b))
}

impl Ranked for String {
    open spec fn precedes(a: Seq<char>, b: Seq<char>) -> bool {
        text_precedes(a, b)
    }

    fn before(&self, other: &String) -> (r: bool) {
        text_before(self.as_str(), other.as_str())
    }

    proof fn lemma_order(a: Seq<char>, b: Seq<char>, c: Seq<char>) {
        lemma_text_order(a, b, c);
    }
}

/// Where the sorts of components stand in the order: the root, the current
/// directory, the parent directory, names.
pub open spec fn comp_class(c: Seq<char>) -> int {
    if c == root_comp() {
        0
    } else if c == here_comp() {
        1
    } else if c == up_comp() {
        2
    } else {
        3
    }
}

/// Whether the path component `a` comes before `b`.
pub open spec fn comp_precedes(a: Seq<char>, b: Seq<char>) -> bool {
    comp_class(a) < comp_class(b) || (comp_class(a) == 3 && comp_class(b) == 3 && text_precedes(
        a,
        b,
    ))
}

/// Whether the components `a` come before `b`: at the first place where they
/// differ, or because they end there.
pub open spec fn comps_precede(a: Seq<Seq<char>>, b: Seq<Seq<char>>) -> bool
    decreases a.len(),
{
    if b.len() == 0 {
        false
    } else if a.len() == 0 {
        true
    } else if a[0] != b[0] {
        comp_precedes(a[0], b[0])
    } else {
        comps_precede(a.skip(1), b.skip(1))
    }
}

/// Whether the path `a` comes before `b`, component by component.
pub open spec fn path_precedes(a: Seq<char>, b: Seq<char>) -> bool {
    comps_precede(components(a), components(b))
}

/// Components are totally ordered.
pub proof fn lemma_comp_order(a: Seq<char>, b: Seq<char>, c: Seq<char>)
    ensures
        !comp_precedes(a, a),
        comp_precedes(a, b) && comp_precedes(b, c) ==> comp_precedes(a, c),
        !comp_precedes(a, b) && !comp_precedes(b, c) ==> !comp_precedes(a, c),
        !comp_precedes(a, b) && !comp_precedes(b, a) ==> a == b,
{
    lemma_text_order(a, b, c);
}

proof fn lemma_comps_irreflexive(a: Seq<Seq<char>>)
    ensures
        !comps_precede(a, a),
    decreases a.len(),
{
    if a.len() > 0 {
        lemma_comps_irreflexive(a.skip(1));
    }
}

/// Sequences of components are totally ordered.
pub proof fn lemma_comps_order(a: Seq<Seq<char>>, b: Seq<Seq<char>>, c: Seq<Seq<char>>)
    ensures
        !comps_precede(a, a),
        comps_precede(a, b) && comps_precede(b, c) ==> comps_precede(a, c),
        !comps_precede(a, b) && !comps_precede(b, c) ==> !comps_precede(a, c),
        !comps_precede(a, b) && !comps_precede(b, a) ==> a == b,
    decreases a.len() + b.len() + c.len(),
{
    lemma_comps_irreflexive(a);
    if a.len() > 0 && b.len() > 0 {
        lemma_comp_order(a[0], b[0], a[0]);
        if c.len() > 0 {
            lemma_comps_order(a.skip(1), b.skip(1), c.skip(1));
            lemma_comp_order(a[0], b[0], c[0]);
            lemma_comp_order(c[0], b[0], a[0]);
        } else {
            lemma_comps_order(a.skip(1), b.skip(1), c);
        }
        if a.skip(1) == b.skip(1) && a[0] == b[0] {
            assert(a =~= seq![a[0]] + a.skip(1));
            assert(b =~= seq![b[0]] + b.skip(1));
        }
    } else {
        if !comps_precede(a, b) && !comps_precede(b, a) {
            assert(a =~= b);
        }
    }
}

fn class(c: &[char]) -> (r: u8)
    ensures
        r == comp_class(c@),
{
    let root = c.len() == 1 && c[0] == '/';
    let here = c.len() == 1 && c[0] == '.';
    let up = c.len() == 2 && c[0] == '.' && c[1] == '.';
    proof {
        assert(root == (c@ =~= root_comp()));
        assert(here == (c@ =~= here_comp()));
        assert(up == (c@ =~= up_comp()));
    }
    if root {
        0
    } else if here {
        1
    } else if up {
        2
    } else {
        3
    }
}

fn comp_before(a: &str, b: &str) -> (r: bool)
    ensures
        r == comp_precedes(a@, b@),
{
    let x = chars_of(a);
    let y = chars_of(b);
    let p: u8 = class(&x);
    let q: u8 = class(&y);
    p < q || (p == 3 && q == 3 && chars_before(&x, &y))
}

/// Whether the path `a` comes before `b`, component by component.
pub fn path_before(a: &str, b: &str) -> (r: bool)
    ensures
        r == path_precedes(a@, b@),
{
    let x = components_of(a);
    let y = components_of(b);
    let ghost u = components(a@);
    let ghost v = components(b@);
    let mut i: usize = 0;
    proof {
        assert(u.skip(0) =~= u);
        assert(v.skip(0) =~= v);
    }
    while i < x.len() && i < y.len()
        invariant
            i <= x@.len(),
            i <= y@.len(),
            u == components(a@),
            v == components(b@),
            texts(x@) == u,
            texts(y@) == v,
            comps_precede(u.skip(i as int), v.skip(i as int)) == comps_precede(u, v),
        decreases x@.len() - i,
    {
        proof {
            assert(u[i as int] == x@[i as int]@);
            assert(v[i as int] == y@[i as int]@);
            assert(u.skip(i as int).skip(1) =~= u.skip(i + 1));
            assert(v.skip(i as int).skip(1) =~= v.skip(i + 1));
        }
        if x[i] != y[i] {
            return comp_before(x[i].as_str(), y[i].as_str());
        }
        i += 1;
    }
    proof {
        assert(u.len() == x@.len() && v.len() == y@.len());
    }
    i < y.len()
}

/// Whether two paths have the same components.
pub fn same_path(a: &str, b: &str) -> (r: bool)
    ensures
        r == (components(a@) == components(b@)),
{
    let x = components_of(a);
    let y = components_of(b);
    proof {
        assert(texts(x@).len() == x@.len());
        assert(texts(y@).len() == y@.len());
        if x@.len() == y@.len() && texts(x@).is_prefix_of(texts(y@)) {
            assert(texts(x@) =~= texts(y@));
        }
        if texts(x@) == texts(y@) {
            assert(texts(x@) =~= texts(y@).subrange(0, texts(x@).len() as int));
        }
    }
    x.len() == y.len() && prefix_of(&x, &y)
}

/// Where a bit pattern of a double stands in the total order of doubles:
/// patterns with the sign bit count downwards.
pub open spec fn score_key(bits: u64) -> int {
    if bits < 0x8000_0000_0000_0000 {
        bits as int
    } else {
        0x8000_0000_0000_0000 - 1 - bits
    }
}

/// Whether the score `a` is higher than `b`, both as bit patterns of doubles.
pub fn score_above(a: u64, b: u64) -> (r: bool)
    ensures
        r == (score_key(a) > score_key(b)),
{
    let neg_a = a >= 0x8000_0000_0000_0000;
    let neg_b = b >= 0x8000_0000_0000_0000;
    if neg_a {
        neg_b && a < b
    } else {
        neg_b || a > b
    }
}

/// Whether rank `a` comes before rank `b`; a missing rank comes last.
pub open spec fn rank_precedes(a: Option<usize>, b: Option<usize>) -> bool {
    match (a, b) {
        (Some(x), Some(y)) => x < y,
        (Some(_), None) => true,
        (None, _) => false,
    }
}

/// Whether rank `a` comes before rank `b`; a missing rank comes last.
pub fn rank_before(a: Option<usize>, b: Option<usize>) -> (r: bool)
    ensures
        r == rank_precedes(a, b),
{
    match (a, b) {
        (Some(x), Some(y)) => x < y,
        (Some(_), None) => true,
        (None, _) => false,
    }
}

/// Texts come in the order of the characters at which they first differ, and a
/// text before those that go on behind it.
pub proof fn texts_order_by_first_difference(
    a: Seq<char>,
    c: char,
    d: char,
    x: Seq<char>,
    y: Seq<char>,
)
    requires
        c < d,
    ensures
        text_precedes(a.push(c) + x, a.push(d) + y),
        !text_precedes(a.push(d) + y, a.push(c) + x),
        text_precedes(a, a.push(c) + x),
        !text_precedes(a.push(c) + x, a),
    decreases a.len(),
{
    let s = a.push(c) + x;
    let t = a.push(d) + y;
    if a.len() == 0 {
        assert(s[0] == c && t[0] == d);
    } else {
        let b = a.skip(1);
        texts_order_by_first_difference(b, c, d, x, y);
        assert(s.skip(1) =~= b.push(c) + x);
        assert(t.skip(1) =~= b.push(d) + y);
        assert(s[0] == a[0] && t[0] == a[0]);
    }
}

/// Paths come in the order of the names at which they first differ, and a
/// directory before what lies in it.
pub proof fn paths_order_by_first_difference(
    a: Seq<Seq<char>>,
    m: Seq<char>,
    n: Seq<char>,
    x: Seq<Seq<char>>,
    y: Seq<Seq<char>>,
)
    requires
        crate::paths::is_name(m),
        crate::paths::is_name(n),
        text_precedes(m, n),
    ensures
        comps_precede(a.push(m) + x, a.push(n) + y),
        !comps_precede(a.push(n) + y, a.push(m) + x),
        comps_precede(a, a.push(m) + x),
        !comps_precede(a.push(m) + x, a),
    decreases a.len(),
{
    let s = a.push(m) + x;
    let t = a.push(n) + y;
    if a.len() == 0 {
        lemma_text_order(m, n, m);
        assert(s[0] == m && t[0] == n);
        assert(root_comp()[0] == '/');
        assert(m != root_comp()) by {
            if m == root_comp() {
                assert(m.contains(m[0]));
            }
        }
        assert(n != root_comp()) by {
            if n == root_comp() {
                assert(n.contains(n[0]));
            }
        }
    } else {
        let b = a.skip(1);
        paths_order_by_first_difference(b, m, n, x, y);
        assert(s.skip(1) =~= b.push(m) + x);
        assert(t.skip(1) =~= b.push(n) + y);
        assert(s[0] == a[0] && t[0] == a[0]);
    }
}

/// Doubles order as numbers do: of two without the sign bit the greater bit
/// pattern is the higher, of two with it the lower, and any without it is
/// higher than any with it.
pub proof fn doubles_order_as_numbers(a: u64, b: u64)
    ensures
        a < b && b < 0x8000_0000_0000_0000 ==> score_key(a) < score_key(b),
        a < b && a >= 0x8000_0000_0000_0000 ==> score_key(b) < score_key(a),
        a < 0x8000_0000_0000_0000 && b >= 0x8000_0000_0000_0000 ==> score_key(b) < score_key(a),
{
}

/// A lower rank comes first, and a missing one last.
pub proof fn missing_ranks_come_last(a: usize, b: usize)
    ensures
        a < b ==> rank_precedes(Some(a), Some(b)) && !rank_precedes(Some(b), Some(a)),
        rank_precedes(Some(a), None) && !rank_precedes(None, Some(a)),
        !rank_precedes(Some(a), Some(a)) && !rank_precedes(None, None),
{
}

/// What is left of values in an order is in that order.
pub proof fn lemma_filter_ordered<A>(s: Seq<A>, p: spec_fn(A) -> bool, r: spec_fn(A, A) -> bool)
    requires
        forall|i: int, j: int| 0 <= i < j < s.len() ==> r(#[trigger] s[i], #[trigger] s[j]),
    ensures
        forall|i: int, j: int|
            0 <= i < j < s.filter(p).len() ==> r(
                #[trigger] s.filter(p)[i],
                #[trigger] s.filter(p)[j],
            ),
    decreases s.len(),
{
    reveal(Seq::filter);
    if s.len() > 0 {
        let t = s.drop_last();
        let x = s.last();
        lemma_filter_ordered(t, p, r);
        let f = t.filter(p);
        let g = s.filter(p);
        assert forall|i: int, j: int| 0 <= i < j < g.len() implies r(
            #[trigger] g[i],
            #[trigger] g[j],
        ) by {
            if j < f.len() {
                assert(g[i] == f[i] && g[j] == f[j]);
            } else {
                assert(g[i] == f[i] && g[j] == x);
                assert(f.contains(f[i]));
                t.lemma_filter_contains_rev(p, f[i]);
                let k = choose|k: int| 0 <= k < t.len() && t[k] == f[i];
                assert(r(s[k], s[s.len() - 1]));
            }
        }
    }
}

/// Filtering keeps the values that pass, each of them, and no others.
pub proof fn lemma_filter_keeps<A>(s: Seq<A>, p: spec_fn(A) -> bool)
    ensures
        s.filter(p).len() <= s.len(),
        forall|i: int| 0 <= i < s.len() && p(#[trigger] s[i]) ==> s.filter(p).contains(s[i]),
        forall|i: int|
            0 <= i < s.filter(p).len() ==> p(#[trigger] s.filter(p)[i]) && s.contains(
                s.filter(p)[i],
            ),
    decreases s.len(),
{
    reveal(Seq::filter);
    if s.len() > 0 {
        let t = s.drop_last();
        let x = s.last();
        lemma_filter_keeps(t, p);
        let f = t.filter(p);
        let g = s.filter(p);
        assert forall|i: int| 0 <= i < s.len() && p(#[trigger] s[i]) implies g.contains(s[i]) by {
            if i < t.len() {
                assert(t[i] == s[i]);
                let k = f.index_of(s[i]);
                assert(g[k] == s[i]);
            } else {
                assert(g[f.len() as int] == x);
            }
        }
        assert forall|i: int| 0 <= i < g.len() implies p(#[trigger] g[i]) && s.contains(g[i]) by {
            if i < f.len() {
                assert(g[i] == f[i]);
                let k = t.index_of(f[i]);
                assert(s[k] == f[i]);
            } else {
                assert(s[s.len() - 1] == g[i]);
            }
        }
    }
}

/// A list that is cut off keeps its first values, up to the limit: all of them
/// where they are no more.
pub proof fn cut_lists_keep_their_start<A>(s: Seq<A>, limit: int)
    requires
        0 <= limit,
    ensures
        at_most(s, limit).is_prefix_of(s),
        at_most(s, limit).len() <= limit,
        at_most(s, limit).len() == limit || at_most(s, limit) == s,
{
    assert(at_most(s, limit) =~= s.subrange(0, at_most(s, limit).len() as int));
}

} // verus!
