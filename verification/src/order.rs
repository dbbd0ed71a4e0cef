//! Sorting by an order that a type brings with it.
use vstd::prelude::*;

verus! {

/// A type with a total preorder: any two values compare, and the comparison chains.
pub trait Ranked: Sized {
    /// Whether `self` may stand before `other`.
    spec fn ranks(self, other: Self) -> bool;

    /// Any two values compare.
    proof fn total(a: Self, b: Self)
        ensures
            a.ranks(b) || b.ranks(a),
    ;

    /// The comparison chains.
    proof fn transitive(a: Self, b: Self, c: Self)
        requires
            a.ranks(b),
            b.ranks(c),
        ensures
            a.ranks(c),
    ;

    /// Whether `self` may stand before `other`.
    fn not_after(&self, other: &Self) -> (r: bool)
        ensures
            r == self.ranks(*other),
    ;
}

/// Whether every value may stand before each that follows it.
pub open spec fn in_order<T: Ranked>(s: Seq<T>) -> bool {
    forall|i: int, j: int| 0 <= i < j < s.len() ==> #[trigger] s[i].ranks(#[trigger] s[j])
}

/// `s` with `x` put in front of the first value that it may stand before.
pub open spec fn placed<T: Ranked>(s: Seq<T>, x: T) -> Seq<T>
    decreases s.len(),
{
    if s.len() == 0 {
        seq![x]
    } else if x.ranks(s[0]) {
        seq![x] + s
    } else {
        seq![s[0]] + placed(s.drop_first(), x)
    }
}

/// The values of `s` in order, those that tie in the order that they have in `s`.
pub open spec fn arranged<T: Ranked>(s: Seq<T>) -> Seq<T>
    decreases s.len(),
{
    if s.len() == 0 {
        s
    } else {
        placed(arranged(s.drop_first()), s[0])
    }
}

proof fn lemma_placed<T: Ranked>(s: Seq<T>, x: T)
    requires
        in_order(s),
    ensures
        in_order(placed(s, x)),
        placed(s, x).len() == s.len() + 1,
        placed(s, x).to_multiset() == s.to_multiset().insert(x),
        placed(s, x)[0] == x || (s.len() > 0 && placed(s, x)[0] == s[0]),
    decreases s.len(),
{
    broadcast use vstd::seq_lib::group_to_multiset_ensures;

    if s.len() == 0 {
        assert(seq![x] =~= Seq::empty().push(x));
        assert(s =~= Seq::empty());
    } else if x.ranks(s[0]) {
        let r = seq![x] + s;
        assert forall|i: int, j: int| 0 <= i < j < r.len() implies #[trigger] r[i].ranks(
            #[trigger] r[j],
        ) by {
            assert(r[j] == s[j - 1]);
            if i == 0 {
                if j > 1 {
                    assert(s[0].ranks(s[j - 1]));
                    T::transitive(x, s[0], s[j - 1]);
                }
            } else {
                assert(r[i] == s[i - 1]);
            }
        }
        assert(r =~= s.insert(0, x));
    } else {
        let rest = s.drop_first();
        assert forall|i: int, j: int| 0 <= i < j < rest.len() implies #[trigger] rest[i].ranks(
            #[trigger] rest[j],
        ) by {
            assert(rest[i] == s[i + 1]);
            assert(rest[j] == s[j + 1]);
        }
        lemma_placed(rest, x);
        T::total(x, s[0]);
        let p = placed(rest, x);
        let r = seq![s[0]] + p;
        assert forall|j: int| 0 <= j < p.len() implies s[0].ranks(#[trigger] p[j]) by {
            assert(p.to_multiset().contains(p[j]));
            if p[j] != x {
                assert(rest.to_multiset().contains(p[j]));
                assert(rest.contains(p[j]));
                let k = choose|k: int| 0 <= k < rest.len() && rest[k] == p[j];
                assert(s[0].ranks(s[k + 1]));
            }
        }
        assert forall|i: int, j: int| 0 <= i < j < r.len() implies #[trigger] r[i].ranks(
            #[trigger] r[j],
        ) by {
            assert(r[j] == p[j - 1]);
            if i > 0 {
                assert(r[i] == p[i - 1]);
            }
        }
        assert(r =~= p.insert(0, s[0]));
        assert(s =~= rest.insert(0, s[0]));
        assert(r.to_multiset() =~= s.to_multiset().insert(x));
    }
}

/// Sorting keeps every value and puts them in order.
pub proof fn lemma_arranged<T: Ranked>(s: Seq<T>)
    ensures
        in_order(arranged(s)),
        arranged(s).len() == s.len(),
        arranged(s).to_multiset() == s.to_multiset(),
        forall|x: T| #[trigger] arranged(s).contains(x) <==> s.contains(x),
    decreases s.len(),
{
    broadcast use vstd::seq_lib::group_to_multiset_ensures;

    if s.len() > 0 {
        lemma_arranged(s.drop_first());
        lemma_placed(arranged(s.drop_first()), s[0]);
        assert(s =~= s.drop_first().insert(0, s[0]));
    }
    assert forall|x: T| #[trigger] arranged(s).contains(x) <==> s.contains(x) by {
        assert(arranged(s).contains(x) <==> arranged(s).to_multiset().contains(x));
        assert(s.contains(x) <==> s.to_multiset().contains(x));
    }
}

/// Two orderings of the same values agree place by place, but for values that tie.
pub proof fn lemma_orderings_agree<T: Ranked>(a: Seq<T>, b: Seq<T>)
    requires
        in_order(a),
        in_order(b),
        a.to_multiset() == b.to_multiset(),
    ensures
        a.len() == b.len(),
        forall|i: int| 0 <= i < a.len() ==> (#[trigger] a[i]).ranks(b[i]) && b[i].ranks(a[i]),
    decreases a.len(),
{
    broadcast use vstd::seq_lib::group_to_multiset_ensures;

    assert(a.len() == a.to_multiset().len());
    assert(b.len() == b.to_multiset().len());
    if a.len() > 0 {
        let x = a[0];
        let y = b[0];
        assert(a.to_multiset().contains(x));
        assert(b.contains(x));
        let k = choose|k: int| 0 <= k < b.len() && b[k] == x;
        assert(b.to_multiset().contains(y));
        assert(a.contains(y));
        let m = choose|m: int| 0 <= m < a.len() && a[m] == y;
        T::total(x, x);
        T::total(y, y);
        assert(x.ranks(y)) by {
            if m > 0 {
                assert(a[0].ranks(a[m]));
            }
        }
        assert(y.ranks(x)) by {
            if k > 0 {
                assert(b[0].ranks(b[k]));
            }
        }
        let rest = a.drop_first();
        let other = b.remove(k);
        assert forall|i: int, j: int| 0 <= i < j < rest.len() implies #[trigger] rest[i].ranks(
            #[trigger] rest[j],
        ) by {
            assert(a[i + 1].ranks(a[j + 1]));
        }
        assert forall|i: int, j: int| 0 <= i < j < other.len() implies #[trigger] other[i].ranks(
            #[trigger] other[j],
        ) by {
            let p = if i < k { i } else { i + 1 };
            let q = if j < k { j } else { j + 1 };
            assert(b[p].ranks(b[q]));
        }
        assert(a =~= rest.insert(0, x));
        assert(b =~= other.insert(k, x));
        assert(rest.to_multiset() =~= other.to_multiset()) by {
            assert(a.to_multiset() =~= rest.to_multiset().insert(x));
            assert(b.to_multiset() =~= other.to_multiset().insert(x));
            assert(rest.to_multiset().insert(x).remove(x) =~= rest.to_multiset());
            assert(other.to_multiset().insert(x).remove(x) =~= other.to_multiset());
        }
        lemma_orderings_agree(rest, other);
        assert forall|i: int| 0 <= i < a.len() implies (#[trigger] a[i]).ranks(b[i]) && b[i].ranks(
            a[i],
        ) by {
            if i > 0 {
                assert(rest[i - 1] == a[i]);
                let o = other[i - 1];
                assert(rest[i - 1].ranks(o) && o.ranks(rest[i - 1]));
                if i <= k {
                    // From the first value to place k all values tie.
                    assert(o == b[i - 1]);
                    assert(b[i - 1].ranks(b[i]));
                    T::total(b[i], b[i]);
                    assert(b[i].ranks(x)) by {
                        if i < k {
                            assert(b[i].ranks(b[k]));
                        }
                    }
                    T::transitive(b[i], x, y);
                    assert(y.ranks(b[i - 1])) by {
                        if i > 1 {
                            assert(b[0].ranks(b[i - 1]));
                        }
                    }
                    T::transitive(b[i], y, b[i - 1]);
                    T::transitive(a[i], o, b[i]);
                    T::transitive(b[i], o, a[i]);
                } else {
                    assert(o == b[i]);
                }
            }
        }
    }
}

/// Puts `x` in front of the first value of `v` that it may stand before.
fn place<T: Ranked>(v: &mut Vec<T>, x: T)
    ensures
        final(v)@ == placed(old(v)@, x),
{
    let mut at: usize = 0;
    let ghost all = v@;
    assert(all.take(0) + placed(all.skip(0), x) =~= placed(all.skip(0), x));
    assert(all.skip(0) =~= all);
    while at < v.len() && !x.not_after(&v[at])
        invariant
            v@ == all,
            at <= all.len(),
            placed(all, x) == all.take(at as int) + placed(all.skip(at as int), x),
        decreases all.len() - at,
    {
        proof {
            let rest = all.skip(at as int);
            assert(rest.drop_first() =~= all.skip(at + 1));
            assert(all.take(at as int) + (seq![rest[0]] + placed(all.skip(at + 1), x))
                =~= all.take(at + 1) + placed(all.skip(at + 1), x));
        }
        at += 1;
    }
    v.insert(at, x);
    assert(v@ =~= all.take(at as int) + (seq![x] + all.skip(at as int)));
}

/// Sorts `v`; values that tie keep their order.
pub fn sorted<T: Ranked>(v: Vec<T>) -> (r: Vec<T>)
    ensures
        r@ == arranged(v@),
{
    let mut v = v;
    let ghost all = v@;
    let mut r: Vec<T> = Vec::new();
    assert(all.skip(all.len() as int) =~= Seq::empty());
    while v.len() > 0
        invariant
            v@.len() <= all.len(),
            v@ == all.take(v@.len() as int),
            r@ == arranged(all.skip(v@.len() as int)),
        decreases v@.len(),
    {
        let ghost n = v@.len();
        match v.pop() {
            Some(x) => {
                proof {
                    assert(x == all[n - 1]);
                    assert(all.skip(n - 1).drop_first() =~= all.skip(n as int));
                    assert(v@ =~= all.take(n - 1));
                }
                place(&mut r, x);
            },
            None => {},
        }
    }
    assert(all.skip(0) =~= all);
    r
}

proof fn lemma_filter_one<T>(x: T, keep: spec_fn(T) -> bool)
    ensures
        seq![x].filter(keep) == if keep(x) {
            seq![x]
        } else {
            Seq::<T>::empty()
        },
{
    reveal_with_fuel(Seq::filter, 2);
    assert(seq![x].drop_last() =~= Seq::<T>::empty());
    assert(Seq::<T>::empty().push(x) =~= seq![x]);
}

proof fn lemma_placed_among_ties<T: Ranked>(s: Seq<T>, x: T, like: T, keep: spec_fn(T) -> bool)
    requires
        forall|y: T| #[trigger] keep(y) <==> y.ranks(like) && like.ranks(y),
    ensures
        placed(s, x).filter(keep) == if keep(x) {
            seq![x] + s.filter(keep)
        } else {
            s.filter(keep)
        },
    decreases s.len(),
{
    let one = seq![x];
    lemma_filter_one(x, keep);
    if s.len() == 0 {
        reveal(Seq::filter);
        assert(seq![x] + s.filter(keep) =~= one);
        assert(s.filter(keep) =~= Seq::<T>::empty());
    } else if x.ranks(s[0]) {
        Seq::filter_distributes_over_add(one, s, keep);
        assert(Seq::<T>::empty() + s.filter(keep) =~= s.filter(keep));
    } else {
        let first = seq![s[0]];
        let rest = s.drop_first();
        lemma_placed_among_ties(rest, x, like, keep);
        assert(s =~= first + rest);
        Seq::filter_distributes_over_add(first, rest, keep);
        Seq::filter_distributes_over_add(first, placed(rest, x), keep);
        if keep(x) {
            if keep(s[0]) {
                T::transitive(x, like, s[0]);
            }
            lemma_filter_one(s[0], keep);
            assert(Seq::<T>::empty() + placed(rest, x).filter(keep) =~= placed(rest, x).filter(
                keep,
            ));
            assert(Seq::<T>::empty() + rest.filter(keep) =~= rest.filter(keep));
        }
    }
}

/// Sorting is stable: the values that tie with any one value stand among each other as they stood
/// before.
pub proof fn lemma_ties_keep_their_order<T: Ranked>(s: Seq<T>, like: T, keep: spec_fn(T) -> bool)
    requires
        forall|y: T| #[trigger] keep(y) <==> y.ranks(like) && like.ranks(y),
    ensures
        arranged(s).filter(keep) == s.filter(keep),
    decreases s.len(),
{
    if s.len() > 0 {
        let rest = s.drop_first();
        lemma_ties_keep_their_order(rest, like, keep);
        lemma_placed_among_ties(arranged(rest), s[0], like, keep);
        let first = seq![s[0]];
        assert(s =~= first + rest);
        Seq::filter_distributes_over_add(first, rest, keep);
        lemma_filter_one(s[0], keep);
        assert(Seq::<T>::empty() + rest.filter(keep) =~= rest.filter(keep));
    }
}

} // verus!
