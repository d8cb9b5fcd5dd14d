//! Sorting by a timestamp key.

use vstd::prelude::*;
use vstd::multiset::Multiset;

verus! {

broadcast use vstd::seq_lib::group_to_multiset_ensures;

/// Values that carry an instant by which they are ordered.
pub trait Timed {
    spec fn key(&self) -> int;

    fn key_exec(&self) -> (r: i64)
        ensures
            r == self.key(),
    ;
}

pub open spec fn sorted_asc<T: Timed>(s: Seq<T>) -> bool {
    forall|i: int, j: int| 0 <= i < j < s.len() ==> s[i].key() <= s[j].key()
}

pub open spec fn sorted_desc<T: Timed>(s: Seq<T>) -> bool {
    forall|i: int, j: int| 0 <= i < j < s.len() ==> s[i].key() >= s[j].key()
}

/// In `desc` order `a` may stand before `b`.
pub open spec fn in_order(desc: bool, a: int, b: int) -> bool {
    if desc { a >= b } else { a <= b }
}

pub open spec fn sorted_by<T: Timed>(s: Seq<T>, desc: bool) -> bool {
    if desc { sorted_desc(s) } else { sorted_asc(s) }
}

proof fn lemma_insert_multiset<T>(s: Seq<T>, i: int, x: T)
    requires
        0 <= i <= s.len(),
    ensures
        s.insert(i, x).to_multiset() =~= s.to_multiset().insert(x),
{
    let t = s.insert(i, x);
    assert(t.remove(i) =~= s);
    assert(t.remove(i).to_multiset() =~= t.to_multiset().remove(x));
    assert(t.contains(x)) by {
        assert(t[i] == x);
    }
    assert(t.to_multiset().count(x) > 0);
}

fn stands_before<T: Timed>(a: &T, k: i64, desc: bool) -> (r: bool)
    ensures
        r == in_order(desc, a.key(), k as int),
{
    let ak = a.key_exec();
    if desc { ak >= k } else { ak <= k }
}

/// Two sequences with the same elements keep the same elements when mapped.
pub proof fn lemma_map_multiset<A, B>(a: Seq<A>, b: Seq<A>, f: spec_fn(A) -> B)
    requires
        a.to_multiset() == b.to_multiset(),
    ensures
        a.map_values(f).to_multiset() == b.map_values(f).to_multiset(),
    decreases a.len(),
{
    if a.len() == 0 {
        assert(a.to_multiset().len() == 0);
        assert(b.to_multiset().len() == 0);
        assert(b.len() == 0);
        assert(a.map_values(f) =~= b.map_values(f));
    } else {
        let x = a.last();
        assert(a.contains(x)) by {
            assert(a[a.len() - 1] == x);
        }
        assert(a.to_multiset().count(x) > 0);
        assert(b.to_multiset().count(x) > 0);
        assert(b.contains(x));
        let k = choose|k: int| 0 <= k < b.len() && b[k] == x;
        assert(a.remove(a.len() - 1) =~= a.drop_last());
        lemma_map_multiset(a.drop_last(), b.remove(k), f);
        assert(a.map_values(f) =~= a.drop_last().map_values(f).push(f(x)));
        assert(b.map_values(f).remove(k) =~= b.remove(k).map_values(f));
        let bm = b.map_values(f);
        assert(bm.contains(f(x))) by {
            assert(bm[k] == f(x));
        }
        assert(bm.to_multiset().remove(f(x)).insert(f(x)) =~= bm.to_multiset());
    }
}

/// The keys of `s`, in order.
pub open spec fn keys<T: Timed>(s: Seq<T>) -> Seq<int> {
    s.map_values(|x: T| x.key())
}

proof fn lemma_sorted_ints_agree(a: Seq<int>, b: Seq<int>)
    requires
        forall|i: int, j: int| 0 <= i < j < a.len() ==> a[i] <= a[j],
        forall|i: int, j: int| 0 <= i < j < b.len() ==> b[i] <= b[j],
        a.to_multiset() == b.to_multiset(),
    ensures
        a == b,
    decreases a.len(),
{
    if a.len() == 0 {
        assert(a.to_multiset().len() == 0);
        assert(b.to_multiset().len() == 0);
        assert(a =~= b);
    } else {
        assert(b.to_multiset().len() == a.len());
        let x = a.last();
        let y = b.last();
        assert(a.contains(x)) by {
            assert(a[a.len() - 1] == x);
        }
        assert(b.contains(y)) by {
            assert(b[b.len() - 1] == y);
        }
        assert(a.to_multiset().count(x) > 0);
        assert(b.to_multiset().count(y) > 0);
        assert(b.contains(x));
        assert(a.contains(y));
        let i = choose|i: int| 0 <= i < b.len() && b[i] == x;
        let j = choose|j: int| 0 <= j < a.len() && a[j] == y;
        assert(x <= y);
        assert(y <= x);
        assert(a.remove(a.len() - 1) =~= a.drop_last());
        assert(b.remove(b.len() - 1) =~= b.drop_last());
        lemma_sorted_ints_agree(a.drop_last(), b.drop_last());
        assert(a =~= a.drop_last().push(x));
        assert(b =~= b.drop_last().push(y));
    }
}

/// Two sorted arrangements of the same elements have the same keys in the
/// same order: loading a log gives one sequence of starts, whatever order
/// its entries were appended in.
pub proof fn lemma_sorted_keys_agree<T: Timed>(a: Seq<T>, b: Seq<T>)
    requires
        sorted_asc(a),
        sorted_asc(b),
        a.to_multiset() == b.to_multiset(),
    ensures
        keys(a) == keys(b),
{
    lemma_map_multiset(a, b, |x: T| x.key());
    lemma_sorted_ints_agree(keys(a), keys(b));
}

/// The key of a `Timed` value.
pub open spec fn key_of<T: Timed>() -> spec_fn(T) -> int {
    |x: T| x.key()
}

/// The elements of `s` whose key is `k`, in their order in `s`.
pub open spec fn with_key<A>(s: Seq<A>, key: spec_fn(A) -> int, k: int) -> Seq<A>
    decreases s.len(),
{
    if s.len() == 0 {
        Seq::empty()
    } else {
        let r = with_key(s.drop_last(), key, k);
        if key(s.last()) == k { r.push(s.last()) } else { r }
    }
}

pub open spec fn ordered<A>(s: Seq<A>, key: spec_fn(A) -> int, desc: bool) -> bool {
    forall|i: int, j: int| 0 <= i < j < s.len() ==> in_order(desc, key(#[trigger] s[i]), key(#[trigger] s[j]))
}

/// `r` is `v` sorted by `key`, ascending or (with `desc`) descending, and
/// elements of equal key stand in `r` in the order they had in `v`.
pub open spec fn stable_order<A>(r: Seq<A>, v: Seq<A>, key: spec_fn(A) -> int, desc: bool) -> bool {
    &&& ordered(r, key, desc)
    &&& forall|k: int| #[trigger] with_key(r, key, k) == with_key(v, key, k)
}

pub proof fn lemma_with_key_concat<A>(a: Seq<A>, b: Seq<A>, key: spec_fn(A) -> int, k: int)
    ensures
        with_key(a + b, key, k) == with_key(a, key, k) + with_key(b, key, k),
    decreases b.len(),
{
    if b.len() == 0 {
        assert(a + b =~= a);
        assert(with_key(a, key, k) + Seq::<A>::empty() =~= with_key(a, key, k));
    } else {
        assert((a + b).drop_last() =~= a + b.drop_last());
        assert((a + b).last() == b.last());
        lemma_with_key_concat(a, b.drop_last(), key, k);
        if key(b.last()) == k {
            assert((with_key(a, key, k) + with_key(b.drop_last(), key, k)).push(b.last())
                =~= with_key(a, key, k) + with_key(b.drop_last(), key, k).push(b.last()));
        }
    }
}

proof fn lemma_with_key_none<A>(s: Seq<A>, key: spec_fn(A) -> int, k: int)
    requires
        forall|i: int| 0 <= i < s.len() ==> key(#[trigger] s[i]) != k,
    ensures
        with_key(s, key, k) == Seq::<A>::empty(),
    decreases s.len(),
{
    if s.len() > 0 {
        assert forall|i: int| 0 <= i < s.drop_last().len() implies key(#[trigger] s.drop_last()[i]) != k by {
            assert(s.drop_last()[i] == s[i]);
        }
        lemma_with_key_none(s.drop_last(), key, k);
        assert(key(s[s.len() - 1]) != k);
    }
}

proof fn lemma_with_key_single<A>(x: A, key: spec_fn(A) -> int, k: int)
    ensures
        with_key(seq![x], key, k) == (if key(x) == k { seq![x] } else { Seq::<A>::empty() }),
{
    assert(seq![x].drop_last() =~= Seq::<A>::empty());
    assert(with_key(seq![x].drop_last(), key, k) == with_key(Seq::<A>::empty(), key, k));
    assert(with_key(Seq::<A>::empty(), key, k) =~= Seq::<A>::empty());
    assert(seq![x].last() == x);
    assert(Seq::<A>::empty().push(x) =~= seq![x]);
}

proof fn lemma_with_key_member<A>(s: Seq<A>, key: spec_fn(A) -> int, k: int, j: int)
    requires
        0 <= j < with_key(s, key, k).len(),
    ensures
        key(with_key(s, key, k)[j]) == k,
        s.contains(with_key(s, key, k)[j]),
    decreases s.len(),
{
    let r = with_key(s.drop_last(), key, k);
    if j < r.len() {
        lemma_with_key_member(s.drop_last(), key, k, j);
        let y = r[j];
        let i = choose|i: int| 0 <= i < s.drop_last().len() && s.drop_last()[i] == y;
        assert(s[i] == y);
    } else {
        assert(s[s.len() - 1] == s.last());
    }
}

proof fn lemma_with_key_has<A>(s: Seq<A>, key: spec_fn(A) -> int, i: int)
    requires
        0 <= i < s.len(),
    ensures
        with_key(s, key, key(s[i])).len() > 0,
    decreases s.len(),
{
    if i < s.len() - 1 {
        assert(s.drop_last()[i] == s[i]);
        lemma_with_key_has(s.drop_last(), key, i);
    }
}

/// Keys carried over by a map: the elements of key `k` of the mapped
/// sequence are the mapped elements of key `k`.
pub proof fn lemma_with_key_map<A, B>(s: Seq<A>, f: spec_fn(A) -> B, kb: spec_fn(B) -> int, ka: spec_fn(A) -> int, k: int)
    requires
        forall|x: A| #[trigger] kb(f(x)) == ka(x),
    ensures
        with_key(s.map_values(f), kb, k) == with_key(s, ka, k).map_values(f),
    decreases s.len(),
{
    if s.len() == 0 {
        assert(with_key(s, ka, k).map_values(f) =~= Seq::<B>::empty());
    } else {
        assert(s.map_values(f).drop_last() =~= s.drop_last().map_values(f));
        assert(s.map_values(f).last() == f(s.last()));
        assert(kb(f(s.last())) == ka(s.last()));
        lemma_with_key_map(s.drop_last(), f, kb, ka, k);
        if ka(s.last()) == k {
            assert(with_key(s.drop_last(), ka, k).push(s.last()).map_values(f)
                =~= with_key(s.drop_last(), ka, k).map_values(f).push(f(s.last())));
        }
    }
}

/// A sort by key that keeps elements of equal key in their order has one
/// result only: two sequences ordered by the same key, with the same
/// elements of each key in the same order, are equal.
pub proof fn lemma_stable_order_unique<A>(a: Seq<A>, b: Seq<A>, key: spec_fn(A) -> int, desc: bool)
    requires
        ordered(a, key, desc),
        ordered(b, key, desc),
        forall|k: int| #[trigger] with_key(a, key, k) == with_key(b, key, k),
    ensures
        a == b,
    decreases a.len(),
{
    if a.len() == 0 {
        if b.len() > 0 {
            lemma_with_key_has(b, key, b.len() - 1);
            assert(with_key(a, key, key(b[b.len() - 1])).len() == 0);
        }
        assert(a =~= b);
    } else if b.len() == 0 {
        lemma_with_key_has(a, key, a.len() - 1);
        assert(with_key(b, key, key(a[a.len() - 1])).len() == 0);
    } else {
        let x = a.last();
        let y = b.last();
        let kx = key(x);
        let ky = key(y);
        let wa = with_key(a, key, kx);
        let wb = with_key(b, key, ky);
        assert(wa == with_key(a.drop_last(), key, kx).push(x));
        assert(wb == with_key(b.drop_last(), key, ky).push(y));
        assert(with_key(b, key, kx) == wa);
        lemma_with_key_member(b, key, kx, wa.len() - 1);
        let jb = choose|j: int| 0 <= j < b.len() && b[j] == x;
        if jb < b.len() - 1 {
            assert(in_order(desc, key(b[jb]), key(b[b.len() - 1])));
        }
        assert(in_order(desc, kx, ky));
        assert(with_key(a, key, ky) == wb);
        lemma_with_key_member(a, key, ky, wb.len() - 1);
        let ja = choose|j: int| 0 <= j < a.len() && a[j] == y;
        if ja < a.len() - 1 {
            assert(in_order(desc, key(a[ja]), key(a[a.len() - 1])));
        }
        assert(in_order(desc, ky, kx));
        assert(kx == ky);
        assert(x == wa.last());
        assert(y == wb.last());
        let a2 = a.drop_last();
        let b2 = b.drop_last();
        assert forall|k: int| #[trigger] with_key(a2, key, k) == with_key(b2, key, k) by {
            if k == kx {
                assert(with_key(a, key, k).drop_last() =~= with_key(a2, key, k));
                assert(with_key(b, key, k).drop_last() =~= with_key(b2, key, k));
            } else {
                assert(with_key(a, key, k) == with_key(a2, key, k));
                assert(with_key(b, key, k) == with_key(b2, key, k));
            }
        }
        assert forall|i: int, j: int| 0 <= i < j < a2.len() implies in_order(desc, key(#[trigger] a2[i]), key(#[trigger] a2[j])) by {
            assert(a2[i] == a[i] && a2[j] == a[j]);
        }
        assert forall|i: int, j: int| 0 <= i < j < b2.len() implies in_order(desc, key(#[trigger] b2[i]), key(#[trigger] b2[j])) by {
            assert(b2[i] == b[i] && b2[j] == b[j]);
        }
        lemma_stable_order_unique(a2, b2, key, desc);
        assert(a =~= a2.push(x));
        assert(b =~= b2.push(y));
    }
}

/// Sorts by key, ascending or (with `desc`) descending, keeping elements of
/// equal key in their order.
pub fn sort_by_key<T: Timed>(v: Vec<T>, desc: bool) -> (r: Vec<T>)
    ensures
        r@.to_multiset() == v@.to_multiset(),
        r@.len() == v@.len(),
        sorted_by(r@, desc),
        stable_order(r@, v@, key_of::<T>(), desc),
{
    let ghost kf = key_of::<T>();
    let mut rest = v;
    let mut out: Vec<T> = Vec::new();
    proof {
        assert forall|k: int| #[trigger] with_key(v@, kf, k) == with_key(out@, kf, k) + with_key(rest@, kf, k) by {
            assert(with_key(out@, kf, k) =~= Seq::<T>::empty());
            assert(Seq::<T>::empty() + with_key(rest@, kf, k) =~= with_key(rest@, kf, k));
        }
    }
    while rest.len() > 0
        invariant
            kf == key_of::<T>(),
            out@.to_multiset().add(rest@.to_multiset()) == v@.to_multiset(),
            out@.len() + rest@.len() == v@.len(),
            forall|i: int, j: int| 0 <= i < j < out@.len() ==> in_order(desc, #[trigger] out@[i].key(), #[trigger] out@[j].key()),
            forall|k: int| #[trigger] with_key(v@, kf, k) == with_key(out@, kf, k) + with_key(rest@, kf, k),
        decreases rest@.len(),
    {
        let ghost before = rest@;
        let x = rest.remove(0);
        assert(before =~= seq![x] + rest@);
        proof {
            assert(before.remove(0) =~= rest@);
            assert(before.contains(x)) by {
                assert(before[0] == x);
            }
            assert(before.to_multiset().count(x) > 0);
            assert(before.to_multiset() =~= rest@.to_multiset().insert(x));
        }
        let k = x.key_exec();
        let mut p: usize = 0;
        while p < out.len() && stands_before(&out[p], k, desc)
            invariant
                p <= out@.len(),
                forall|i: int| 0 <= i < p ==> in_order(desc, #[trigger] out@[i].key(), k as int),
            decreases out@.len() - p,
        {
            p = p + 1;
        }
        let ghost old_out = out@;
        proof {
            if p < out@.len() {
                assert(!in_order(desc, out@[p as int].key(), k as int));
            }
        }
        out.insert(p, x);
        proof {
            lemma_insert_multiset(old_out, p as int, x);
            assert(out@ =~= old_out.insert(p as int, x));
            assert forall|i: int, j: int| 0 <= i < j < out@.len() implies in_order(desc, #[trigger] out@[i].key(), #[trigger] out@[j].key()) by {
                if j < p {
                } else if j == p {
                } else if i < p {
                    assert(out@[j] == old_out[j - 1]);
                    assert(p < old_out.len());
                    assert(!in_order(desc, old_out[p as int].key(), k as int));
                    if p < j - 1 {
                        assert(in_order(desc, old_out[p as int].key(), old_out[j - 1].key()));
                    }
                } else if i == p {
                    assert(out@[j] == old_out[j - 1]);
                    assert(!in_order(desc, old_out[p as int].key(), k as int));
                    if p < j - 1 {
                        assert(in_order(desc, old_out[p as int].key(), old_out[j - 1].key()));
                    }
                } else {
                    assert(out@[i] == old_out[i - 1]);
                    assert(out@[j] == old_out[j - 1]);
                }
            }
            assert(out@.to_multiset().add(rest@.to_multiset()) =~= v@.to_multiset());
            let head = old_out.subrange(0, p as int);
            let tail = old_out.subrange(p as int, old_out.len() as int);
            assert(old_out =~= head + tail);
            assert(out@ =~= head + seq![x] + tail);
            assert forall|i: int| 0 <= i < tail.len() implies kf(#[trigger] tail[i]) != k as int by {
                assert(tail[i] == old_out[p + i]);
                assert(!in_order(desc, old_out[p as int].key(), k as int));
                if i > 0 {
                    assert(in_order(desc, old_out[p as int].key(), old_out[p + i].key()));
                }
            }
            assert forall|kk: int| #[trigger] with_key(v@, kf, kk) == with_key(out@, kf, kk) + with_key(rest@, kf, kk) by {
                lemma_with_key_concat(head + seq![x], tail, kf, kk);
                lemma_with_key_concat(head, seq![x], kf, kk);
                lemma_with_key_concat(head, tail, kf, kk);
                lemma_with_key_concat(seq![x], rest@, kf, kk);
                lemma_with_key_single(x, kf, kk);
                if kk == k as int {
                    lemma_with_key_none(tail, kf, kk);
                }
                assert(with_key(v@, kf, kk) == with_key(old_out, kf, kk) + with_key(before, kf, kk));
                assert(with_key(v@, kf, kk) =~= with_key(out@, kf, kk) + with_key(rest@, kf, kk));
            }
        }
    }
    proof {
        assert(rest@.to_multiset() =~= Multiset::empty());
        assert(out@.to_multiset().add(Multiset::empty()) =~= out@.to_multiset());
        assert forall|k: int| #[trigger] with_key(out@, kf, k) == with_key(v@, kf, k) by {
            assert(with_key(rest@, kf, k) =~= Seq::<T>::empty());
            assert(with_key(out@, kf, k) + Seq::<T>::empty() =~= with_key(out@, kf, k));
        }
        assert forall|i: int, j: int| 0 <= i < j < out@.len() implies in_order(desc, kf(#[trigger] out@[i]), kf(#[trigger] out@[j])) by {
            assert(in_order(desc, out@[i].key(), out@[j].key()));
        }
    }
    out
}

} // verus!
