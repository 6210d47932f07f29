//! A stable sort by an integer key.

use vstd::multiset::Multiset;
use vstd::prelude::*;

verus! {

/// Something sorted by an integer key.
pub trait SortKey {
    spec fn key(&self) -> int;

    fn key_of(&self) -> (k: i128)
        ensures
            k == self.key(),
    ;
}

/// The key function of a `SortKey` type.
pub open spec fn key_fn<T: SortKey>() -> spec_fn(T) -> int {
    |x: T| x.key()
}

/// The keys of `s` never decrease.
pub open spec fn sorted_by<A>(s: Seq<A>, key: spec_fn(A) -> int) -> bool {
    forall|i: int, j: int| 0 <= i < j < s.len() ==> key(#[trigger] s[i]) <= key(#[trigger] s[j])
}

/// `p` is the first position of `s` whose key is at least `k` (or the end).
pub open spec fn first_at_least<A>(s: Seq<A>, key: spec_fn(A) -> int, k: int, p: int) -> bool {
    &&& 0 <= p <= s.len()
    &&& forall|j: int| 0 <= j < p ==> key(#[trigger] s[j]) < k
    &&& p < s.len() ==> key(s[p]) >= k
}

/// Inserts `x` before the first element whose key is at least its own.
pub open spec fn insert_before_equal<A>(s: Seq<A>, key: spec_fn(A) -> int, x: A) -> Seq<A> {
    let p = choose|p: int| #[trigger] first_at_least(s, key, key(x), p);
    s.insert(p, x)
}

/// `s` sorted by `key`, keeping elements with equal keys in their original order: each element
/// is placed ahead of the (later) elements with the same key.
pub open spec fn stable_sorted_by<A>(s: Seq<A>, key: spec_fn(A) -> int) -> Seq<A>
    decreases s.len(),
{
    if s.len() == 0 {
        Seq::empty()
    } else {
        insert_before_equal(stable_sorted_by(s.drop_first(), key), key, s[0])
    }
}

proof fn first_at_least_unique<A>(s: Seq<A>, key: spec_fn(A) -> int, k: int, p: int, q: int)
    requires
        first_at_least(s, key, k, p),
        first_at_least(s, key, k, q),
    ensures
        p == q,
{
    if p < q {
        assert(key(s[p]) < k);
    } else if q < p {
        assert(key(s[q]) < k);
    }
}

proof fn first_position<A>(s: Seq<A>, key: spec_fn(A) -> int, k: int) -> (p: int)
    ensures
        first_at_least(s, key, k, p),
    decreases s.len(),
{
    if s.len() == 0 {
        0
    } else if key(s[0]) >= k {
        0
    } else {
        let q = first_position(s.drop_first(), key, k);
        assert forall|j: int| 0 <= j < q + 1 implies key(#[trigger] s[j]) < k by {
            if j > 0 {
                assert(s[j] == s.drop_first()[j - 1]);
            }
        }
        q + 1
    }
}

proof fn insert_keeps_sorted<A>(s: Seq<A>, key: spec_fn(A) -> int, x: A, p: int)
    requires
        sorted_by(s, key),
        first_at_least(s, key, key(x), p),
    ensures
        sorted_by(s.insert(p, x), key),
        insert_before_equal(s, key, x) == s.insert(p, x),
{
    let q = choose|q: int| #[trigger] first_at_least(s, key, key(x), q);
    first_at_least_unique(s, key, key(x), p, q);
    let t = s.insert(p, x);
    assert forall|i: int, j: int| 0 <= i < j < t.len() implies key(#[trigger] t[i]) <= key(#[trigger] t[j]) by {
        if j < p {
            assert(t[i] == s[i] && t[j] == s[j]);
        } else if j == p {
            assert(t[i] == s[i]);
        } else if i == p {
            assert(t[j] == s[j - 1]);
            assert(key(s[p]) <= key(s[j - 1]) || j - 1 == p);
        } else if i < p {
            assert(t[i] == s[i] && t[j] == s[j - 1]);
        } else {
            assert(t[i] == s[i - 1] && t[j] == s[j - 1]);
        }
    }
}

/// The stable sort is sorted and holds the same elements.
pub proof fn stable_sorted_is_sorted_permutation<A>(s: Seq<A>, key: spec_fn(A) -> int)
    ensures
        sorted_by(stable_sorted_by(s, key), key),
        stable_sorted_by(s, key).to_multiset() == s.to_multiset(),
        stable_sorted_by(s, key).len() == s.len(),
    decreases s.len(),
{
    if s.len() > 0 {
        let rest = stable_sorted_by(s.drop_first(), key);
        stable_sorted_is_sorted_permutation(s.drop_first(), key);
        let x = s[0];
        let p = first_position(rest, key, key(x));
        insert_keeps_sorted(rest, key, x, p);
        let t = rest.insert(p, x);
        assert(t.remove(p) =~= rest);
        assert(s.remove(0) =~= s.drop_first());
        broadcast use vstd::seq_lib::group_to_multiset_ensures;
        broadcast use vstd::multiset::group_multiset_axioms;
        assert(t.to_multiset().remove(x) == rest.to_multiset());
        assert(s.to_multiset().remove(x) == s.drop_first().to_multiset());
        assert(t.contains(x)) by {
            assert(t[p] == x);
        }
        assert(s.contains(x)) by {
            assert(s[0] == x);
        }
        assert forall|y: A| #[trigger] t.to_multiset().count(y) == s.to_multiset().count(y) by {
            assert(t.to_multiset().remove(x).count(y) == s.to_multiset().remove(x).count(y));
        }
        assert(stable_sorted_by(s, key).to_multiset() =~= s.to_multiset());
    } else {
        assert(s =~= stable_sorted_by(s, key));
    }
}

/// Sorting commutes with a map that keeps keys.
pub proof fn stable_sorted_map<A, B>(
    s: Seq<A>,
    key_a: spec_fn(A) -> int,
    key_b: spec_fn(B) -> int,
    f: spec_fn(A) -> B,
)
    requires
        forall|x: A| #[trigger] key_b(f(x)) == key_a(x),
    ensures
        stable_sorted_by(s.map_values(f), key_b) == stable_sorted_by(s, key_a).map_values(f),
    decreases s.len(),
{
    if s.len() == 0 {
        assert(s.map_values(f) =~= Seq::<B>::empty());
        assert(stable_sorted_by(s, key_a).map_values(f) =~= Seq::<B>::empty());
    } else {
        let rest = stable_sorted_by(s.drop_first(), key_a);
        assert(s.map_values(f).drop_first() =~= s.drop_first().map_values(f));
        stable_sorted_map(s.drop_first(), key_a, key_b, f);
        let mrest = rest.map_values(f);
        let x = s[0];
        let p = first_position(rest, key_a, key_a(x));
        let q = choose|q: int| #[trigger] first_at_least(rest, key_a, key_a(x), q);
        first_at_least_unique(rest, key_a, key_a(x), p, q);
        assert(first_at_least(mrest, key_b, key_b(f(x)), p));
        let q2 = choose|q: int| #[trigger] first_at_least(mrest, key_b, key_b(f(x)), q);
        first_at_least_unique(mrest, key_b, key_b(f(x)), p, q2);
        assert(s.map_values(f)[0] == f(x));
        assert(rest.insert(p, x).map_values(f) =~= mrest.insert(p, f(x)));
    }
}

/// Sorts by key, stably.
pub fn stable_sort<T: SortKey>(v: Vec<T>) -> (r: Vec<T>)
    ensures
        r@ == stable_sorted_by(v@, key_fn::<T>()),
{
    let ghost s = v@;
    let ghost key = key_fn::<T>();
    let mut v = v;
    let mut r: Vec<T> = Vec::new();
    proof {
        assert(s.subrange(s.len() as int, s.len() as int) =~= Seq::<T>::empty());
    }
    while v.len() > 0
        invariant
            v@ == s.take(v@.len() as int),
            v@.len() <= s.len(),
            key == key_fn::<T>(),
            r@ == stable_sorted_by(s.subrange(v@.len() as int, s.len() as int), key),
            sorted_by(r@, key),
        decreases v.len(),
    {
        let ghost i = v@.len() - 1;
        let x = v.pop().unwrap();
        proof {
            assert(v@ =~= s.take(i));
            assert(x == s[i]);
            assert(s.subrange(i, s.len() as int).drop_first() =~= s.subrange(i + 1, s.len() as int));
            assert(s.subrange(i, s.len() as int)[0] == x);
        }
        let k = x.key_of();
        let mut lo: usize = 0;
        let mut hi: usize = r.len();
        while lo < hi
            invariant
                0 <= lo <= hi <= r.len(),
                key == key_fn::<T>(),
                sorted_by(r@, key),
                forall|j: int| 0 <= j < lo ==> key(#[trigger] r@[j]) < k,
                forall|j: int| hi <= j < r@.len() ==> key(#[trigger] r@[j]) >= k,
            decreases hi - lo,
        {
            let mid = lo + (hi - lo) / 2;
            if r[mid].key_of() < k {
                lo = mid + 1;
            } else {
                hi = mid;
            }
        }
        proof {
            insert_keeps_sorted(r@, key, x, lo as int);
        }
        r.insert(lo, x);
    }
    proof {
        assert(s.subrange(0, s.len() as int) =~= s);
    }
    r
}

/// Sorting adds no element.
pub proof fn stable_sorted_contains<A>(s: Seq<A>, key: spec_fn(A) -> int, x: A)
    requires
        stable_sorted_by(s, key).contains(x),
    ensures
        s.contains(x),
    decreases s.len(),
{
    if s.len() > 0 {
        let rest = stable_sorted_by(s.drop_first(), key);
        let p = first_position(rest, key, key(s[0]));
        let q = choose|q: int| #[trigger] first_at_least(rest, key, key(s[0]), q);
        first_at_least_unique(rest, key, key(s[0]), p, q);
        let t = rest.insert(p, s[0]);
        let i = choose|i: int| 0 <= i < t.len() && t[i] == x;
        if i == p {
            assert(s[0] == x);
        } else {
            let j = if i < p { i } else { i - 1 };
            assert(rest[j] == x);
            assert(rest.contains(x));
            stable_sorted_contains(s.drop_first(), key, x);
            let k = choose|k: int| 0 <= k < s.drop_first().len() && s.drop_first()[k] == x;
            assert(s[k + 1] == x);
        }
    }
}

/// No two elements of `s` have the same tag.
pub open spec fn distinct_by<A, B>(s: Seq<A>, tag: spec_fn(A) -> B) -> bool {
    forall|i: int, j: int| 0 <= i < j < s.len() ==> tag(#[trigger] s[i]) != tag(#[trigger] s[j])
}

/// Two lists, each without repeated tags and sharing none, have no repeated tag once joined.
pub proof fn append_distinct<A, B>(a: Seq<A>, b: Seq<A>, tag: spec_fn(A) -> B)
    requires
        distinct_by(a, tag),
        distinct_by(b, tag),
        forall|i: int, j: int| 0 <= i < a.len() && 0 <= j < b.len() ==> tag(#[trigger] a[i]) != tag(#[trigger] b[j]),
    ensures
        distinct_by(a + b, tag),
{
    let c = a + b;
    assert forall|i: int, j: int| 0 <= i < j < c.len() implies tag(#[trigger] c[i]) != tag(#[trigger] c[j]) by {
        if j < a.len() {
            assert(c[i] == a[i] && c[j] == a[j]);
        } else if i < a.len() {
            assert(c[i] == a[i] && c[j] == b[j - a.len()]);
        } else {
            assert(c[i] == b[i - a.len()] && c[j] == b[j - a.len()]);
        }
    }
}

/// Sorting repeats no tag.
pub proof fn stable_sorted_distinct<A, B>(s: Seq<A>, key: spec_fn(A) -> int, tag: spec_fn(A) -> B)
    requires
        distinct_by(s, tag),
    ensures
        distinct_by(stable_sorted_by(s, key), tag),
    decreases s.len(),
{
    if s.len() > 0 {
        let x = s[0];
        let tail = s.drop_first();
        assert forall|i: int, j: int| 0 <= i < j < tail.len() implies tag(#[trigger] tail[i]) != tag(#[trigger] tail[j]) by {
            assert(tail[i] == s[i + 1] && tail[j] == s[j + 1]);
        }
        stable_sorted_distinct(tail, key, tag);
        let rest = stable_sorted_by(tail, key);
        stable_sorted_is_sorted_permutation(tail, key);
        let p = first_position(rest, key, key(x));
        insert_keeps_sorted(rest, key, x, p);
        assert forall|i: int| 0 <= i < rest.len() implies tag(#[trigger] rest[i]) != tag(x) by {
            let y = rest[i];
            assert(rest.contains(y));
            stable_sorted_contains(tail, key, y);
            let k = choose|k: int| 0 <= k < tail.len() && tail[k] == y;
            assert(s[k + 1] == y);
            assert(tag(s[0]) != tag(s[k + 1]));
        }
        let t = rest.insert(p, x);
        assert forall|i: int, j: int| 0 <= i < j < t.len() implies tag(#[trigger] t[i]) != tag(#[trigger] t[j]) by {
            if j < p {
                assert(t[i] == rest[i] && t[j] == rest[j]);
            } else if j == p {
                assert(t[i] == rest[i]);
            } else if i == p {
                assert(t[j] == rest[j - 1]);
            } else if i < p {
                assert(t[i] == rest[i] && t[j] == rest[j - 1]);
            } else {
                assert(t[i] == rest[i - 1] && t[j] == rest[j - 1]);
            }
        }
        assert(stable_sorted_by(s, key) == t);
    }
}

/// The sum of `f` over the elements of `s`.
pub open spec fn sum_of<A>(s: Seq<A>, f: spec_fn(A) -> int) -> int
    decreases s.len(),
{
    if s.len() == 0 {
        0
    } else {
        sum_of(s.drop_last(), f) + f(s.last())
    }
}

pub proof fn sum_of_append<A>(a: Seq<A>, b: Seq<A>, f: spec_fn(A) -> int)
    ensures
        sum_of(a + b, f) == sum_of(a, f) + sum_of(b, f),
    decreases b.len(),
{
    if b.len() == 0 {
        assert(a + b =~= a);
    } else {
        sum_of_append(a, b.drop_last(), f);
        assert((a + b).drop_last() =~= a + b.drop_last());
    }
}

pub proof fn sum_of_update<A>(s: Seq<A>, i: int, x: A, f: spec_fn(A) -> int)
    requires
        0 <= i < s.len(),
    ensures
        sum_of(s.update(i, x), f) == sum_of(s, f) - f(s[i]) + f(x),
    decreases s.len(),
{
    if i < s.len() - 1 {
        assert(s.update(i, x).drop_last() =~= s.drop_last().update(i, x));
        sum_of_update(s.drop_last(), i, x, f);
    } else {
        assert(s.update(i, x).drop_last() =~= s.drop_last());
    }
}

pub proof fn sum_of_insert<A>(s: Seq<A>, p: int, x: A, f: spec_fn(A) -> int)
    requires
        0 <= p <= s.len(),
    ensures
        sum_of(s.insert(p, x), f) == sum_of(s, f) + f(x),
    decreases s.len(),
{
    if p < s.len() {
        assert(s.insert(p, x).drop_last() =~= s.drop_last().insert(p, x));
        sum_of_insert(s.drop_last(), p, x, f);
    } else {
        assert(s.insert(p, x) =~= s.push(x));
        assert(s.push(x).drop_last() =~= s);
    }
}

/// Sorting keeps every element, so it keeps any sum over them.
pub proof fn stable_sorted_sum<A>(s: Seq<A>, key: spec_fn(A) -> int, f: spec_fn(A) -> int)
    ensures
        sum_of(stable_sorted_by(s, key), f) == sum_of(s, f),
    decreases s.len(),
{
    if s.len() > 0 {
        let rest = stable_sorted_by(s.drop_first(), key);
        stable_sorted_sum(s.drop_first(), key, f);
        stable_sorted_is_sorted_permutation(s.drop_first(), key);
        let p = first_position(rest, key, key(s[0]));
        insert_keeps_sorted(rest, key, s[0], p);
        sum_of_insert(rest, p, s[0], f);
        assert(s =~= seq![s[0]] + s.drop_first());
        sum_of_append(seq![s[0]], s.drop_first(), f);
        let one = seq![s[0]];
        assert(one.drop_last() =~= Seq::<A>::empty());
        assert(one.last() == s[0]);
        assert(sum_of(one.drop_last(), f) == 0);
        assert(sum_of(one, f) == f(s[0]));
        assert(stable_sorted_by(s, key) == insert_before_equal(rest, key, s[0]));
        assert(stable_sorted_by(s, key) == rest.insert(p, s[0]));
    }
}

} // verus!
