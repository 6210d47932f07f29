use vstd::prelude::*;
use vstd::string::*;

verus! {

/// `a` and `b` have the same first `n` characters.
pub open spec fn agree_upto(a: Seq<char>, b: Seq<char>, n: int) -> bool {
    forall|k: int| 0 <= k < n ==> a[k] == b[k]
}

/// `a` differs from `b` first at position `i`, where `a` has the smaller character.
pub open spec fn smaller_at(a: Seq<char>, b: Seq<char>, i: int) -> bool {
    0 <= i < a.len() && i < b.len() && agree_upto(a, b, i) && (a[i] as int) < (b[i] as int)
}

/// `a` is a proper prefix of `b`.
pub open spec fn proper_prefix(a: Seq<char>, b: Seq<char>) -> bool {
    a.len() < b.len() && agree_upto(a, b, a.len() as int)
}

/// Lexicographic order on characters, the order in which Rust sorts `String`s (comparing code
/// points is the same as comparing their UTF-8 bytes).
pub open spec fn text_lt(a: Seq<char>, b: Seq<char>) -> bool {
    (exists|i: int| smaller_at(a, b, i)) || proper_prefix(a, b)
}

/// The three ways two texts compare.
#[derive(Clone, Copy, Debug, PartialEq, Eq, Structural)]
pub enum TextOrder {
    Before,
    Same,
    After,
}

/// No text comes before itself.
pub proof fn text_lt_irreflexive(a: Seq<char>)
    ensures
        !text_lt(a, a),
{
}

/// The order is transitive.
pub proof fn text_lt_transitive(a: Seq<char>, b: Seq<char>, c: Seq<char>)
    requires
        text_lt(a, b),
        text_lt(b, c),
    ensures
        text_lt(a, c),
{
    if exists|i: int| smaller_at(a, b, i) {
        let i = choose|i: int| smaller_at(a, b, i);
        if exists|j: int| smaller_at(b, c, j) {
            let j = choose|j: int| smaller_at(b, c, j);
            if i < j {
                assert(smaller_at(a, c, i));
            } else if j < i {
                assert(smaller_at(a, c, j));
            } else {
                assert(smaller_at(a, c, i));
            }
        } else {
            assert(proper_prefix(b, c));
            assert(smaller_at(a, c, i));
        }
    } else {
        assert(proper_prefix(a, b));
        if exists|j: int| smaller_at(b, c, j) {
            let j = choose|j: int| smaller_at(b, c, j);
            if j < a.len() {
                assert(smaller_at(a, c, j));
            } else {
                assert(proper_prefix(a, c));
            }
        } else {
            assert(proper_prefix(a, c));
        }
    }
}

/// Of two texts, exactly one comes first unless they are equal.
pub proof fn text_lt_total(a: Seq<char>, b: Seq<char>)
    ensures
        a == b || text_lt(a, b) || text_lt(b, a),
        !(text_lt(a, b) && text_lt(b, a)),
{
    if text_lt(a, b) && text_lt(b, a) {
        text_lt_transitive(a, b, a);
    }
    if a != b && !text_lt(a, b) && !text_lt(b, a) {
        let n = if a.len() < b.len() { a.len() } else { b.len() };
        if agree_upto(a, b, n as int) {
            if a.len() == b.len() {
                assert(a =~= b);
            } else if a.len() < b.len() {
                assert(proper_prefix(a, b));
            } else {
                assert(proper_prefix(b, a));
            }
        } else {
            let k = choose|k: int| 0 <= k < n && a[k] != b[k];
            // the first difference
            let first = first_difference(a, b, k);
            if (a[first] as int) < (b[first] as int) {
                assert(smaller_at(a, b, first));
            } else {
                assert(smaller_at(b, a, first));
            }
        }
    }
}

proof fn first_difference(a: Seq<char>, b: Seq<char>, k: int) -> (first: int)
    requires
        0 <= k < a.len(),
        k < b.len(),
        a[k] != b[k],
    ensures
        0 <= first <= k,
        agree_upto(a, b, first),
        a[first] != b[first],
    decreases k,
{
    if agree_upto(a, b, k) {
        k
    } else {
        let j = choose|j: int| 0 <= j < k && a[j] != b[j];
        first_difference(a, b, j)
    }
}

/// Compares two texts in the order of `text_lt`.
pub fn compare_text(a: &str, b: &str) -> (r: TextOrder)
    ensures
        r == TextOrder::Before <==> text_lt(a@, b@),
        r == TextOrder::Same <==> a@ == b@,
        r == TextOrder::After <==> text_lt(b@, a@),
{
    proof {
        text_lt_total(a@, b@);
        text_lt_irreflexive(a@);
    }
    let la = a.unicode_len();
    let lb = b.unicode_len();
    let mut i: usize = 0;
    while i < la && i < lb
        invariant
            la == a@.len(),
            lb == b@.len(),
            i <= la,
            i <= lb,
            agree_upto(a@, b@, i as int),
        decreases la - i,
    {
        let ca = a.get_char(i);
        let cb = b.get_char(i);
        if (ca as u32) < (cb as u32) {
            assert(smaller_at(a@, b@, i as int));
            return TextOrder::Before;
        }
        if (cb as u32) < (ca as u32) {
            assert(smaller_at(b@, a@, i as int));
            return TextOrder::After;
        }
        assert((ca as u32) == (cb as u32));
        i += 1;
    }
    if la < lb {
        assert(proper_prefix(a@, b@));
        TextOrder::Before
    } else if lb < la {
        assert(proper_prefix(b@, a@));
        TextOrder::After
    } else {
        assert(a@ =~= b@);
        TextOrder::Same
    }
}

/// Are the two texts equal?
pub fn same_text(a: &str, b: &str) -> (r: bool)
    ensures
        r == (a@ == b@),
{
    let o = compare_text(a, b);
    match o {
        TextOrder::Same => true,
        _ => false,
    }
}

/// Something that is identified, and ordered, by a text key.
pub trait TextKeyed {
    spec fn key_text(&self) -> Seq<char>;

    fn key_str(&self) -> (r: &str)
        ensures
            r@ == self.key_text(),
    ;
}

impl TextKeyed for String {
    open spec fn key_text(&self) -> Seq<char> {
        self@
    }

    fn key_str(&self) -> (r: &str) {
        self.as_str()
    }
}

/// The keys of `s` strictly increase, so no key occurs twice.
pub open spec fn strictly_sorted<T: TextKeyed>(s: Seq<T>) -> bool {
    forall|i: int, j: int|
        0 <= i < j < s.len() ==> text_lt((#[trigger] s[i]).key_text(), (#[trigger] s[j]).key_text())
}

/// Is some element of `s` keyed by `key`?
pub open spec fn has_key<T: TextKeyed>(s: Seq<T>, key: Seq<char>) -> bool {
    exists|i: int| 0 <= i < s.len() && (#[trigger] s[i]).key_text() == key
}

/// `i` is where an element keyed by `key` belongs in `s`: every key before it is smaller and
/// every key from it on is larger.
pub open spec fn gap_for<T: TextKeyed>(s: Seq<T>, key: Seq<char>, i: int) -> bool {
    &&& 0 <= i <= s.len()
    &&& forall|j: int| 0 <= j < i ==> text_lt((#[trigger] s[j]).key_text(), key)
    &&& forall|j: int| i <= j < s.len() ==> text_lt(key, (#[trigger] s[j]).key_text())
}

/// Binary search of a strictly sorted vector by key: `Ok` with the position of the element with
/// that key, or `Err` with the position where such an element would go.
pub fn search_sorted<T: TextKeyed>(v: &Vec<T>, key: &str) -> (r: Result<usize, usize>)
    requires
        strictly_sorted(v@),
    ensures
        r matches Ok(i) ==> i < v.len() && v@[i as int].key_text() == key@,
        r matches Err(i) ==> gap_for(v@, key@, i as int),
        r is Ok <==> has_key(v@, key@),
{
    let mut lo: usize = 0;
    let mut hi: usize = v.len();
    while lo < hi
        invariant
            strictly_sorted(v@),
            0 <= lo <= hi <= v.len(),
            forall|j: int| 0 <= j < lo ==> text_lt((#[trigger] v@[j]).key_text(), key@),
            forall|j: int| hi <= j < v.len() ==> text_lt(key@, (#[trigger] v@[j]).key_text()),
        decreases hi - lo,
    {
        let mid = lo + (hi - lo) / 2;
        let o = compare_text(v[mid].key_str(), key);
        match o {
            TextOrder::Same => {
                return Ok(mid);
            },
            TextOrder::Before => {
                assert forall|j: int| 0 <= j < mid + 1 implies text_lt(
                    (#[trigger] v@[j]).key_text(),
                    key@,
                ) by {
                    if j < mid {
                        text_lt_transitive(v@[j].key_text(), v@[mid as int].key_text(), key@);
                    }
                }
                lo = mid + 1;
            },
            TextOrder::After => {
                assert forall|j: int| mid <= j < v.len() implies text_lt(
                    key@,
                    (#[trigger] v@[j]).key_text(),
                ) by {
                    if j > mid {
                        text_lt_transitive(key@, v@[mid as int].key_text(), v@[j].key_text());
                    }
                }
                hi = mid;
            },
        }
    }
    proof {
        if has_key(v@, key@) {
            let j = choose|j: int| 0 <= j < v@.len() && (#[trigger] v@[j]).key_text() == key@;
            text_lt_irreflexive(key@);
        }
    }
    Err(lo)
}

/// Inserting an element at the gap for its key keeps the vector strictly sorted.
pub proof fn insert_at_gap_keeps_sorted<T: TextKeyed>(s: Seq<T>, x: T, i: int)
    requires
        strictly_sorted(s),
        gap_for(s, x.key_text(), i),
    ensures
        strictly_sorted(s.insert(i, x)),
{
    let t = s.insert(i, x);
    assert forall|a: int, b: int| 0 <= a < b < t.len() implies text_lt(
        (#[trigger] t[a]).key_text(),
        (#[trigger] t[b]).key_text(),
    ) by {
        if b < i {
            assert(t[a] == s[a] && t[b] == s[b]);
        } else if b == i {
            assert(t[a] == s[a]);
        } else if a == i {
            assert(t[b] == s[b - 1]);
        } else if a < i {
            assert(t[a] == s[a] && t[b] == s[b - 1]);
        } else {
            assert(t[a] == s[a - 1] && t[b] == s[b - 1]);
        }
    }
}

/// The elements of a strictly sorted vector, looked up by key.
pub open spec fn keyed_map<T: TextKeyed>(s: Seq<T>) -> Map<Seq<char>, T> {
    Map::new(
        |t: Seq<char>| has_key(s, t),
        |t: Seq<char>| s[choose|i: int| 0 <= i < s.len() && #[trigger] s[i].key_text() == t],
    )
}

/// The keys of a vector, as a set.
pub open spec fn key_set<T: TextKeyed>(s: Seq<T>) -> Set<Seq<char>> {
    Set::new(|t: Seq<char>| has_key(s, t))
}

/// In a strictly sorted vector, the element at `i` is the one its key finds.
pub proof fn keyed_map_at<T: TextKeyed>(s: Seq<T>, i: int)
    requires
        strictly_sorted(s),
        0 <= i < s.len(),
    ensures
        keyed_map(s).dom().contains(s[i].key_text()),
        keyed_map(s)[s[i].key_text()] == s[i],
{
    let t = s[i].key_text();
    assert(has_key(s, t));
    let j = choose|j: int| 0 <= j < s.len() && #[trigger] s[j].key_text() == t;
    if j != i {
        text_lt_irreflexive(t);
    }
}

/// Inserting at the gap for a new key adds that key to the map view.
pub proof fn keyed_map_insert<T: TextKeyed>(s: Seq<T>, x: T, i: int)
    requires
        strictly_sorted(s),
        gap_for(s, x.key_text(), i),
    ensures
        strictly_sorted(s.insert(i, x)),
        !has_key(s, x.key_text()),
        keyed_map(s.insert(i, x)) == keyed_map(s).insert(x.key_text(), x),
{
    insert_at_gap_keeps_sorted(s, x, i);
    let t = s.insert(i, x);
    if has_key(s, x.key_text()) {
        let j = choose|j: int| 0 <= j < s.len() && #[trigger] s[j].key_text() == x.key_text();
        text_lt_irreflexive(x.key_text());
    }
    let target = keyed_map(s).insert(x.key_text(), x);
    assert forall|u: Seq<char>| #[trigger] keyed_map(t).dom().contains(u) <==> target.dom().contains(u) by {
        if has_key(t, u) {
            let j = choose|j: int| 0 <= j < t.len() && #[trigger] t[j].key_text() == u;
            if j < i {
                assert(s[j] == t[j]);
            } else if j > i {
                assert(s[j - 1] == t[j]);
            }
        }
        if has_key(s, u) {
            let j = choose|j: int| 0 <= j < s.len() && #[trigger] s[j].key_text() == u;
            if j < i {
                assert(s[j] == t[j]);
            } else {
                assert(s[j] == t[j + 1]);
            }
        }
        if u == x.key_text() {
            assert(t[i].key_text() == u);
        }
    }
    assert forall|u: Seq<char>| keyed_map(t).dom().contains(u) implies #[trigger] keyed_map(t)[u] == target[u] by {
        let j = choose|j: int| 0 <= j < t.len() && #[trigger] t[j].key_text() == u;
        keyed_map_at(t, j);
        if j < i {
            assert(s[j] == t[j]);
            keyed_map_at(s, j);
        } else if j > i {
            assert(s[j - 1] == t[j]);
            keyed_map_at(s, j - 1);
        }
    }
    assert(keyed_map(t) =~= target);
}

/// Replacing an element by one with the same key replaces it in the map view.
pub proof fn keyed_map_update<T: TextKeyed>(s: Seq<T>, i: int, x: T)
    requires
        strictly_sorted(s),
        0 <= i < s.len(),
        x.key_text() == s[i].key_text(),
    ensures
        strictly_sorted(s.update(i, x)),
        keyed_map(s.update(i, x)) == keyed_map(s).insert(x.key_text(), x),
{
    let t = s.update(i, x);
    assert forall|a: int, b: int| 0 <= a < b < t.len() implies text_lt(
        (#[trigger] t[a]).key_text(),
        (#[trigger] t[b]).key_text(),
    ) by {
        assert(s[a].key_text() == t[a].key_text() && s[b].key_text() == t[b].key_text());
    }
    let target = keyed_map(s).insert(x.key_text(), x);
    assert forall|u: Seq<char>| #[trigger] keyed_map(t).dom().contains(u) <==> target.dom().contains(u) by {
        if has_key(t, u) {
            let j = choose|j: int| 0 <= j < t.len() && #[trigger] t[j].key_text() == u;
            assert(s[j].key_text() == u);
        }
        if has_key(s, u) {
            let j = choose|j: int| 0 <= j < s.len() && #[trigger] s[j].key_text() == u;
            assert(t[j].key_text() == u);
        }
    }
    assert forall|u: Seq<char>| keyed_map(t).dom().contains(u) implies #[trigger] keyed_map(t)[u] == target[u] by {
        let j = choose|j: int| 0 <= j < t.len() && #[trigger] t[j].key_text() == u;
        keyed_map_at(t, j);
        if j != i {
            keyed_map_at(s, j);
            if u == x.key_text() {
                keyed_map_at(s, i);
                text_lt_irreflexive(u);
            }
        }
    }
    assert(keyed_map(t) =~= target);
}

/// Does `needle` occur in `haystack` at position `i`?
pub open spec fn occurs_at(haystack: Seq<char>, needle: Seq<char>, i: int) -> bool {
    0 <= i && i + needle.len() <= haystack.len() && haystack.subrange(i, i + needle.len()) == needle
}

/// Does `needle` occur anywhere in `haystack`? (The empty text occurs in every text.)
pub open spec fn contains_text(haystack: Seq<char>, needle: Seq<char>) -> bool {
    exists|i: int| occurs_at(haystack, needle, i)
}

/// Searches `haystack` for `needle`.
pub fn find_text(haystack: &str, needle: &str) -> (r: bool)
    ensures
        r == contains_text(haystack@, needle@),
{
    let lh = haystack.unicode_len();
    let ln = needle.unicode_len();
    if ln > lh {
        return false;
    }
    let mut i: usize = 0;
    loop
        invariant
            lh == haystack@.len(),
            ln == needle@.len(),
            ln <= lh,
            i <= lh - ln,
            forall|k: int| 0 <= k < i ==> !occurs_at(haystack@, needle@, k),
        decreases lh - ln - i,
    {
        let mut j: usize = 0;
        let mut matched = true;
        while j < ln
            invariant
                lh == haystack@.len(),
                ln == needle@.len(),
                i + ln <= lh,
                j <= ln,
                matched ==> forall|k: int| 0 <= k < j ==> haystack@[i + k] == needle@[k],
                !matched ==> !occurs_at(haystack@, needle@, i as int),
            decreases ln - j,
        {
            if haystack.get_char(i + j) != needle.get_char(j) {
                assert(haystack@.subrange(i as int, i + ln)[j as int] != needle@[j as int]);
                matched = false;
            }
            j += 1;
        }
        if matched {
            assert(haystack@.subrange(i as int, i + ln) =~= needle@);
            assert(occurs_at(haystack@, needle@, i as int));
            return true;
        }
        if i == lh - ln {
            assert forall|k: int| !occurs_at(haystack@, needle@, k) by {
                if 0 <= k < i {
                }
            }
            return false;
        }
        i += 1;
    }
}

/// A copy of an optional text.
pub fn copy_opt_text(o: &Option<String>) -> (r: Option<String>)
    ensures
        r == *o,
{
    match o {
        Some(s) => Some(s.clone()),
        None => None,
    }
}

impl<X> TextKeyed for (String, Vec<X>) {
    open spec fn key_text(&self) -> Seq<char> {
        self.0@
    }

    fn key_str(&self) -> (r: &str) {
        self.0.as_str()
    }
}

/// A list of named lists, sorted by name, read as the list of one name (empty when absent).
pub open spec fn list_at<X>(s: Seq<(String, Vec<X>)>, name: Seq<char>) -> Seq<X> {
    if has_key(s, name) {
        s[choose|k: int| 0 <= k < s.len() && #[trigger] s[k].key_text() == name].1@
    } else {
        Seq::empty()
    }
}

/// In a strictly sorted list, the entry found by a name's position is the one read by it.
pub proof fn list_at_index<X>(s: Seq<(String, Vec<X>)>, k: int)
    requires
        strictly_sorted(s),
        0 <= k < s.len(),
    ensures
        list_at(s, s[k].0@) == s[k].1@,
{
    let name = s[k].0@;
    assert(s[k].key_text() == name);
    let p = choose|p: int| 0 <= p < s.len() && #[trigger] s[p].key_text() == name;
    if p != k {
        if p < k {
            assert(text_lt(s[p].key_text(), s[k].key_text()));
        } else {
            assert(text_lt(s[k].key_text(), s[p].key_text()));
        }
        text_lt_irreflexive(name);
    }
}

/// Changing the list of one entry, but not its name, changes only that name's list.
pub proof fn list_at_update<X>(s: Seq<(String, Vec<X>)>, k: int, e: (String, Vec<X>))
    requires
        strictly_sorted(s),
        0 <= k < s.len(),
        e.0@ == s[k].0@,
    ensures
        strictly_sorted(s.update(k, e)),
        forall|name: Seq<char>|
            #[trigger] list_at(s.update(k, e), name) == if name == e.0@ {
                e.1@
            } else {
                list_at(s, name)
            },
{
    let t = s.update(k, e);
    assert forall|a: int, b: int| 0 <= a < b < t.len() implies text_lt(
        (#[trigger] t[a]).key_text(),
        (#[trigger] t[b]).key_text(),
    ) by {
        assert(s[a].key_text() == t[a].key_text());
        assert(s[b].key_text() == t[b].key_text());
    }
    list_at_index(t, k);
    assert forall|name: Seq<char>|
        #[trigger] list_at(t, name) == if name == e.0@ {
            e.1@
        } else {
            list_at(s, name)
        } by {
        if name != e.0@ {
            if has_key(s, name) {
                let p = choose|p: int| 0 <= p < s.len() && #[trigger] s[p].key_text() == name;
                list_at_index(s, p);
                assert(t[p].key_text() == name);
                list_at_index(t, p);
            }
            if has_key(t, name) {
                let p = choose|p: int| 0 <= p < t.len() && #[trigger] t[p].key_text() == name;
                assert(s[p].key_text() == name);
            }
        }
    }
}

/// Inserting a new name at its gap gives it its own list and changes no other.
pub proof fn list_at_insert<X>(s: Seq<(String, Vec<X>)>, k: int, e: (String, Vec<X>))
    requires
        strictly_sorted(s),
        gap_for(s, e.0@, k),
    ensures
        strictly_sorted(s.insert(k, e)),
        list_at(s, e.0@) == Seq::<X>::empty(),
        forall|name: Seq<char>|
            #[trigger] list_at(s.insert(k, e), name) == if name == e.0@ {
                e.1@
            } else {
                list_at(s, name)
            },
{
    let t = s.insert(k, e);
    insert_at_gap_keeps_sorted(s, e, k);
    if has_key(s, e.0@) {
        let q = choose|q: int| 0 <= q < s.len() && #[trigger] s[q].key_text() == e.0@;
        text_lt_irreflexive(e.0@);
    }
    assert(t[k] == e);
    list_at_index(t, k);
    assert forall|name: Seq<char>|
        #[trigger] list_at(t, name) == if name == e.0@ {
            e.1@
        } else {
            list_at(s, name)
        } by {
        if name != e.0@ {
            if has_key(s, name) {
                let p = choose|p: int| 0 <= p < s.len() && #[trigger] s[p].key_text() == name;
                list_at_index(s, p);
                let pp = if p < k { p } else { p + 1 };
                assert(t[pp] == s[p]);
                list_at_index(t, pp);
            }
            if has_key(t, name) {
                let p = choose|p: int| 0 <= p < t.len() && #[trigger] t[p].key_text() == name;
                if p < k {
                    assert(s[p].key_text() == name);
                } else if p > k {
                    assert(s[p - 1].key_text() == name);
                }
            }
        }
    }
}

/// The total length of the named lists.
pub open spec fn total_listed<X>(s: Seq<(String, Vec<X>)>) -> nat
    decreases s.len(),
{
    if s.len() == 0 {
        0
    } else {
        total_listed(s.drop_last()) + s.last().1@.len()
    }
}

pub proof fn total_listed_update<X>(s: Seq<(String, Vec<X>)>, k: int, e: (String, Vec<X>))
    requires
        0 <= k < s.len(),
    ensures
        total_listed(s.update(k, e)) + s[k].1@.len() == total_listed(s) + e.1@.len(),
    decreases s.len(),
{
    if k < s.len() - 1 {
        assert(s.update(k, e).drop_last() =~= s.drop_last().update(k, e));
        total_listed_update(s.drop_last(), k, e);
    } else {
        assert(s.update(k, e).drop_last() =~= s.drop_last());
    }
}

pub proof fn total_listed_insert<X>(s: Seq<(String, Vec<X>)>, k: int, e: (String, Vec<X>))
    requires
        0 <= k <= s.len(),
    ensures
        total_listed(s.insert(k, e)) == total_listed(s) + e.1@.len(),
    decreases s.len(),
{
    if k < s.len() {
        assert(s.insert(k, e).drop_last() =~= s.drop_last().insert(k, e));
        total_listed_insert(s.drop_last(), k, e);
    } else {
        assert(s.insert(k, e).drop_last() =~= s);
    }
}

} // verus!
