use vstd::prelude::*;

use crate::time::Time;

verus! {

/// Two intervals overlap when they share a point other than an endpoint of both: each starts
/// before the other ends. Intervals are open, so intervals that only touch at an endpoint do not
/// overlap, while equal intervals of some length do.
pub open spec fn intervals_overlap(a: (Time, Time), b: (Time, Time)) -> bool {
    a.0.ms() < b.1.ms() && b.0.ms() < a.1.ms()
}

/// The interval of one entry.
pub open spec fn span_of<T>(e: (Time, Time, T)) -> (Time, Time) {
    (e.0, e.1)
}

/// True when `check` overlaps no interval of `entries`.
pub open spec fn free_in<T>(entries: Seq<(Time, Time, T)>, check: (Time, Time)) -> bool {
    forall|i: int| 0 <= i < entries.len() ==> !intervals_overlap(check, span_of(#[trigger] entries[i]))
}

/// Every interval runs forwards, intervals are sorted by start, and no two overlap.
pub open spec fn sorted_disjoint<T>(entries: Seq<(Time, Time, T)>) -> bool {
    &&& forall|i: int| 0 <= i < entries.len() ==> (#[trigger] entries[i]).0.ms() <= entries[i].1.ms()
    &&& forall|i: int, j: int|
        0 <= i < j < entries.len() ==> (#[trigger] entries[i]).0.ms() <= (#[trigger] entries[j]).0.ms()
    &&& forall|i: int, j: int|
        0 <= i < j < entries.len() ==> !intervals_overlap(
            span_of(#[trigger] entries[i]),
            span_of(#[trigger] entries[j]),
        )
}

/// Where `assign` places an interval ending at `end`: before the first entry that starts at or
/// after `end`, or at the back when there is none.
pub open spec fn placed_at<T>(entries: Seq<(Time, Time, T)>, end: Time, idx: int) -> bool {
    &&& 0 <= idx <= entries.len()
    &&& forall|j: int| 0 <= j < idx ==> (#[trigger] entries[j]).0.ms() < end.ms()
    &&& idx < entries.len() ==> end.ms() <= entries[idx].0.ms()
}

/// The entries after `assign` adds `obj` over `pair`.
pub open spec fn assigned<T>(entries: Seq<(Time, Time, T)>, pair: (Time, Time), obj: T) -> Seq<(Time, Time, T)> {
    let idx = choose|idx: int| placed_at(entries, pair.1, idx);
    entries.insert(idx, (pair.0, pair.1, obj))
}

proof fn placed_at_unique<T>(entries: Seq<(Time, Time, T)>, end: Time, a: int, b: int)
    requires
        placed_at(entries, end, a),
        placed_at(entries, end, b),
    ensures
        a == b,
{
    if a < b {
        assert(entries[a].0.ms() < end.ms());
    } else if b < a {
        assert(entries[b].0.ms() < end.ms());
    }
}

/// A sequence of something, with sorted time intervals. Intervals are "open": one interval may
/// end at 7am and the next start at 7am. Callers keep them from overlapping by assigning only
/// intervals that `is_free` accepts (see `assigned_keeps_sorted_disjoint`).
pub struct Timetable<T>(pub Vec<(Time, Time, T)>);

impl<T> Timetable<T> {
    pub open spec fn entries(&self) -> Seq<(Time, Time, T)> {
        self.0@
    }

    pub open spec fn well_formed(&self) -> bool {
        sorted_disjoint(self.entries())
    }

    pub fn new() -> (tt: Self)
        ensures
            tt.entries() == Seq::<(Time, Time, T)>::empty(),
            tt.well_formed(),
    {
        Timetable(Vec::new())
    }

    /// Does `check` overlap none of the intervals already assigned?
    pub fn is_free(&self, check: (Time, Time)) -> (free: bool)
        ensures
            free == free_in(self.entries(), check),
    {
        let mut i: usize = 0;
        while i < self.0.len()
            invariant
                i <= self.0.len(),
                forall|k: int| 0 <= k < i ==> !intervals_overlap(check, span_of(#[trigger] self.entries()[k])),
            decreases self.0.len() - i,
        {
            if overlaps(check, (self.0[i].0, self.0[i].1)) {
                return false;
            }
            i += 1;
        }
        true
    }

    /// Inserts an interval before the first one starting at or after its end. Callers check
    /// `is_free` first.
    pub fn assign(&mut self, pair: (Time, Time), obj: T)
        ensures
            final(self).entries() == assigned(old(self).entries(), pair, obj),
            exists|idx: int|
                placed_at(old(self).entries(), pair.1, idx) && final(self).entries() == old(
                    self,
                ).entries().insert(idx, (pair.0, pair.1, obj)),
    {
        let mut i: usize = 0;
        while i < self.0.len()
            invariant
                i <= self.0.len(),
                self.entries() == old(self).entries(),
                forall|j: int| 0 <= j < i ==> (#[trigger] self.entries()[j]).0.ms() < pair.1.ms(),
            decreases self.0.len() - i,
        {
            if pair.1.0 <= self.0[i].0.0 {
                self.0.insert(i, (pair.0, pair.1, obj));
                assert(placed_at(old(self).entries(), pair.1, i as int));
                proof {
                    let c = choose|idx: int| placed_at(old(self).entries(), pair.1, idx);
                    placed_at_unique(old(self).entries(), pair.1, c, i as int);
                }
                return;
            }
            i += 1;
        }
        assert(placed_at(old(self).entries(), pair.1, i as int));
        self.0.push((pair.0, pair.1, obj));
        assert(self.entries() == old(self).entries().insert(i as int, (pair.0, pair.1, obj)));
        proof {
            let c = choose|idx: int| placed_at(old(self).entries(), pair.1, idx);
            placed_at_unique(old(self).entries(), pair.1, c, i as int);
        }
    }
}

/// Do two intervals overlap (each starts before the other ends)?
pub fn overlaps(pair1: (Time, Time), pair2: (Time, Time)) -> (r: bool)
    ensures
        r == intervals_overlap(pair1, pair2),
{
    pair1.0.0 < pair2.1.0 && pair2.0.0 < pair1.1.0
}

/// Assigning a forward interval that `is_free` accepted keeps a sorted, disjoint timetable
/// sorted and disjoint, one entry longer.
pub proof fn assigned_keeps_sorted_disjoint<T>(entries: Seq<(Time, Time, T)>, pair: (Time, Time), obj: T)
    requires
        sorted_disjoint(entries),
        free_in(entries, pair),
        pair.0.ms() <= pair.1.ms(),
    ensures
        sorted_disjoint(assigned(entries, pair, obj)),
        assigned(entries, pair, obj).len() == entries.len() + 1,
{
    let p = placed_position(entries, pair.1);
    let c = choose|idx: int| placed_at(entries, pair.1, idx);
    placed_at_unique(entries, pair.1, c, p);
    assign_keeps_sorted_disjoint(entries, pair, obj, p);
}

proof fn placed_position<T>(entries: Seq<(Time, Time, T)>, end: Time) -> (p: int)
    ensures
        placed_at(entries, end, p),
    decreases entries.len(),
{
    if entries.len() == 0 {
        0
    } else if end.ms() <= entries[0].0.ms() {
        0
    } else {
        let q = placed_position(entries.drop_first(), end);
        assert forall|j: int| 0 <= j < q + 1 implies (#[trigger] entries[j]).0.ms() < end.ms() by {
            if j > 0 {
                assert(entries[j] == entries.drop_first()[j - 1]);
            }
        }
        q + 1
    }
}

/// Overlap does not depend on which interval comes first.
pub proof fn overlap_is_symmetric(a: (Time, Time), b: (Time, Time))
    ensures
        intervals_overlap(a, b) == intervals_overlap(b, a),
{
}

/// Two forward intervals fail to overlap exactly when one ends no later than the other starts:
/// intervals that only touch at an endpoint are apart, equal intervals of some length are not.
pub proof fn apart_when_one_ends_first(a: (Time, Time), b: (Time, Time))
    requires
        a.0.ms() <= a.1.ms(),
        b.0.ms() <= b.1.ms(),
    ensures
        !intervals_overlap(a, b) <==> (a.1.ms() <= b.0.ms() || b.1.ms() <= a.0.ms()),
        a.0.ms() < a.1.ms() ==> intervals_overlap(a, a),
{
}

/// Assigning a forward interval that `is_free` accepted keeps the timetable sorted and free of
/// overlaps, and keeps every earlier entry.
pub proof fn assign_keeps_sorted_disjoint<T>(
    before: Seq<(Time, Time, T)>,
    pair: (Time, Time),
    obj: T,
    idx: int,
)
    requires
        sorted_disjoint(before),
        free_in(before, pair),
        pair.0.ms() <= pair.1.ms(),
        placed_at(before, pair.1, idx),
    ensures
        sorted_disjoint(before.insert(idx, (pair.0, pair.1, obj))),
        before.insert(idx, (pair.0, pair.1, obj)).len() == before.len() + 1,
        before.insert(idx, (pair.0, pair.1, obj))[idx] == (pair.0, pair.1, obj),
{
    let after = before.insert(idx, (pair.0, pair.1, obj));
    let e = (pair.0, pair.1, obj);
    // Entries placed before the new one start no later than it does.
    assert forall|j: int| 0 <= j < idx implies (#[trigger] before[j]).0.ms() <= pair.0.ms() by {
        assert(!intervals_overlap(pair, span_of(before[j])));
    }
    assert forall|i: int| 0 <= i < after.len() implies (#[trigger] after[i]).0.ms() <= after[i].1.ms() by {
        if i < idx {
            assert(after[i] == before[i]);
        } else if i > idx {
            assert(after[i] == before[i - 1]);
        }
    }
    assert forall|i: int, j: int| 0 <= i < j < after.len() implies (#[trigger] after[i]).0.ms()
        <= (#[trigger] after[j]).0.ms() by {
        if j < idx {
            assert(after[i] == before[i] && after[j] == before[j]);
        } else if j == idx {
            assert(after[i] == before[i]);
        } else if i == idx {
            assert(after[j] == before[j - 1]);
            if j - 1 > idx {
                assert(before[idx].0.ms() <= before[j - 1].0.ms());
            }
        } else if i < idx {
            assert(after[i] == before[i] && after[j] == before[j - 1]);
        } else {
            assert(after[i] == before[i - 1] && after[j] == before[j - 1]);
        }
    }
    assert forall|i: int, j: int| 0 <= i < j < after.len() implies !intervals_overlap(
        span_of(#[trigger] after[i]),
        span_of(#[trigger] after[j]),
    ) by {
        if j < idx {
            assert(after[i] == before[i] && after[j] == before[j]);
        } else if j == idx {
            assert(after[i] == before[i]);
            assert(!intervals_overlap(pair, span_of(before[i])));
        } else if i == idx {
            assert(after[j] == before[j - 1]);
            assert(!intervals_overlap(pair, span_of(before[j - 1])));
        } else if i < idx {
            assert(after[i] == before[i] && after[j] == before[j - 1]);
        } else {
            assert(after[i] == before[i - 1] && after[j] == before[j - 1]);
        }
    }
}

/// The entries with each object replaced by its image under `f`.
pub open spec fn map_objects<T, U>(entries: Seq<(Time, Time, T)>, f: spec_fn(T) -> U) -> Seq<(Time, Time, U)> {
    entries.map_values(|e: (Time, Time, T)| (e.0, e.1, f(e.2)))
}

/// Whether an interval is free, and where `assign` puts it, depend only on the intervals, not on
/// the objects they hold.
pub proof fn assigned_map_objects<T, U>(entries: Seq<(Time, Time, T)>, pair: (Time, Time), obj: T, f: spec_fn(T) -> U)
    ensures
        free_in(map_objects(entries, f), pair) == free_in(entries, pair),
        map_objects(assigned(entries, pair, obj), f) == assigned(map_objects(entries, f), pair, f(obj)),
{
    let mapped = map_objects(entries, f);
    assert forall|i: int| 0 <= i < entries.len() implies span_of(#[trigger] mapped[i]) == span_of(entries[i]) by {
    }
    if free_in(entries, pair) {
        assert forall|i: int| 0 <= i < mapped.len() implies !intervals_overlap(pair, span_of(#[trigger] mapped[i])) by {
            assert(span_of(mapped[i]) == span_of(entries[i]));
        }
    }
    if free_in(mapped, pair) {
        assert forall|i: int| 0 <= i < entries.len() implies !intervals_overlap(pair, span_of(#[trigger] entries[i])) by {
            assert(span_of(mapped[i]) == span_of(entries[i]));
        }
    }
    let p = placed_position(entries, pair.1);
    let c = choose|idx: int| placed_at(entries, pair.1, idx);
    placed_at_unique(entries, pair.1, c, p);
    assert(placed_at(mapped, pair.1, p)) by {
        assert forall|j: int| 0 <= j < p implies (#[trigger] mapped[j]).0.ms() < pair.1.ms() by {
            assert(mapped[j].0 == entries[j].0);
        }
        if p < mapped.len() {
            assert(mapped[p].0 == entries[p].0);
        }
    }
    let d = choose|idx: int| placed_at(mapped, pair.1, idx);
    placed_at_unique(mapped, pair.1, d, p);
    assert(map_objects(entries.insert(p, (pair.0, pair.1, obj)), f) =~= mapped.insert(p, (pair.0, pair.1, f(obj))));
}

} // verus!
