use vstd::prelude::*;

use crate::text::{
    gap_for, has_key, insert_at_gap_keeps_sorted, search_sorted, strictly_sorted, TextKeyed,
};

verus! {

/// A compact identifier standing for an input text identifier: the `n`th distinct input identifier
/// gets the cheap identifier `n`.
pub trait CheapID: Copy + Sized {
    spec fn index(&self) -> nat;

    fn new(x: usize) -> (id: Self)
        ensures
            id.index() == x,
    ;
}

/// An identifier as written in the input data, compared by its text.
pub trait OrigKey: TextKeyed + Sized {
    fn duplicate(&self) -> (r: Self)
        ensures
            r.key_text() == self.key_text(),
    ;
}

impl OrigKey for String {
    fn duplicate(&self) -> (r: Self) {
        self.clone()
    }
}

#[derive(Clone, Copy, Debug, PartialEq, Eq, PartialOrd, Ord, Hash, Structural)]
pub struct StopID(pub usize);

#[derive(Clone, Copy, Debug, PartialEq, Eq, PartialOrd, Ord, Hash, Structural)]
pub struct TripID(pub usize);

impl CheapID for StopID {
    open spec fn index(&self) -> nat {
        self.0 as nat
    }

    fn new(x: usize) -> (id: Self) {
        StopID(x)
    }
}

impl CheapID for TripID {
    open spec fn index(&self) -> nat {
        self.0 as nat
    }

    fn new(x: usize) -> (id: Self) {
        TripID(x)
    }
}

/// Why an `IDMapping` operation failed; each carries the input identifier's text.
#[derive(Clone, Debug, PartialEq, Eq)]
pub enum IdError {
    /// `insert_new` was given an identifier that is already mapped.
    Duplicate(String),
    /// `lookup` was given an identifier that is not mapped.
    Unknown(String),
}

/// Maps input identifiers to cheap ones, numbering them in the order they are added.
///
/// The input identifiers are kept sorted by their text, so iterating follows that order.
pub struct IDMapping<K, V> {
    keys: Vec<K>,
    values: Vec<V>,
}

impl<K: OrigKey, V: CheapID> IDMapping<K, V> {
    /// The input identifiers, in text order.
    pub closed spec fn keys(&self) -> Seq<K> {
        self.keys@
    }

    /// The cheap identifier of each input identifier in `keys`, position by position.
    pub closed spec fn values(&self) -> Seq<V> {
        self.values@
    }

    pub closed spec fn wf(&self) -> bool {
        self.keys@.len() == self.values@.len() && strictly_sorted(self.keys@)
    }

    /// How many input identifiers are mapped.
    pub open spec fn count(&self) -> nat {
        self.keys().len()
    }

    /// The index of the cheap identifier of each mapped input text.
    pub open spec fn mapping(&self) -> Map<Seq<char>, nat> {
        Map::new(
            |t: Seq<char>| has_key(self.keys(), t),
            |t: Seq<char>|
                self.values()[choose|i: int|
                    0 <= i < self.keys().len() && #[trigger] self.keys()[i].key_text() == t].index(),
        )
    }

    pub fn new() -> (m: Self)
        ensures
            m.wf(),
            m.count() == 0,
            m.mapping() == Map::<Seq<char>, nat>::empty(),
    {
        let m = IDMapping { keys: Vec::new(), values: Vec::new() };
        assert(m.mapping() =~= Map::<Seq<char>, nat>::empty());
        m
    }

    /// Position `i` of the entries holds `t`, so `mapping` gives the value there.
    proof fn mapping_at(&self, i: int)
        requires
            self.wf(),
            0 <= i < self.keys().len(),
        ensures
            self.mapping().dom().contains(self.keys()[i].key_text()),
            self.mapping()[self.keys()[i].key_text()] == self.values()[i].index(),
    {
        let t = self.keys()[i].key_text();
        assert(has_key(self.keys(), t));
        let j = choose|j: int| 0 <= j < self.keys().len() && #[trigger] self.keys()[j].key_text() == t;
        if j != i {
            crate::text::text_lt_irreflexive(t);
        }
    }

    /// Gives `orig` the next cheap identifier. Fails when `orig` is already mapped; the input identifier
    /// is then remapped to the identifier it would have received, and no new entry is added.
    pub fn insert_new(&mut self, orig: K) -> (r: Result<V, IdError>)
        requires
            old(self).wf(),
        ensures
            final(self).wf(),
            match r {
                Ok(v) => {
                    &&& !old(self).mapping().dom().contains(orig.key_text())
                    &&& v.index() == old(self).count()
                    &&& final(self).count() == old(self).count() + 1
                    &&& final(self).mapping() == old(self).mapping().insert(orig.key_text(), old(self).count())
                    &&& (final(self).mapping(), final(self).count()) == after_step(
                        (old(self).mapping(), old(self).count()),
                        MappingStep::InsertNew(orig.key_text()),
                    )
                },
                Err(e) => {
                    &&& old(self).mapping().dom().contains(orig.key_text())
                    &&& (e matches IdError::Duplicate(t) && t@ == orig.key_text())
                    &&& final(self).count() == old(self).count()
                    &&& final(self).mapping() == old(self).mapping().insert(orig.key_text(), old(self).count())
                },
            },
    {
        let n = self.keys.len();
        let found = search_sorted(&self.keys, orig.key_str());
        match found {
            Ok(i) => {
                let key = orig.key_str();
                let text = key.to_string();
                proof {
                    vstd::string::to_string_from_display_ensures_for_str(key, text);
                }
                let ghost before = *self;
                self.values.set(i, V::new(n));
                proof {
                    self.mapping_at(i as int);
                    before.mapping_at(i as int);
                    self.mapping_matches_update(before, i as int);
                }
                Err(IdError::Duplicate(text))
            },
            Err(i) => {
                let ghost before = *self;
                let ghost key = orig.key_text();
                proof {
                    insert_at_gap_keeps_sorted(self.keys@, orig, i as int);
                }
                self.keys.insert(i, orig);
                self.values.insert(i, V::new(n));
                proof {
                    self.mapping_after_insert(before, i as int);
                }
                Ok(V::new(n))
            },
        }
    }

    proof fn mapping_matches_update(&self, before: Self, i: int)
        requires
            before.wf(),
            self.wf(),
            0 <= i < before.keys().len(),
            self.keys() == before.keys(),
            self.values() == before.values().update(i, self.values()[i]),
        ensures
            self.mapping() == before.mapping().insert(
                before.keys()[i].key_text(),
                self.values()[i].index(),
            ),
    {
        let t = before.keys()[i].key_text();
        assert forall|u: Seq<char>| #[trigger] self.mapping().dom().contains(u)
            <==> before.mapping().insert(t, self.values()[i].index()).dom().contains(u) by {
            if has_key(before.keys(), u) {
            }
        }
        assert forall|u: Seq<char>| self.mapping().dom().contains(u) implies #[trigger] self.mapping()[u]
            == before.mapping().insert(t, self.values()[i].index())[u] by {
            let j = choose|j: int| 0 <= j < self.keys().len() && #[trigger] self.keys()[j].key_text() == u;
            self.mapping_at(j);
            if j != i {
                before.mapping_at(j);
                if u == t {
                    before.mapping_at(i);
                    crate::text::text_lt_irreflexive(t);
                }
            } else {
                self.mapping_at(i);
            }
        }
        assert(self.mapping() =~= before.mapping().insert(t, self.values()[i].index()));
    }

    proof fn mapping_after_insert(&self, before: Self, i: int)
        requires
            before.wf(),
            self.wf(),
            0 <= i <= before.keys().len(),
            self.keys() == before.keys().insert(i, self.keys()[i]),
            self.values() == before.values().insert(i, self.values()[i]),
            !has_key(before.keys(), self.keys()[i].key_text()),
        ensures
            self.mapping() == before.mapping().insert(
                self.keys()[i].key_text(),
                self.values()[i].index(),
            ),
    {
        let t = self.keys()[i].key_text();
        let target = before.mapping().insert(t, self.values()[i].index());
        assert forall|u: Seq<char>| #[trigger] self.mapping().dom().contains(u)
            <==> target.dom().contains(u) by {
            if has_key(self.keys(), u) {
                let j = choose|j: int| 0 <= j < self.keys().len() && #[trigger] self.keys()[j].key_text() == u;
                if j < i {
                    assert(before.keys()[j] == self.keys()[j]);
                } else if j > i {
                    assert(before.keys()[j - 1] == self.keys()[j]);
                }
            }
            if has_key(before.keys(), u) {
                let j = choose|j: int| 0 <= j < before.keys().len() && #[trigger] before.keys()[j].key_text() == u;
                if j < i {
                    assert(before.keys()[j] == self.keys()[j]);
                } else {
                    assert(before.keys()[j] == self.keys()[j + 1]);
                }
            }
            if u == t {
                assert(self.keys()[i].key_text() == u);
            }
        }
        assert forall|u: Seq<char>| self.mapping().dom().contains(u) implies #[trigger] self.mapping()[u]
            == target[u] by {
            let j = choose|j: int| 0 <= j < self.keys().len() && #[trigger] self.keys()[j].key_text() == u;
            self.mapping_at(j);
            if j < i {
                assert(before.keys()[j] == self.keys()[j]);
                before.mapping_at(j);
            } else if j > i {
                assert(before.keys()[j - 1] == self.keys()[j]);
                before.mapping_at(j - 1);
            }
        }
        assert(self.mapping() =~= target);
    }

    /// The cheap identifier of `orig`, adding it with the next identifier when it is new.
    pub fn insert_idempotent(&mut self, orig: &K) -> (v: V)
        requires
            old(self).wf(),
        ensures
            final(self).wf(),
            old(self).mapping().dom().contains(orig.key_text()) ==> {
                &&& v.index() == old(self).mapping()[orig.key_text()]
                &&& final(self).count() == old(self).count()
                &&& final(self).mapping() == old(self).mapping()
            },
            !old(self).mapping().dom().contains(orig.key_text()) ==> {
                &&& v.index() == old(self).count()
                &&& final(self).count() == old(self).count() + 1
                &&& final(self).mapping() == old(self).mapping().insert(orig.key_text(), old(self).count())
            },
            (final(self).mapping(), final(self).count()) == after_step(
                (old(self).mapping(), old(self).count()),
                MappingStep::InsertIdempotent(orig.key_text()),
            ),
            final(self).mapping().dom().contains(orig.key_text()),
            final(self).mapping()[orig.key_text()] == v.index(),
    {
        let n = self.keys.len();
        match search_sorted(&self.keys, orig.key_str()) {
            Ok(i) => {
                proof {
                    self.mapping_at(i as int);
                }
                self.values[i]
            },
            Err(i) => {
                let ghost before = *self;
                let k = orig.duplicate();
                proof {
                    insert_at_gap_keeps_sorted(self.keys@, k, i as int);
                }
                self.keys.insert(i, k);
                self.values.insert(i, V::new(n));
                proof {
                    self.mapping_after_insert(before, i as int);
                }
                V::new(n)
            },
        }
    }

    /// The cheap identifier of `orig`, or an error when it is not mapped.
    pub fn lookup(&self, orig: &K) -> (r: Result<V, IdError>)
        requires
            self.wf(),
        ensures
            match r {
                Ok(v) => self.mapping().dom().contains(orig.key_text()) && v.index()
                    == self.mapping()[orig.key_text()],
                Err(e) => !self.mapping().dom().contains(orig.key_text()) && (e matches IdError::Unknown(
                    t,
                ) && t@ == orig.key_text()),
            },
    {
        match search_sorted(&self.keys, orig.key_str()) {
            Ok(i) => {
                proof {
                    self.mapping_at(i as int);
                }
                Ok(self.values[i])
            },
            Err(_) => {
                let key = orig.key_str();
                let text = key.to_string();
                proof {
                    vstd::string::to_string_from_display_ensures_for_str(key, text);
                }
                Err(IdError::Unknown(text))
            },
        }
    }

    /// The input identifiers in text order, and the cheap identifier of each.
    pub fn borrow(&self) -> (r: (&Vec<K>, &Vec<V>))
        requires
            self.wf(),
        ensures
            r.0@ == self.keys(),
            r.1@ == self.values(),
            r.0@.len() == r.1@.len(),
            forall|i: int|
                0 <= i < r.0@.len() ==> self.mapping().dom().contains(#[trigger] r.0@[i].key_text())
                    && self.mapping()[r.0@[i].key_text()] == r.1@[i].index(),
    {
        proof {
            assert forall|i: int| 0 <= i < self.keys@.len() implies self.mapping().dom().contains(
                #[trigger] self.keys@[i].key_text(),
            ) && self.mapping()[self.keys@[i].key_text()] == self.values@[i].index() by {
                self.mapping_at(i);
            }
        }
        (&self.keys, &self.values)
    }
}

/// Mapped input identifiers get pairwise distinct identifiers, numbered from zero with no gaps.
pub open spec fn dense_numbering(mapping: Map<Seq<char>, nat>, count: nat) -> bool {
    &&& mapping.dom().finite()
    &&& mapping.dom().len() == count
    &&& forall|t: Seq<char>| #[trigger] mapping.dom().contains(t) ==> mapping[t] < count
    &&& forall|t: Seq<char>, u: Seq<char>|
        mapping.dom().contains(t) && mapping.dom().contains(u) && t != u ==> #[trigger] mapping[t]
            != #[trigger] mapping[u]
}

/// Adding an unmapped input identifier with the next identifier keeps the numbering dense: as long as
/// no `insert_new` fails, every input identifier has its own identifier below the count.
pub proof fn fresh_insert_keeps_dense(mapping: Map<Seq<char>, nat>, count: nat, key: Seq<char>)
    requires
        dense_numbering(mapping, count),
        !mapping.dom().contains(key),
    ensures
        dense_numbering(mapping.insert(key, count), count + 1),
{
}

/// A lookup right after an insertion gives back the identifier that was inserted.
pub proof fn lookup_after_insert(mapping: Map<Seq<char>, nat>, key: Seq<char>, id: nat)
    ensures
        mapping.insert(key, id).dom().contains(key),
        mapping.insert(key, id)[key] == id,
{
}

/// A call that adds to a mapping: `insert_new` or `insert_idempotent` of an identifier's text.
pub ghost enum MappingStep {
    InsertNew(Seq<char>),
    InsertIdempotent(Seq<char>),
}

/// The mapping and count after one call. `insert_new` gives the text the next identifier;
/// `insert_idempotent` does so only for a text not yet mapped.
pub open spec fn after_step(state: (Map<Seq<char>, nat>, nat), step: MappingStep) -> (Map<Seq<char>, nat>, nat) {
    match step {
        MappingStep::InsertNew(t) => (state.0.insert(t, state.1), state.1 + 1),
        MappingStep::InsertIdempotent(t) => if state.0.dom().contains(t) {
            state
        } else {
            (state.0.insert(t, state.1), state.1 + 1)
        },
    }
}

/// The mapping and count after the calls, in order.
pub open spec fn after_steps(start: (Map<Seq<char>, nat>, nat), steps: Seq<MappingStep>) -> (Map<Seq<char>, nat>, nat)
    decreases steps.len(),
{
    if steps.len() == 0 {
        start
    } else {
        after_step(after_steps(start, steps.drop_last()), steps.last())
    }
}

/// Every `insert_new` among the calls succeeds: its text is not mapped yet when it is made.
pub open spec fn steps_succeed(start: (Map<Seq<char>, nat>, nat), steps: Seq<MappingStep>) -> bool
    decreases steps.len(),
{
    if steps.len() == 0 {
        true
    } else {
        &&& steps_succeed(start, steps.drop_last())
        &&& steps.last() matches MappingStep::InsertNew(t) ==> !after_steps(start, steps.drop_last()).0.dom().contains(t)
    }
}

/// A lookup after insertions gives back the inserted identifier: once `key` is mapped to `id`
/// (by an `insert_new` that succeeded or by `insert_idempotent`), later `insert_idempotent`
/// calls and `insert_new` calls that succeed leave `key` mapped to `id`.
pub proof fn lookup_after_insertions(start: (Map<Seq<char>, nat>, nat), key: Seq<char>, id: nat, steps: Seq<MappingStep>)
    requires
        start.0.dom().contains(key),
        start.0[key] == id,
        steps_succeed(start, steps),
    ensures
        after_steps(start, steps).0.dom().contains(key),
        after_steps(start, steps).0[key] == id,
    decreases steps.len(),
{
    if steps.len() > 0 {
        lookup_after_insertions(start, key, id, steps.drop_last());
    }
}

} // verus!
