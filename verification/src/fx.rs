//! Maps from byte strings, on top of the Fx hash table.
use rustc_hash::FxHashMap;
use vstd::prelude::*;

use crate::bytes;

verus! {

/// The hasher state of an `FxHashMap`; it is only carried along.
#[verifier::external_type_specification]
#[verifier::external_body]
pub struct ExFxBuildHasher(rustc_hash::FxBuildHasher);

/// What a hash table from byte strings to numbers holds.
pub uninterp spec fn table(t: FxHashMap<Vec<u8>, usize>) -> Map<Seq<u8>, usize>;

/// The contents of an empty table.
pub open spec fn empty_table() -> Map<Seq<u8>, usize> {
    Map::empty()
}

/// `FxHashMap::default`: a table that holds nothing.
#[verifier::external_body]
fn table_new() -> (t: FxHashMap<Vec<u8>, usize>)
    ensures
        table(t) == empty_table(),
{
    FxHashMap::default()
}

/// `HashMap::get` on an `FxHashMap`: the number held under the bytes of `key`, if there is one.
#[verifier::external_body]
fn table_get(t: &FxHashMap<Vec<u8>, usize>, key: &[u8]) -> (r: Option<usize>)
    ensures
        r == (if table(*t).dom().contains(key@) {
            Some(table(*t)[key@])
        } else {
            None
        }),
{
    t.get(key).copied()
}

/// `HashMap::insert` on an `FxHashMap`: puts `n` under the bytes of `key`, in place of what was
/// there.
#[verifier::external_body]
fn table_insert(t: &mut FxHashMap<Vec<u8>, usize>, key: Vec<u8>, n: usize)
    ensures
        table(*final(t)) == table(*old(t)).insert(key@, n),
{
    t.insert(key, n);
}

/// `HashMap::remove` on an `FxHashMap`: takes out what is held under the bytes of `key`.
#[verifier::external_body]
fn table_remove(t: &mut FxHashMap<Vec<u8>, usize>, key: &[u8])
    ensures
        table(*final(t)) == table(*old(t)).remove(key@),
{
    t.remove(key);
}

/// `HashMap::clear` on an `FxHashMap`: takes everything out.
#[verifier::external_body]
fn table_clear(t: &mut FxHashMap<Vec<u8>, usize>)
    ensures
        table(*final(t)) == empty_table(),
{
    t.clear();
}

/// `items` without the one at `i`, into whose place the last one moves.
pub open spec fn swapped_out<V>(items: Seq<(Vec<u8>, V)>, i: int) -> Seq<(Vec<u8>, V)> {
    items.update(i, items.last()).drop_last()
}

/// The weights of the pairs' values, added up.
pub open spec fn total<V>(items: Seq<(Vec<u8>, V)>, weight: spec_fn(V) -> nat) -> nat
    decreases items.len(),
{
    if items.len() == 0 {
        0
    } else {
        total(items.drop_last(), weight) + weight(items.last().1)
    }
}

/// A pair more adds its weight.
pub proof fn lemma_total_push<V>(
    items: Seq<(Vec<u8>, V)>,
    p: (Vec<u8>, V),
    weight: spec_fn(V) -> nat,
)
    ensures
        total(items.push(p), weight) == total(items, weight) + weight(p.1),
{
    assert(items.push(p).drop_last() =~= items);
}

/// A pair in the place of another adds its own weight in place of the other's.
pub proof fn lemma_total_update<V>(
    items: Seq<(Vec<u8>, V)>,
    i: int,
    p: (Vec<u8>, V),
    weight: spec_fn(V) -> nat,
)
    requires
        0 <= i < items.len(),
    ensures
        total(items.update(i, p), weight) + weight(items[i].1) == total(items, weight) + weight(p.1),
    decreases items.len(),
{
    if i == items.len() - 1 {
        assert(items.update(i, p).drop_last() =~= items.drop_last());
    } else {
        assert(items.update(i, p).drop_last() =~= items.drop_last().update(i, p));
        lemma_total_update(items.drop_last(), i, p, weight);
    }
}

/// A pair less takes its weight away.
pub proof fn lemma_total_swapped_out<V>(
    items: Seq<(Vec<u8>, V)>,
    i: int,
    weight: spec_fn(V) -> nat,
)
    requires
        0 <= i < items.len(),
    ensures
        total(swapped_out(items, i), weight) + weight(items[i].1) == total(items, weight),
{
    let last = items.last();
    lemma_total_update(items, i, last, weight);
    assert(items.update(i, last).last() == last);
}

/// A map from byte strings. The pairs stand in a vector, and the hash table holds the place of
/// each key in it.
pub struct FxMap<V> {
    items: Vec<(Vec<u8>, V)>,
    places: FxHashMap<Vec<u8>, usize>,
}

impl<V> FxMap<V> {
    /// The pairs, in the order in which they are walked.
    pub closed spec fn items(&self) -> Seq<(Vec<u8>, V)> {
        self.items@
    }

    /// Every pair is found at the place that the table holds for its key, and the table holds no
    /// other key.
    pub closed spec fn wf(&self) -> bool {
        &&& forall|i: int|
            0 <= i < self.items@.len() ==> table(self.places).dom().contains(
                (#[trigger] self.items@[i]).0@,
            ) && table(self.places)[self.items@[i].0@] == i
        &&& forall|k: Seq<u8>| #[trigger]
            table(self.places).dom().contains(k) ==> table(self.places)[k] < self.items@.len()
                && self.items@[table(self.places)[k] as int].0@ == k
    }

    /// What the map holds.
    pub closed spec fn view(&self) -> Map<Seq<u8>, V> {
        Map::new(
            |k: Seq<u8>| table(self.places).dom().contains(k),
            |k: Seq<u8>| self.items@[table(self.places)[k] as int].1,
        )
    }

    /// Where the pair of a key stands in the walk.
    pub closed spec fn place(&self, k: Seq<u8>) -> int {
        table(self.places)[k] as int
    }

    /// How the walked pairs and the contents hang together: each pair is in the map, each key of
    /// the map is walked, and no key is walked twice.
    pub proof fn lemma_items(&self)
        requires
            self.wf(),
        ensures
            forall|i: int|
                0 <= i < self.items().len() ==> self@.dom().contains(
                    (#[trigger] self.items()[i]).0@,
                ) && self@[self.items()[i].0@] == self.items()[i].1,
            forall|k: Seq<u8>| #[trigger]
                self@.dom().contains(k) ==> exists|i: int|
                    0 <= i < self.items().len() && (#[trigger] self.items()[i]).0@ == k,
            forall|i: int, j: int|
                0 <= i < self.items().len() && 0 <= j < self.items().len() && (
                #[trigger] self.items()[i]).0@ == (#[trigger] self.items()[j]).0@ ==> i == j,
            forall|k: Seq<u8>| #[trigger]
                self@.dom().contains(k) ==> 0 <= self.place(k) < self.items().len()
                    && self.items()[self.place(k)].0@ == k && self.items()[self.place(k)].1
                    == self@[k],
    {
        assert forall|k: Seq<u8>| #[trigger] self@.dom().contains(k) implies exists|i: int|
            0 <= i < self.items().len() && (#[trigger] self.items()[i]).0@ == k by {
            assert(self.items()[table(self.places)[k] as int].0@ == k);
        }
    }

    pub fn new() -> (r: Self)
        ensures
            r.wf(),
            r@ == Map::<Seq<u8>, V>::empty(),
            r.items() == Seq::<(Vec<u8>, V)>::empty(),
    {
        let r = FxMap { items: Vec::new(), places: table_new() };
        assert(r@ =~= Map::<Seq<u8>, V>::empty());
        r
    }

    /// How many keys the map holds.
    pub fn len(&self) -> (n: usize)
        requires
            self.wf(),
        ensures
            n == self.items().len(),
            self@.dom().finite(),
            n == self@.dom().len(),
    {
        proof {
            self.lemma_len();
        }
        self.items.len()
    }

    /// As many pairs are walked as the map has keys.
    pub proof fn lemma_len(&self)
        requires
            self.wf(),
        ensures
            self@.dom().finite(),
            self@.dom().len() == self.items().len(),
    {
        let keys = self.items@.map_values(|p: (Vec<u8>, V)| p.0@);
        assert(keys.no_duplicates()) by {
            assert forall|i: int, j: int|
                0 <= i < keys.len() && 0 <= j < keys.len() && i != j implies keys[i] != keys[j] by {
                assert(keys[i] == self.items@[i].0@);
                assert(keys[j] == self.items@[j].0@);
            }
        }
        assert(keys.to_set() =~= self@.dom()) by {
            assert forall|k: Seq<u8>| self@.dom().contains(k) implies keys.to_set().contains(k) by {
                assert(keys[table(self.places)[k] as int] == k);
            }
            assert forall|k: Seq<u8>| keys.to_set().contains(k) implies self@.dom().contains(k) by {
                let i = choose|i: int| 0 <= i < keys.len() && keys[i] == k;
                assert(self.items@[i].0@ == k);
            }
        }
        keys.unique_seq_to_set();
    }

    /// The pair at place `i` of the walk.
    pub fn item(&self, i: usize) -> (r: &(Vec<u8>, V))
        requires
            i < self.items().len(),
        ensures
            *r == self.items()[i as int],
    {
        &self.items[i]
    }

    pub fn contains(&self, key: &[u8]) -> (r: bool)
        requires
            self.wf(),
        ensures
            r == self@.dom().contains(key@),
    {
        table_get(&self.places, key).is_some()
    }

    pub fn get(&self, key: &[u8]) -> (r: Option<&V>)
        requires
            self.wf(),
        ensures
            match r {
                Some(v) => self@.dom().contains(key@) && *v == self@[key@],
                None => !self@.dom().contains(key@),
            },
    {
        match table_get(&self.places, key) {
            Some(i) => Some(&self.items[i].1),
            None => None,
        }
    }

    /// Puts `v` under `key`; gives back what was there.
    pub fn insert(&mut self, key: Vec<u8>, v: V) -> (r: Option<V>)
        requires
            old(self).wf(),
        ensures
            final(self).wf(),
            final(self)@ == old(self)@.insert(key@, v),
            final(self).items() == (if old(self)@.dom().contains(key@) {
                old(self).items().update(old(self).place(key@), (key, v))
            } else {
                old(self).items().push((key, v))
            }),
            match r {
                Some(o) => old(self)@.dom().contains(key@) && o == old(self)@[key@],
                None => !old(self)@.dom().contains(key@),
            },
    {
        match table_get(&self.places, key.as_slice()) {
            Some(i) => {
                let ghost k = key@;
                self.items.push((key, v));
                let o = self.items.swap_remove(i);
                assert(self@ =~= old(self)@.insert(k, v));
                Some(o.1)
            },
            None => {
                let n: usize = self.items.len();
                let copy = bytes::to_owned(key.as_slice());
                let ghost k = key@;
                table_insert(&mut self.places, copy, n);
                self.items.push((key, v));
                assert(self@ =~= old(self)@.insert(k, v));
                None
            },
        }
    }

    /// Takes out what is under `key` and gives it back.
    pub fn remove(&mut self, key: &[u8]) -> (r: Option<V>)
        requires
            old(self).wf(),
        ensures
            final(self).wf(),
            final(self)@ == old(self)@.remove(key@),
            final(self).items() == (if old(self)@.dom().contains(key@) {
                swapped_out(old(self).items(), old(self).place(key@))
            } else {
                old(self).items()
            }),
            match r {
                Some(o) => old(self)@.dom().contains(key@) && o == old(self)@[key@],
                None => !old(self)@.dom().contains(key@),
            },
    {
        match table_get(&self.places, key) {
            Some(i) => {
                table_remove(&mut self.places, key);
                let o = self.items.swap_remove(i);
                if i < self.items.len() {
                    let moved = bytes::to_owned(self.items[i].0.as_slice());
                    table_insert(&mut self.places, moved, i);
                }
                assert(self.wf()) by {
                    assert forall|k: Seq<u8>| #[trigger]
                        table(self.places).dom().contains(k) implies table(self.places)[k]
                        < self.items@.len() && self.items@[table(self.places)[k] as int].0@ == k by {
                        assert(table(old(self).places).dom().contains(k));
                        let p = table(old(self).places)[k];
                        assert(old(self).items@[p as int].0@ == k);
                    }
                }
                assert(self@ =~= old(self)@.remove(key@));
                Some(o.1)
            },
            None => {
                assert(self@ =~= old(self)@.remove(key@));
                None
            },
        }
    }

    /// The value under `key`, to be changed in place.
    pub fn get_mut(&mut self, key: &[u8]) -> (r: Option<&mut V>)
        requires
            old(self).wf(),
        ensures
            match r {
                Some(v) => {
                    &&& old(self)@.dom().contains(key@)
                    &&& *v == old(self)@[key@]
                    &&& final(self).wf()
                    &&& final(self)@ == old(self)@.insert(key@, *final(v))
                    &&& final(self).items() == old(self).items().update(
                        old(self).place(key@),
                        (old(self).items()[old(self).place(key@)].0, *final(v)),
                    )
                },
                None => !old(self)@.dom().contains(key@) && *final(self) == *old(self),
            },
    {
        match table_get(&self.places, key) {
            Some(i) => Some(&mut self.items[i].1),
            None => None,
        }
    }

    /// Takes out the last pair of the walk.
    pub fn pop(&mut self) -> (r: Option<(Vec<u8>, V)>)
        requires
            old(self).wf(),
        ensures
            final(self).wf(),
            match r {
                Some(p) => {
                    &&& old(self).items().len() > 0
                    &&& p == old(self).items().last()
                    &&& old(self)@.dom().contains(p.0@)
                    &&& old(self)@[p.0@] == p.1
                    &&& final(self)@ == old(self)@.remove(p.0@)
                    &&& final(self).items() == old(self).items().drop_last()
                },
                None => {
                    &&& old(self).items().len() == 0
                    &&& final(self)@ == old(self)@
                    &&& final(self).items() == old(self).items()
                },
            },
    {
        match self.items.pop() {
            Some(p) => {
                proof {
                    old(self).lemma_items();
                    assert(old(self).items()[old(self).items().len() - 1] == p);
                    assert(self.items@ =~= old(self).items@.drop_last());
                }
                table_remove(&mut self.places, p.0.as_slice());
                assert(self.wf()) by {
                    assert forall|k: Seq<u8>| #[trigger]
                        table(self.places).dom().contains(k) implies table(self.places)[k]
                        < self.items@.len() && self.items@[table(self.places)[k] as int].0@ == k by {
                        assert(table(old(self).places).dom().contains(k));
                        assert(old(self).items@[table(old(self).places)[k] as int].0@ == k);
                    }
                }
                assert(self@ =~= old(self)@.remove(p.0@));
                assert(self.items() == old(self).items().drop_last());
                Some(p)
            },
            None => None,
        }
    }

    pub fn clear(&mut self)
        ensures
            final(self).wf(),
            final(self)@ == Map::<Seq<u8>, V>::empty(),
            final(self).items() == Seq::<(Vec<u8>, V)>::empty(),
    {
        self.items.clear();
        table_clear(&mut self.places);
        assert(self@ =~= Map::<Seq<u8>, V>::empty());
    }
}

} // verus!
