//! The table of a store: its entries in a vector, no key twice, seen as a
//! map from keys to entries.

use vstd::prelude::*;
use crate::item::{live, ItemView, StoredValue};
use crate::text::str_eq;

verus! {

/// One key with its entry.
pub struct Entry {
    pub key: String,
    pub item: StoredValue,
}

/// The map that a list of entries stands for.
pub open spec fn entries_map(es: Seq<Entry>) -> Map<Seq<char>, ItemView>
    decreases es.len(),
{
    if es.len() == 0 {
        Map::empty()
    } else {
        entries_map(es.drop_last()).insert(es.last().key@, es.last().item@)
    }
}

/// Whether no key occurs twice.
pub open spec fn distinct_keys(es: Seq<Entry>) -> bool {
    forall|i: int, j: int| 0 <= i < j < es.len() ==> es[i].key@ != es[j].key@
}

/// The entry at time `now` under a key, unless it has expired.
pub open spec fn lookup(m: Map<Seq<char>, ItemView>, k: Seq<char>, now: int) -> Option<ItemView> {
    if m.contains_key(k) && live(m[k], now) {
        Some(m[k])
    } else {
        None
    }
}

/// The map without the entry under `k` if that entry has expired.
pub open spec fn purged(m: Map<Seq<char>, ItemView>, k: Seq<char>, now: int) -> Map<Seq<char>, ItemView> {
    if m.contains_key(k) && !live(m[k], now) {
        m.remove(k)
    } else {
        m
    }
}

/// The map without any entry that has expired.
pub open spec fn purge_all(m: Map<Seq<char>, ItemView>, now: int) -> Map<Seq<char>, ItemView> {
    Map::new(|k: Seq<char>| m.contains_key(k) && live(m[k], now), |k: Seq<char>| m[k])
}

pub proof fn lemma_map_contains(es: Seq<Entry>, k: Seq<char>)
    ensures
        entries_map(es).contains_key(k) <==> exists|i: int| 0 <= i < es.len() && es[i].key@ == k,
    decreases es.len(),
{
    if es.len() > 0 {
        lemma_map_contains(es.drop_last(), k);
        if entries_map(es).contains_key(k) && es.last().key@ != k {
            let i = choose|i: int| 0 <= i < es.drop_last().len() && es.drop_last()[i].key@ == k;
            assert(es[i].key@ == k);
        }
        if exists|i: int| 0 <= i < es.len() && es[i].key@ == k {
            let i = choose|i: int| 0 <= i < es.len() && es[i].key@ == k;
            if i < es.len() - 1 {
                assert(es.drop_last()[i].key@ == k);
            }
        }
    }
}

pub proof fn lemma_map_index(es: Seq<Entry>, i: int)
    requires
        distinct_keys(es),
        0 <= i < es.len(),
    ensures
        entries_map(es).contains_key(es[i].key@),
        entries_map(es)[es[i].key@] == es[i].item@,
    decreases es.len(),
{
    if i < es.len() - 1 {
        let p = es.drop_last();
        assert(p[i] == es[i]);
        lemma_map_index(p, i);
        assert(es.last().key@ != es[i].key@);
    }
}

pub proof fn lemma_map_update(es: Seq<Entry>, i: int, e: Entry)
    requires
        distinct_keys(es),
        0 <= i < es.len(),
        e.key@ == es[i].key@,
    ensures
        distinct_keys(es.update(i, e)),
        entries_map(es.update(i, e)) == entries_map(es).insert(e.key@, e.item@),
    decreases es.len(),
{
    let u = es.update(i, e);
    if i == es.len() - 1 {
        assert(u.drop_last() =~= es.drop_last());
        assert(entries_map(u) =~= entries_map(es).insert(e.key@, e.item@));
    } else {
        let p = es.drop_last();
        lemma_map_update(p, i, e);
        assert(u.drop_last() =~= p.update(i, e));
        assert(u.last() == es.last());
        assert(es.last().key@ != e.key@);
        assert(entries_map(u) =~= entries_map(es).insert(e.key@, e.item@));
    }
}

pub proof fn lemma_map_remove(es: Seq<Entry>, i: int)
    requires
        distinct_keys(es),
        0 <= i < es.len(),
    ensures
        distinct_keys(es.remove(i)),
        entries_map(es.remove(i)) == entries_map(es).remove(es[i].key@),
    decreases es.len(),
{
    let r = es.remove(i);
    let k = es[i].key@;
    if i == es.len() - 1 {
        assert(r =~= es.drop_last());
        lemma_map_contains(es.drop_last(), k);
        assert(!entries_map(es.drop_last()).contains_key(k)) by {
            if entries_map(es.drop_last()).contains_key(k) {
                let j = choose|j: int| 0 <= j < es.drop_last().len() && es.drop_last()[j].key@ == k;
                assert(es[j].key@ == k);
            }
        }
        assert(entries_map(r) =~= entries_map(es).remove(k));
    } else {
        let p = es.drop_last();
        lemma_map_remove(p, i);
        assert(r.drop_last() =~= p.remove(i));
        assert(r.last() == es.last());
        assert(es.last().key@ != k);
        assert(entries_map(r) =~= entries_map(es).remove(k));
    }
}

pub proof fn lemma_map_push(es: Seq<Entry>, e: Entry)
    requires
        distinct_keys(es),
        !entries_map(es).contains_key(e.key@),
    ensures
        distinct_keys(es.push(e)),
        entries_map(es.push(e)) == entries_map(es).insert(e.key@, e.item@),
{
    lemma_map_contains(es, e.key@);
    assert(es.push(e).drop_last() =~= es);
    assert forall|i: int, j: int| 0 <= i < j < es.push(e).len() implies es.push(e)[i].key@
        != es.push(e)[j].key@ by {
        if j == es.len() {
            assert(es.push(e)[i] == es[i]);
        }
    }
}

/// The entries of a store.
pub struct Table {
    pub entries: Vec<Entry>,
}

impl Table {
    /// The map the table stands for.
    pub open spec fn map(&self) -> Map<Seq<char>, ItemView> {
        entries_map(self.entries@)
    }

    /// Whether no key occurs twice.
    pub open spec fn wf(&self) -> bool {
        distinct_keys(self.entries@)
    }

    pub fn new() -> (t: Table)
        ensures
            t.wf(),
            t.map() == Map::<Seq<char>, ItemView>::empty(),
    {
        Table { entries: Vec::new() }
    }

    /// The position of a key.
    pub fn find(&self, key: &str) -> (r: Option<usize>)
        requires
            self.wf(),
        ensures
            match r {
                Some(i) => i < self.entries@.len() && self.entries@[i as int].key@ == key@,
                None => !self.map().contains_key(key@),
            },
    {
        let mut i: usize = 0;
        while i < self.entries.len()
            invariant
                i <= self.entries@.len(),
                forall|j: int| 0 <= j < i ==> self.entries@[j].key@ != key@,
            decreases self.entries@.len() - i,
        {
            if str_eq(self.entries[i].key.as_str(), key) {
                return Some(i);
            }
            i = i + 1;
        }
        proof {
            lemma_map_contains(self.entries@, key@);
        }
        None
    }

    /// The entry under a key, whether or not it has expired.
    pub fn get(&self, key: &str) -> (r: Option<StoredValue>)
        requires
            self.wf(),
        ensures
            match r {
                Some(it) => self.map().contains_key(key@) && self.map()[key@] == it@,
                None => !self.map().contains_key(key@),
            },
    {
        match self.find(key) {
            Some(i) => {
                proof {
                    lemma_map_index(self.entries@, i as int);
                }
                Some(self.entries[i].item.duplicate())
            },
            None => None,
        }
    }

    /// Removes the entry under a key; whether there was one.
    pub fn remove(&mut self, key: &str) -> (r: bool)
        requires
            old(self).wf(),
        ensures
            final(self).wf(),
            final(self).map() == old(self).map().remove(key@),
            r == old(self).map().contains_key(key@),
    {
        match self.find(key) {
            Some(i) => {
                proof {
                    lemma_map_index(self.entries@, i as int);
                    lemma_map_remove(self.entries@, i as int);
                }
                self.entries.remove(i);
                true
            },
            None => {
                assert(self.map().remove(key@) =~= self.map());
                false
            },
        }
    }

    /// Sets the entry under a key.
    pub fn insert(&mut self, key: String, item: StoredValue)
        requires
            old(self).wf(),
        ensures
            final(self).wf(),
            final(self).map() == old(self).map().insert(key@, item@),
    {
        match self.find(key.as_str()) {
            Some(i) => {
                let ghost e = Entry { key, item };
                proof {
                    lemma_map_update(self.entries@, i as int, e);
                }
                self.entries.set(i, Entry { key, item });
            },
            None => {
                let ghost e = Entry { key, item };
                proof {
                    lemma_map_push(self.entries@, e);
                }
                self.entries.push(Entry { key, item });
            },
        }
    }

    /// Removes the entry under a key if it has expired at time `now`.
    pub fn purge_if_expired(&mut self, key: &str, now: u128)
        requires
            old(self).wf(),
        ensures
            final(self).wf(),
            final(self).map() == purged(old(self).map(), key@, now as int),
    {
        match self.find(key) {
            Some(i) => {
                proof {
                    lemma_map_index(self.entries@, i as int);
                }
                if self.entries[i].item.expired(now) {
                    proof {
                        lemma_map_remove(self.entries@, i as int);
                    }
                    self.entries.remove(i);
                }
            },
            None => {},
        }
    }

    /// Removes every entry that has expired at time `now`.
    pub fn purge_all(&mut self, now: u128)
        requires
            old(self).wf(),
        ensures
            final(self).wf(),
            final(self).map() == purge_all(old(self).map(), now as int),
    {
        let mut i: usize = 0;
        while i < self.entries.len()
            invariant
                i <= self.entries@.len(),
                self.wf(),
                purge_all(self.map(), now as int) == purge_all(old(self).map(), now as int),
                forall|j: int| 0 <= j < i ==> live(#[trigger] self.entries@[j].item@, now as int),
            decreases self.entries@.len() - i,
        {
            proof {
                lemma_map_index(self.entries@, i as int);
            }
            if self.entries[i].item.expired(now) {
                let ghost before = self.map();
                let ghost k = self.entries@[i as int].key@;
                proof {
                    lemma_map_remove(self.entries@, i as int);
                }
                self.entries.remove(i);
                proof {
                    assert(purge_all(self.map(), now as int) =~= purge_all(before, now as int));
                }
            } else {
                i = i + 1;
            }
        }
        proof {
            assert forall|k: Seq<char>| self.map().contains_key(k) implies live(
                self.map()[k],
                now as int,
            ) by {
                lemma_map_contains(self.entries@, k);
                let j = choose|j: int| 0 <= j < self.entries@.len() && self.entries@[j].key@ == k;
                lemma_map_index(self.entries@, j);
            }
            assert(purge_all(self.map(), now as int) =~= self.map());
        }
    }
}

} // verus!
