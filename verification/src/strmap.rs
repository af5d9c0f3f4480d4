//! A string-keyed map held as a vector of entries with pairwise distinct
//! keys, viewed as a `Map<Seq<char>, V>`. It stands in for a hash map in
//! the routing table, where the keys are host names and paths.

use vstd::prelude::*;
use crate::text::str_eq;

verus! {

#[derive(Clone, Debug)]
pub struct StrMap<V> {
    pub entries: Vec<(String, V)>,
}

/// Entry keys are pairwise distinct.
pub open spec fn entries_unique<V>(entries: Seq<(String, V)>) -> bool {
    forall|i: int, j: int| 0 <= i < j < entries.len() ==> entries[i].0@ != entries[j].0@
}

/// The map an entry list denotes; later entries would win, but well-formed
/// maps never hold a key twice.
pub open spec fn spec_map_of<V>(entries: Seq<(String, V)>) -> Map<Seq<char>, V>
    decreases entries.len(),
{
    if entries.len() == 0 {
        Map::empty()
    } else {
        spec_map_of(entries.drop_last()).insert(entries.last().0@, entries.last().1)
    }
}

pub proof fn lemma_map_of_key<V>(entries: Seq<(String, V)>, k: Seq<char>)
    ensures
        spec_map_of(entries).contains_key(k) <==> (exists|i: int|
            0 <= i < entries.len() && entries[i].0@ == k),
    decreases entries.len(),
{
    if entries.len() > 0 {
        lemma_map_of_key(entries.drop_last(), k);
        if entries.last().0@ == k {
            assert(entries[entries.len() - 1].0@ == k);
        } else {
            if exists|i: int| 0 <= i < entries.len() && entries[i].0@ == k {
                let i = choose|i: int| 0 <= i < entries.len() && entries[i].0@ == k;
                assert(entries.drop_last()[i] == entries[i]);
            }
        }
    }
}

pub proof fn lemma_map_of_at<V>(entries: Seq<(String, V)>, i: int)
    requires
        0 <= i < entries.len(),
        forall|j: int| i < j < entries.len() ==> entries[j].0@ != entries[i].0@,
    ensures
        spec_map_of(entries).contains_key(entries[i].0@),
        spec_map_of(entries)[entries[i].0@] == entries[i].1,
    decreases entries.len(),
{
    if i < entries.len() - 1 {
        assert(entries.drop_last()[i] == entries[i]);
        lemma_map_of_at(entries.drop_last(), i);
    }
}

pub proof fn lemma_map_of_remove_idx<V>(entries: Seq<(String, V)>, i: int)
    requires
        entries_unique(entries),
        0 <= i < entries.len(),
    ensures
        spec_map_of(entries.remove(i)) == spec_map_of(entries).remove(entries[i].0@),
    decreases entries.len(),
{
    let k = entries[i].0@;
    if i == entries.len() - 1 {
        assert(entries.remove(i) =~= entries.drop_last());
        lemma_map_of_key(entries.drop_last(), k);
        assert(forall|j: int| 0 <= j < entries.drop_last().len() ==> entries.drop_last()[j]
            == entries[j]);
        assert(!spec_map_of(entries.drop_last()).contains_key(k));
        assert(spec_map_of(entries).remove(k) =~= spec_map_of(entries.drop_last()));
    } else {
        assert(entries.remove(i).drop_last() =~= entries.drop_last().remove(i));
        assert(entries.remove(i).last() == entries.last());
        assert(forall|j: int| 0 <= j < entries.drop_last().len() ==> entries.drop_last()[j]
            == entries[j]);
        lemma_map_of_remove_idx(entries.drop_last(), i);
        assert(entries.last().0@ != k);
        assert(spec_map_of(entries.remove(i)) == spec_map_of(entries.drop_last()).remove(k).insert(
            entries.last().0@,
            entries.last().1,
        ));
        assert(spec_map_of(entries.drop_last()).remove(k).insert(
            entries.last().0@,
            entries.last().1,
        ) =~= spec_map_of(entries).remove(k));
    }
}

impl<V> View for StrMap<V> {
    type V = Map<Seq<char>, V>;

    open spec fn view(&self) -> Map<Seq<char>, V> {
        spec_map_of(self.entries@)
    }
}

impl<V> StrMap<V> {
    pub open spec fn wf(self) -> bool {
        entries_unique(self.entries@)
    }

    pub fn new() -> (m: StrMap<V>)
        ensures
            m.wf(),
            m@ == Map::<Seq<char>, V>::empty(),
    {
        StrMap { entries: Vec::new() }
    }

    /// The entry index holding key `k`, if any.
    fn find_idx(&self, k: &str) -> (r: Option<usize>)
        ensures
            match r {
                Some(i) => i < self.entries@.len() && self.entries@[i as int].0@ == k@,
                None => forall|j: int| 0 <= j < self.entries@.len() ==> self.entries@[j].0@ != k@,
            },
    {
        let mut j: usize = 0;
        while j < self.entries.len()
            invariant
                0 <= j <= self.entries@.len(),
                forall|m: int| 0 <= m < j ==> self.entries@[m].0@ != k@,
            decreases self.entries@.len() - j,
        {
            if str_eq(self.entries[j].0.as_str(), k) {
                return Some(j);
            }
            j += 1;
        }
        None
    }

    pub fn contains_key(&self, k: &str) -> (r: bool)
        requires
            self.wf(),
        ensures
            r == self@.contains_key(k@),
    {
        let r = self.find_idx(k);
        proof {
            lemma_map_of_key(self.entries@, k@);
        }
        match r {
            Some(_) => true,
            None => false,
        }
    }

    pub fn get(&self, k: &str) -> (r: Option<&V>)
        requires
            self.wf(),
        ensures
            match r {
                Some(v) => self@.contains_key(k@) && *v == self@[k@],
                None => !self@.contains_key(k@),
            },
    {
        proof {
            lemma_map_of_key(self.entries@, k@);
        }
        match self.find_idx(k) {
            Some(i) => {
                proof {
                    lemma_map_of_at(self.entries@, i as int);
                }
                Some(&self.entries[i].1)
            },
            None => None,
        }
    }

    /// Removes and returns the value under `k`, if any.
    pub fn take(&mut self, k: &str) -> (r: Option<V>)
        requires
            old(self).wf(),
        ensures
            final(self).wf(),
            final(self)@ == old(self)@.remove(k@),
            match r {
                Some(v) => old(self)@.contains_key(k@) && v == old(self)@[k@],
                None => !old(self)@.contains_key(k@) && final(self)@ == old(self)@,
            },
    {
        proof {
            lemma_map_of_key(self.entries@, k@);
        }
        match self.find_idx(k) {
            Some(i) => {
                proof {
                    lemma_map_of_at(self.entries@, i as int);
                    lemma_map_of_remove_idx(self.entries@, i as int);
                }
                let e = self.entries.remove(i);
                Some(e.1)
            },
            None => {
                proof {
                    assert(old(self)@.remove(k@) =~= old(self)@);
                }
                None
            },
        }
    }

    /// Removes the entry under `k`, if any.
    pub fn remove(&mut self, k: &str)
        requires
            old(self).wf(),
        ensures
            final(self).wf(),
            final(self)@ == old(self)@.remove(k@),
    {
        let _taken = self.take(k);
    }

    /// Binds `k` to `v`, replacing any previous binding.
    pub fn insert(&mut self, k: String, v: V)
        requires
            old(self).wf(),
        ensures
            final(self).wf(),
            final(self)@ == old(self)@.insert(k@, v),
    {
        let ghost pre = self.entries@;
        match self.find_idx(k.as_str()) {
            Some(i) => {
                proof {
                    lemma_map_of_remove_idx(pre, i as int);
                }
                self.entries.remove(i);
                let ghost mid = self.entries@;
                self.entries.push((k, v));
                proof {
                    assert(self.entries@.drop_last() =~= mid);
                    assert(spec_map_of(pre).remove(pre[i as int].0@).insert(k@, v)
                        =~= spec_map_of(pre).insert(k@, v));
                }
            },
            None => {
                self.entries.push((k, v));
                proof {
                    assert(self.entries@.drop_last() =~= pre);
                }
            },
        }
    }

    /// The number of keys.
    pub fn len(&self) -> (n: usize)
        requires
            self.wf(),
        ensures
            n == self.entries@.len(),
            n == self@.dom().len(),
    {
        proof {
            lemma_map_of_dom_len(self.entries@);
        }
        self.entries.len()
    }
}

/// With distinct keys, the map's domain is as large as the entry list.
pub proof fn lemma_map_of_dom_len<V>(entries: Seq<(String, V)>)
    requires
        entries_unique(entries),
    ensures
        spec_map_of(entries).dom().finite(),
        spec_map_of(entries).dom().len() == entries.len(),
    decreases entries.len(),
{
    if entries.len() > 0 {
        assert(forall|j: int| 0 <= j < entries.drop_last().len() ==> entries.drop_last()[j]
            == entries[j]);
        lemma_map_of_dom_len(entries.drop_last());
        lemma_map_of_key(entries.drop_last(), entries.last().0@);
        assert(!spec_map_of(entries.drop_last()).dom().contains(entries.last().0@));
        assert(spec_map_of(entries).dom() =~= spec_map_of(entries.drop_last()).dom().insert(
            entries.last().0@,
        ));
    }
}

} // verus!
