//! A map keyed by port name, kept as a list of entries in the order in which
//! the ports were first added; no port occurs twice.

use vstd::prelude::*;

use crate::text::same_text;

verus! {

/// A map from port names to values.
#[derive(Clone, Debug)]
pub struct PortMap<V> {
    pub entries: Vec<(String, V)>,
}

/// No port occurs twice among the entries.
pub open spec fn keys_unique<V>(entries: Seq<(String, V)>) -> bool {
    forall|i: int, j: int|
        0 <= i < entries.len() && 0 <= j < entries.len() && i != j ==> (#[trigger] entries[i]).0@ != (#[trigger] entries[j]).0@
}

/// The map that the entries describe.
pub open spec fn map_of<V>(entries: Seq<(String, V)>) -> Map<Seq<char>, V>
    decreases entries.len(),
{
    if entries.len() == 0 {
        Map::empty()
    } else {
        map_of(entries.drop_last()).insert(entries.last().0@, entries.last().1)
    }
}

/// A port is in the map exactly when one of the entries is for it.
pub proof fn lemma_map_of_dom<V>(entries: Seq<(String, V)>, key: Seq<char>)
    ensures
        map_of(entries).dom().contains(key) <==> exists|i: int| 0 <= i < entries.len() && (#[trigger] entries[i]).0@ == key,
    decreases entries.len(),
{
    if entries.len() > 0 {
        let t = entries.drop_last();
        lemma_map_of_dom(t, key);
        if map_of(entries).dom().contains(key) {
            if entries.last().0@ == key {
                assert(entries[entries.len() - 1].0@ == key);
            } else {
                let i = choose|i: int| 0 <= i < t.len() && (#[trigger] t[i]).0@ == key;
                assert(entries[i] == t[i]);
            }
        }
        if exists|i: int| 0 <= i < entries.len() && (#[trigger] entries[i]).0@ == key {
            let i = choose|i: int| 0 <= i < entries.len() && (#[trigger] entries[i]).0@ == key;
            if i < t.len() {
                assert(t[i] == entries[i]);
            }
        }
    }
}

/// Where no port occurs twice, each entry is what the map holds for its port.
pub proof fn lemma_map_of_entry<V>(entries: Seq<(String, V)>, i: int)
    requires
        keys_unique(entries),
        0 <= i < entries.len(),
    ensures
        map_of(entries).dom().contains(entries[i].0@),
        map_of(entries)[entries[i].0@] == entries[i].1,
{
    lemma_map_of_at(entries, i);
}

proof fn lemma_map_of_at<V>(entries: Seq<(String, V)>, i: int)
    requires
        keys_unique(entries),
        0 <= i < entries.len(),
    ensures
        map_of(entries).dom().contains(entries[i].0@),
        map_of(entries)[entries[i].0@] == entries[i].1,
    decreases entries.len(),
{
    let t = entries.drop_last();
    if i < entries.len() - 1 {
        assert(t[i] == entries[i]);
        assert(keys_unique(t)) by {
            assert forall|a: int, b: int| 0 <= a < t.len() && 0 <= b < t.len() && a != b implies
                (#[trigger] t[a]).0@ != (#[trigger] t[b]).0@ by {
                assert(t[a] == entries[a]);
                assert(t[b] == entries[b]);
            }
        }
        lemma_map_of_at(t, i);
        assert(entries[i].0@ != entries[entries.len() - 1].0@);
    }
}

proof fn lemma_unique_drop_last<V>(entries: Seq<(String, V)>)
    requires
        keys_unique(entries),
        entries.len() > 0,
    ensures
        keys_unique(entries.drop_last()),
{
    let t = entries.drop_last();
    assert forall|a: int, b: int| 0 <= a < t.len() && 0 <= b < t.len() && a != b implies
        (#[trigger] t[a]).0@ != (#[trigger] t[b]).0@ by {
        assert(t[a] == entries[a]);
        assert(t[b] == entries[b]);
    }
}

proof fn lemma_map_of_push<V>(entries: Seq<(String, V)>, e: (String, V))
    ensures
        map_of(entries.push(e)) == map_of(entries).insert(e.0@, e.1),
{
    assert(entries.push(e).drop_last() =~= entries);
}

proof fn lemma_map_of_update<V>(entries: Seq<(String, V)>, i: int, v: V)
    requires
        keys_unique(entries),
        0 <= i < entries.len(),
    ensures
        map_of(entries.update(i, (entries[i].0, v))) == map_of(entries).insert(entries[i].0@, v),
    decreases entries.len(),
{
    let u = entries.update(i, (entries[i].0, v));
    let t = entries.drop_last();
    if i == entries.len() - 1 {
        assert(u.drop_last() =~= t);
        assert(map_of(u) =~= map_of(entries).insert(entries[i].0@, v));
    } else {
        lemma_unique_drop_last(entries);
        lemma_map_of_update(t, i, v);
        assert(u.drop_last() =~= t.update(i, (t[i].0, v)));
        assert(t[i] == entries[i]);
        assert(entries[i].0@ != entries.last().0@);
        assert(map_of(u) =~= map_of(entries).insert(entries[i].0@, v));
    }
}

proof fn lemma_map_of_remove<V>(entries: Seq<(String, V)>, i: int)
    requires
        keys_unique(entries),
        0 <= i < entries.len(),
    ensures
        map_of(entries.remove(i)) == map_of(entries).remove(entries[i].0@),
    decreases entries.len(),
{
    let r = entries.remove(i);
    let t = entries.drop_last();
    lemma_unique_drop_last(entries);
    if i == entries.len() - 1 {
        assert(r =~= t);
        assert(!map_of(t).dom().contains(entries[i].0@)) by {
            lemma_map_of_dom(t, entries[i].0@);
            if map_of(t).dom().contains(entries[i].0@) {
                let j = choose|j: int| 0 <= j < t.len() && (#[trigger] t[j]).0@ == entries[i].0@;
                assert(t[j] == entries[j]);
            }
        }
        assert(map_of(r) =~= map_of(entries).remove(entries[i].0@));
    } else {
        lemma_map_of_remove(t, i);
        assert(r.drop_last() =~= t.remove(i));
        assert(r.last() == entries.last());
        assert(t[i] == entries[i]);
        assert(entries[i].0@ != entries.last().0@);
        assert(map_of(r) =~= map_of(entries).remove(entries[i].0@));
    }
}

impl<V> View for PortMap<V> {
    type V = Map<Seq<char>, V>;

    open spec fn view(&self) -> Map<Seq<char>, V> {
        map_of(self.entries@)
    }
}

impl<V> PortMap<V> {
    /// No port occurs twice.
    pub open spec fn wf(&self) -> bool {
        keys_unique(self.entries@)
    }

    /// An empty map.
    pub fn new() -> (r: PortMap<V>)
        ensures
            r.wf(),
            r@ == Map::<Seq<char>, V>::empty(),
            r.entries@.len() == 0,
    {
        PortMap { entries: Vec::new() }
    }

    /// The number of ports in the map.
    pub fn len(&self) -> (r: usize)
        requires
            self.wf(),
        ensures
            r == self.entries@.len(),
            r == self@.dom().len(),
    {
        proof {
            self.lemma_len();
        }
        self.entries.len()
    }

    proof fn lemma_len(&self)
        requires
            self.wf(),
        ensures
            self@.dom().finite(),
            self@.dom().len() == self.entries@.len(),
        decreases self.entries@.len(),
    {
        lemma_len_of(self.entries@);
    }

    /// The map holds exactly one port per entry.
    pub proof fn lemma_len_pub(&self)
        requires
            self.wf(),
        ensures
            self@.dom().finite(),
            self@.dom().len() == self.entries@.len(),
    {
        lemma_len_of(self.entries@);
    }

    /// Whether the map is empty.
    pub fn is_empty(&self) -> (r: bool)
        requires
            self.wf(),
        ensures
            r == (self@.dom().len() == 0),
    {
        self.len() == 0
    }

    /// The index of the entry for `key`.
    fn find(&self, key: &str) -> (r: Option<usize>)
        requires
            self.wf(),
        ensures
            match r {
                Some(i) => i < self.entries@.len() && self.entries@[i as int].0@ == key@,
                None => !self@.dom().contains(key@),
            },
    {
        let mut i: usize = 0;
        while i < self.entries.len()
            invariant
                i <= self.entries@.len(),
                forall|k: int| 0 <= k < i ==> (#[trigger] self.entries@[k]).0@ != key@,
            decreases self.entries.len() - i,
        {
            if same_text(self.entries[i].0.as_str(), key) {
                return Some(i);
            }
            i = i + 1;
        }
        proof {
            lemma_map_of_dom(self.entries@, key@);
        }
        None
    }

    /// The value for `key`, if the map holds one.
    pub fn get(&self, key: &str) -> (r: Option<&V>)
        requires
            self.wf(),
        ensures
            match r {
                Some(v) => self@.dom().contains(key@) && self@[key@] == *v,
                None => !self@.dom().contains(key@),
            },
    {
        match self.find(key) {
            Some(i) => {
                proof {
                    lemma_map_of_at(self.entries@, i as int);
                }
                Some(&self.entries[i].1)
            },
            None => None,
        }
    }

    /// Whether the map holds a value for `key`.
    pub fn contains_key(&self, key: &str) -> (r: bool)
        requires
            self.wf(),
        ensures
            r == self@.dom().contains(key@),
    {
        match self.find(key) {
            Some(i) => {
                proof {
                    lemma_map_of_at(self.entries@, i as int);
                }
                true
            },
            None => false,
        }
    }

    /// Sets the value for `key`, in place where the map already holds the key,
    /// else as a new last entry.
    pub fn insert(&mut self, key: String, value: V)
        requires
            old(self).wf(),
        ensures
            final(self).wf(),
            final(self)@ == old(self)@.insert(key@, value),
            !old(self)@.dom().contains(key@) ==> final(self).entries@ == old(self).entries@.push((key, value)),
    {
        match self.find(key.as_str()) {
            Some(i) => {
                let ghost before = self.entries@;
                proof {
                    lemma_map_of_update(before, i as int, value);
                    lemma_map_of_at(before, i as int);
                }
                let old_entry = self.entries.remove(i);
                self.entries.insert(i, (old_entry.0, value));
                assert(self.entries@ =~= before.update(i as int, (before[i as int].0, value)));
                assert(keys_unique(self.entries@)) by {
                    assert forall|a: int, b: int| 0 <= a < self.entries@.len() && 0 <= b < self.entries@.len() && a != b implies
                        (#[trigger] self.entries@[a]).0@ != (#[trigger] self.entries@[b]).0@ by {
                        assert(self.entries@[a].0 == before[a].0);
                        assert(self.entries@[b].0 == before[b].0);
                    }
                }
            },
            None => {
                let ghost before = self.entries@;
                proof {
                    lemma_map_of_push(before, (key, value));
                    lemma_map_of_dom(before, key@);
                }
                self.entries.push((key, value));
                assert(keys_unique(self.entries@)) by {
                    assert forall|a: int, b: int| 0 <= a < self.entries@.len() && 0 <= b < self.entries@.len() && a != b implies
                        (#[trigger] self.entries@[a]).0@ != (#[trigger] self.entries@[b]).0@ by {
                        if a < before.len() {
                            assert(self.entries@[a] == before[a]);
                        }
                        if b < before.len() {
                            assert(self.entries@[b] == before[b]);
                        }
                    }
                }
            },
        }
    }

    /// Removes the entry for `key` and gives back its value, if the map held one.
    pub fn remove(&mut self, key: &str) -> (r: Option<V>)
        requires
            old(self).wf(),
        ensures
            final(self).wf(),
            final(self)@ == old(self)@.remove(key@),
            match r {
                Some(v) => old(self)@.dom().contains(key@) && old(self)@[key@] == v,
                None => !old(self)@.dom().contains(key@),
            },
    {
        match self.find(key) {
            Some(i) => {
                let ghost before = self.entries@;
                proof {
                    lemma_map_of_remove(before, i as int);
                    lemma_map_of_at(before, i as int);
                }
                let e = self.entries.remove(i);
                assert(keys_unique(self.entries@)) by {
                    assert forall|a: int, b: int| 0 <= a < self.entries@.len() && 0 <= b < self.entries@.len() && a != b implies
                        (#[trigger] self.entries@[a]).0@ != (#[trigger] self.entries@[b]).0@ by {
                        let a2 = if a < i { a } else { a + 1 };
                        let b2 = if b < i { b } else { b + 1 };
                        assert(self.entries@[a] == before[a2]);
                        assert(self.entries@[b] == before[b2]);
                    }
                }
                Some(e.1)
            },
            None => {
                assert(old(self)@.remove(key@) =~= old(self)@);
                None
            },
        }
    }
}

proof fn lemma_len_of<V>(entries: Seq<(String, V)>)
    requires
        keys_unique(entries),
    ensures
        map_of(entries).dom().finite(),
        map_of(entries).dom().len() == entries.len(),
    decreases entries.len(),
{
    if entries.len() > 0 {
        let t = entries.drop_last();
        lemma_unique_drop_last(entries);
        lemma_len_of(t);
        lemma_map_of_dom(t, entries.last().0@);
        if map_of(t).dom().contains(entries.last().0@) {
            let j = choose|j: int| 0 <= j < t.len() && (#[trigger] t[j]).0@ == entries.last().0@;
            assert(t[j] == entries[j]);
        }
    }
}

/// A value written under a port is what a read of that port gives back.
pub proof fn lemma_get_after_insert<V>(m: Map<Seq<char>, V>, key: Seq<char>, value: V)
    ensures
        m.insert(key, value).dom().contains(key),
        m.insert(key, value)[key] == value,
{
}

/// Writing or removing one port leaves every other port as it was.
pub proof fn lemma_other_ports_unchanged<V>(m: Map<Seq<char>, V>, key: Seq<char>, value: V, other: Seq<char>)
    requires
        other != key,
    ensures
        m.insert(key, value).dom().contains(other) == m.dom().contains(other),
        m.remove(key).dom().contains(other) == m.dom().contains(other),
        m.dom().contains(other) ==> m.insert(key, value)[other] == m[other] && m.remove(key)[other] == m[other],
{
}

/// After a removal the port has no value.
pub proof fn lemma_get_after_remove<V>(m: Map<Seq<char>, V>, key: Seq<char>)
    ensures
        !m.remove(key).dom().contains(key),
{
}

} // verus!
