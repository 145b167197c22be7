use vstd::prelude::*;

use crate::EntityId;

verus! {

/// The map that a sequence of `(id, value)` pairs denotes when it is read from
/// left to right, a later pair overwriting an earlier one of the same id.
pub open spec fn map_of<V>(s: Seq<(EntityId, V)>) -> Map<EntityId, V>
    decreases s.len(),
{
    if s.len() == 0 {
        Map::empty()
    } else {
        map_of(s.drop_last()).insert(s.last().0, s.last().1)
    }
}

/// No id occurs twice in `s`.
pub open spec fn keys_unique<V>(s: Seq<(EntityId, V)>) -> bool {
    forall|i: int, j: int| 0 <= i < j < s.len() ==> s[i].0 != s[j].0
}

/// `s` holds a pair with id `k`.
pub open spec fn has_key<V>(s: Seq<(EntityId, V)>, k: EntityId) -> bool {
    exists|i: int| 0 <= i < s.len() && s[i].0 == k
}

/// An id is in the denoted map exactly when some pair carries it.
pub proof fn lemma_map_of_contains<V>(s: Seq<(EntityId, V)>, k: EntityId)
    ensures
        map_of(s).contains_key(k) <==> has_key(s, k),
    decreases s.len(),
{
    if s.len() > 0 {
        let p = s.drop_last();
        lemma_map_of_contains(p, k);
        if has_key(p, k) {
            let i = choose|i: int| 0 <= i < p.len() && p[i].0 == k;
            assert(s[i].0 == k);
        }
        if has_key(s, k) && s.last().0 != k {
            let i = choose|i: int| 0 <= i < s.len() && s[i].0 == k;
            assert(i != s.len() - 1);
            assert(p[i].0 == k);
        }
    }
}

/// The last pair of an id gives its value in the denoted map.
pub proof fn lemma_map_of_last<V>(s: Seq<(EntityId, V)>, i: int)
    requires
        0 <= i < s.len(),
        forall|j: int| i < j < s.len() ==> s[j].0 != s[i].0,
    ensures
        map_of(s).contains_key(s[i].0),
        map_of(s)[s[i].0] == s[i].1,
    decreases s.len(),
{
    if i < s.len() - 1 {
        let p = s.drop_last();
        assert forall|j: int| i < j < p.len() implies p[j].0 != p[i].0 by {
            assert(p[j] == s[j]);
        }
        lemma_map_of_last(p, i);
    }
}

/// With unique ids, every pair gives the value of its id.
pub proof fn lemma_map_of_unique<V>(s: Seq<(EntityId, V)>, i: int)
    requires
        keys_unique(s),
        0 <= i < s.len(),
    ensures
        map_of(s).contains_key(s[i].0),
        map_of(s)[s[i].0] == s[i].1,
{
    lemma_map_of_last(s, i);
}

/// With unique ids, the denoted map has one entry per pair.
pub proof fn lemma_map_of_len<V>(s: Seq<(EntityId, V)>)
    requires
        keys_unique(s),
    ensures
        map_of(s).dom().finite(),
        map_of(s).len() == s.len(),
    decreases s.len(),
{
    if s.len() > 0 {
        let p = s.drop_last();
        lemma_map_of_len(p);
        lemma_map_of_contains(p, s.last().0);
        if has_key(p, s.last().0) {
            let i = choose|i: int| 0 <= i < p.len() && p[i].0 == s.last().0;
            assert(s[i].0 == s[s.len() - 1].0);
        }
        assert(map_of(s).dom() == map_of(p).dom().insert(s.last().0));
    }
}

/// The first `j + 1` pairs hold an id when the first `j` do or pair `j` has it.
pub proof fn lemma_has_key_take<V>(s: Seq<(EntityId, V)>, j: int, k: EntityId)
    requires
        0 <= j < s.len(),
    ensures
        has_key(s.take(j + 1), k) <==> (has_key(s.take(j), k) || s[j].0 == k),
{
    let a = s.take(j + 1);
    let b = s.take(j);
    if has_key(a, k) && s[j].0 != k {
        let i = choose|i: int| 0 <= i < a.len() && a[i].0 == k;
        assert(b[i].0 == k);
    }
    if has_key(b, k) {
        let i = choose|i: int| 0 <= i < b.len() && b[i].0 == k;
        assert(a[i].0 == k);
    }
    if s[j].0 == k {
        assert(a[j].0 == k);
    }
}

/// Removing the pair at `i` from a sequence with unique ids removes its id.
pub proof fn lemma_map_of_remove<V>(s: Seq<(EntityId, V)>, i: int)
    requires
        keys_unique(s),
        0 <= i < s.len(),
    ensures
        keys_unique(s.remove(i)),
        map_of(s.remove(i)) == map_of(s).remove(s[i].0),
{
    let r = s.remove(i);
    let k = s[i].0;
    assert forall|a: int, b: int| 0 <= a < b < r.len() implies r[a].0 != r[b].0 by {
        let a2 = if a < i { a } else { a + 1 };
        let b2 = if b < i { b } else { b + 1 };
        assert(r[a] == s[a2] && r[b] == s[b2]);
    }
    assert forall|key: EntityId| #[trigger] map_of(r).contains_key(key) == map_of(s).remove(
        k,
    ).contains_key(key) by {
        lemma_map_of_contains(r, key);
        lemma_map_of_contains(s, key);
        if has_key(s, key) && key != k {
            let j = choose|j: int| 0 <= j < s.len() && s[j].0 == key;
            let j2 = if j < i { j } else { j - 1 };
            assert(r[j2].0 == key);
        }
        if has_key(r, key) {
            let j = choose|j: int| 0 <= j < r.len() && r[j].0 == key;
            let j2 = if j < i { j } else { j + 1 };
            assert(s[j2].0 == key);
        }
    }
    assert forall|key: EntityId| #[trigger] map_of(r).contains_key(key) implies map_of(r)[key]
        == map_of(s)[key] by {
        lemma_map_of_contains(r, key);
        let j = choose|j: int| 0 <= j < r.len() && r[j].0 == key;
        let j2 = if j < i { j } else { j + 1 };
        assert(s[j2] == r[j]);
        lemma_map_of_unique(r, j);
        lemma_map_of_unique(s, j2);
    }
    assert(map_of(r) =~= map_of(s).remove(k));
}

/// Overwriting the value of the pair at `i` overwrites its id's value.
pub proof fn lemma_map_of_update<V>(s: Seq<(EntityId, V)>, i: int, v: V)
    requires
        keys_unique(s),
        0 <= i < s.len(),
    ensures
        keys_unique(s.update(i, (s[i].0, v))),
        map_of(s.update(i, (s[i].0, v))) == map_of(s).insert(s[i].0, v),
{
    let k = s[i].0;
    let r = s.update(i, (k, v));
    assert forall|a: int, b: int| 0 <= a < b < r.len() implies r[a].0 != r[b].0 by {
        assert(r[a].0 == s[a].0 && r[b].0 == s[b].0);
    }
    assert forall|key: EntityId| #[trigger] map_of(r).contains_key(key) == map_of(s).insert(
        k,
        v,
    ).contains_key(key) by {
        lemma_map_of_contains(r, key);
        lemma_map_of_contains(s, key);
        if has_key(s, key) {
            let j = choose|j: int| 0 <= j < s.len() && s[j].0 == key;
            assert(r[j].0 == key);
        }
        if has_key(r, key) {
            let j = choose|j: int| 0 <= j < r.len() && r[j].0 == key;
            assert(s[j].0 == key);
        }
        assert(r[i].0 == k);
    }
    assert forall|key: EntityId| #[trigger] map_of(r).contains_key(key) implies map_of(r)[key]
        == map_of(s).insert(k, v)[key] by {
        lemma_map_of_contains(r, key);
        let j = choose|j: int| 0 <= j < r.len() && r[j].0 == key;
        lemma_map_of_unique(r, j);
        if j != i {
            lemma_map_of_unique(s, j);
        }
    }
    assert(map_of(r) =~= map_of(s).insert(k, v));
}

/// A small map from entity ids to values that keeps its entries in the
/// order in which their ids first arrived. Every walk over the world (the
/// collision pass, the broadcast, the feed snapshot) follows that order, so a
/// tick's outcome does not depend on a hash seed chosen per process.
pub struct IdMap<V> {
    entries: Vec<(EntityId, V)>,
}

impl<V> View for IdMap<V> {
    type V = Map<EntityId, V>;

    open spec fn view(&self) -> Map<EntityId, V> {
        map_of(self.entries())
    }
}

impl<V> IdMap<V> {
    /// The entries in their stored order.
    pub closed spec fn entries(&self) -> Seq<(EntityId, V)> {
        self.entries@
    }

    /// Each id is stored once.
    pub open spec fn wf(&self) -> bool {
        keys_unique(self.entries())
    }

    pub fn new() -> (r: Self)
        ensures
            r.wf(),
            r@ == Map::<EntityId, V>::empty(),
            r.entries() == Seq::<(EntityId, V)>::empty(),
    {
        IdMap { entries: Vec::new() }
    }

    /// Number of stored entries.
    pub fn len(&self) -> (r: usize)
        ensures
            r == self.entries().len(),
            self.wf() ==> r == self@.len(),
    {
        proof {
            if self.wf() {
                lemma_map_of_len(self.entries());
            }
        }
        self.entries.len()
    }

    /// The entry at position `i` of the stored order.
    pub fn entry(&self, i: usize) -> (r: &(EntityId, V))
        requires
            i < self.entries().len(),
        ensures
            *r == self.entries()[i as int],
    {
        &self.entries[i]
    }

    /// Position of the last entry with id `id`.
    pub fn position(&self, id: EntityId) -> (r: Option<usize>)
        ensures
            match r {
                Some(i) => i < self.entries().len() && self.entries()[i as int].0 == id
                    && self@.contains_key(id) && self@[id] == self.entries()[i as int].1,
                None => !self@.contains_key(id),
            },
    {
        let mut i: usize = self.entries.len();
        while i > 0
            invariant
                i <= self.entries().len(),
                forall|j: int| i <= j < self.entries().len() ==> self.entries()[j].0 != id,
            decreases i,
        {
            i = i - 1;
            if self.entries[i].0 == id {
                proof {
                    lemma_map_of_last(self.entries(), i as int);
                }
                return Some(i);
            }
        }
        proof {
            lemma_map_of_contains(self.entries(), id);
        }
        None
    }

    pub fn contains_key(&self, id: EntityId) -> (r: bool)
        ensures
            r == self@.contains_key(id),
    {
        self.position(id).is_some()
    }

    pub fn get(&self, id: EntityId) -> (r: Option<&V>)
        ensures
            r == (if self@.contains_key(id) {
                Some(&self@[id])
            } else {
                None
            }),
    {
        match self.position(id) {
            Some(i) => Some(&self.entries[i].1),
            None => None,
        }
    }

    /// Stores `v` under `id`: in place when `id` is present, else at the end.
    pub fn insert(&mut self, id: EntityId, v: V)
        requires
            old(self).wf(),
        ensures
            final(self).wf(),
            final(self)@ == old(self)@.insert(id, v),
            old(self)@.contains_key(id) ==> final(self).entries().len() == old(self).entries().len(),
            !old(self)@.contains_key(id) ==> final(self).entries() == old(self).entries().push(
                (id, v),
            ),
    {
        match self.position(id) {
            Some(i) => {
                proof {
                    lemma_map_of_update(self.entries(), i as int, v);
                }
                self.entries.set(i, (id, v));
            },
            None => {
                proof {
                    lemma_map_of_contains(self.entries(), id);
                    let pushed = self.entries().push((id, v));
                    assert(pushed.drop_last() =~= self.entries());
                    assert forall|a: int, b: int|
                        0 <= a < b < pushed.len() implies pushed[a].0 != pushed[b].0 by {
                        if b == self.entries().len() {
                            assert(self.entries()[a].0 != id);
                        } else {
                            assert(pushed[a] == self.entries()[a]);
                            assert(pushed[b] == self.entries()[b]);
                        }
                    }
                }
                self.entries.push((id, v));
            },
        }
    }

    /// Takes out the entry of `id`, keeping the order of the others.
    pub fn remove(&mut self, id: EntityId) -> (r: Option<V>)
        requires
            old(self).wf(),
        ensures
            final(self).wf(),
            final(self)@ == old(self)@.remove(id),
            r == (if old(self)@.contains_key(id) {
                Some(old(self)@[id])
            } else {
                None
            }),
    {
        match self.position(id) {
            Some(i) => {
                proof {
                    lemma_map_of_remove(self.entries(), i as int);
                }
                let (_, v) = self.entries.remove(i);
                Some(v)
            },
            None => {
                proof {
                    assert(self@.remove(id) =~= self@);
                }
                None
            },
        }
    }
}

} // verus!
