use vstd::prelude::*;

verus! {

/// A globally unique identifier for a node gene. Connection genes are
/// identified by the pair of the node ids they join.
#[derive(Clone, Copy, Debug, PartialEq, Eq, Structural, Hash)]
pub struct Id(pub u64);

/// The ids cached under `key` in an association list, going by the first
/// entry that carries the key, or the empty sequence when none does.
pub open spec fn cached_in(entries: Seq<((Id, Id), Vec<Id>)>, key: (Id, Id)) -> Seq<Id>
    decreases entries.len(),
{
    if entries.len() == 0 {
        Seq::empty()
    } else if entries[0].0 == key {
        entries[0].1@
    } else {
        cached_in(entries.drop_first(), key)
    }
}

/// Issues fresh, monotonically advancing identifiers, and remembers per
/// split connection which node ids earlier splits of that connection
/// produced, so that the same structural change converges on the same new
/// node identity in independently mutated lineages.
pub struct IdGenerator {
    next: u64,
    cache: Vec<((Id, Id), Vec<Id>)>,
}

impl IdGenerator {
    /// The next identifier that `next_id` would hand out; every id issued
    /// so far is strictly below it.
    pub closed spec fn next_free(&self) -> u64 {
        self.next
    }

    /// The sequence of node ids cached for splits of the connection `key`.
    pub closed spec fn cached(&self, key: (Id, Id)) -> Seq<Id> {
        cached_in(self.cache@, key)
    }

    /// Every cached id was issued earlier, so it lies below `next_free`.
    pub closed spec fn wf(&self) -> bool {
        forall|i: int, j: int|
            0 <= i < self.cache@.len() && 0 <= j < self.cache@[i].1@.len()
                ==> (#[trigger] self.cache@[i].1@[j]).0 < self.next
    }

    pub fn new() -> (r: IdGenerator)
        ensures
            r.wf(),
            r.next_free() == 0,
            forall|key: (Id, Id)| #[trigger] r.cached(key) =~= Seq::<Id>::empty(),
    {
        IdGenerator { next: 0, cache: Vec::new() }
    }

    /// A fresh identifier: the current `next_free` value, after which the
    /// counter advances. The cache is untouched.
    pub fn next_id(&mut self) -> (r: Id)
        requires
            old(self).wf(),
            old(self).next_free() < u64::MAX,
        ensures
            final(self).wf(),
            r.0 == old(self).next_free(),
            final(self).next_free() == old(self).next_free() + 1,
            forall|key: (Id, Id)| #[trigger] final(self).cached(key) == old(self).cached(key),
    {
        let id = Id(self.next);
        self.next = self.next + 1;
        proof {
            assert(forall|key: (Id, Id)| #[trigger]
                self.cached(key) == old(self).cached(key)) by {
                assert(self.cache@ == old(self).cache@);
            }
        }
        id
    }

    /// The ids cached so far for splits of the connection `key`, oldest
    /// first; empty when this connection has never been split.
    pub fn split_ids(&self, key: (Id, Id)) -> (r: Vec<Id>)
        ensures
            r@ == self.cached(key),
    {
        let mut i: usize = 0;
        proof {
            assert(self.cache@.skip(0) =~= self.cache@);
        }
        while i < self.cache.len()
            invariant
                i <= self.cache@.len(),
                cached_in(self.cache@.skip(i as int), key) == self.cached(key),
                forall|k: int| 0 <= k < i ==> (#[trigger] self.cache@[k]).0 != key,
            decreases self.cache@.len() - i,
        {
            let (entry_key, entry_ids) = &self.cache[i];
            if entry_key.0 .0 == key.0 .0 && entry_key.1 .0 == key.1 .0 {
                proof {
                    assert(self.cache@.skip(i as int)[0] == self.cache@[i as int]);
                    assert(self.cache@[i as int].0 == key);
                }
                return entry_ids.clone();
            }
            proof {
                assert(self.cache@.skip(i as int).drop_first() =~= self.cache@.skip(i + 1));
            }
            i = i + 1;
        }
        proof {
            assert(self.cache@.skip(i as int) =~= Seq::empty());
        }
        Vec::new()
    }

    /// Records that splitting the connection `key` produced the node id
    /// `id`; later calls to `split_ids` for the same connection will report
    /// it. Caches for other connections are unchanged.
    pub fn remember_split(&mut self, key: (Id, Id), id: Id)
        requires
            old(self).wf(),
            id.0 < old(self).next_free(),
        ensures
            final(self).wf(),
            final(self).next_free() == old(self).next_free(),
            final(self).cached(key) =~= old(self).cached(key).push(id),
            forall|other: (Id, Id)|
                other != key ==> #[trigger] final(self).cached(other) == old(self).cached(other),
    {
        let ghost old_cache = self.cache@;
        match self.find_entry(key) {
            Some(i) => {
                let entry = &mut self.cache[i];
                entry.1.push(id);
                proof {
                    lemma_cached_in_update(old_cache, self.cache@, key, i as int, id);
                    assert forall|a: int, b: int|
                        0 <= a < self.cache@.len() && 0 <= b < self.cache@[a].1@.len() implies (
                    #[trigger] self.cache@[a].1@[b]).0 < self.next by {
                        if a != i as int {
                            assert(self.cache@[a] == old_cache[a]);
                        } else if b < old_cache[a].1@.len() {
                            assert(self.cache@[a].1@[b] == old_cache[a].1@[b]);
                        } else {
                            assert(self.cache@[a].1@[b] == id);
                        }
                    }
                }
            },
            None => {
                let mut ids: Vec<Id> = Vec::new();
                ids.push(id);
                self.cache.push((key, ids));
                proof {
                    lemma_cached_in_absent(old_cache, key);
                    lemma_cached_in_append(old_cache, key, self.cache@[old_cache.len() as int].1);
                    assert forall|a: int, b: int|
                        0 <= a < self.cache@.len() && 0 <= b < self.cache@[a].1@.len() implies (
                    #[trigger] self.cache@[a].1@[b]).0 < self.next by {
                        if a < old_cache.len() {
                            assert(self.cache@[a] == old_cache[a]);
                        } else {
                            assert(self.cache@[a].1@[b] == id);
                        }
                    }
                }
            },
        }
    }

    /// Whether `count` more fresh ids fit before the id space runs out.
    pub fn headroom(&self, count: usize) -> (r: bool)
        ensures
            r == (self.next_free() + count <= u64::MAX),
    {
        (self.next as u128) + (count as u128) <= (u64::MAX as u128)
    }

    /// Every id ever cached for a split lies below `next_free`.
    pub proof fn lemma_cached_below(&self, key: (Id, Id))
        requires
            self.wf(),
        ensures
            forall|j: int|
                0 <= j < self.cached(key).len() ==> (#[trigger] self.cached(key)[j]).0
                    < self.next_free(),
    {
        lemma_cached_in_below(self.cache@, key, self.next);
    }

    /// The position of the first cache entry for `key`, if there is one.
    fn find_entry(&self, key: (Id, Id)) -> (r: Option<usize>)
        ensures
            match r {
                Some(i) => i < self.cache@.len() && self.cache@[i as int].0 == key
                    && forall|k: int| 0 <= k < i ==> (#[trigger] self.cache@[k]).0 != key,
                None => forall|k: int|
                    0 <= k < self.cache@.len() ==> (#[trigger] self.cache@[k]).0 != key,
            },
    {
        let mut i: usize = 0;
        while i < self.cache.len()
            invariant
                i <= self.cache@.len(),
                forall|k: int| 0 <= k < i ==> (#[trigger] self.cache@[k]).0 != key,
            decreases self.cache@.len() - i,
        {
            let (entry_key, _) = &self.cache[i];
            if entry_key.0 .0 == key.0 .0 && entry_key.1 .0 == key.1 .0 {
                return Some(i);
            }
            i = i + 1;
        }
        None
    }
}

/// A key that no entry carries has nothing cached.
proof fn lemma_cached_in_absent(entries: Seq<((Id, Id), Vec<Id>)>, key: (Id, Id))
    requires
        forall|k: int| 0 <= k < entries.len() ==> (#[trigger] entries[k]).0 != key,
    ensures
        cached_in(entries, key) =~= Seq::<Id>::empty(),
    decreases entries.len(),
{
    if entries.len() > 0 {
        lemma_cached_in_absent(entries.drop_first(), key);
    }
}

/// Ids cached under any key stay below the bound that every entry obeys.
proof fn lemma_cached_in_below(entries: Seq<((Id, Id), Vec<Id>)>, key: (Id, Id), bound: u64)
    requires
        forall|i: int, j: int|
            0 <= i < entries.len() && 0 <= j < entries[i].1@.len() ==> (
            #[trigger] entries[i].1@[j]).0 < bound,
    ensures
        forall|j: int|
            0 <= j < cached_in(entries, key).len() ==> (#[trigger] cached_in(entries, key)[j]).0
                < bound,
    decreases entries.len(),
{
    if entries.len() > 0 && entries[0].0 == key {
        assert forall|j: int| 0 <= j < cached_in(entries, key).len() implies (
        #[trigger] cached_in(entries, key)[j]).0 < bound by {
            assert(cached_in(entries, key)[j] == entries[0].1@[j]);
        }
    }
    if entries.len() > 0 && entries[0].0 != key {
        assert forall|i: int, j: int|
            0 <= i < entries.drop_first().len() && 0 <= j
                < entries.drop_first()[i].1@.len() implies (
        #[trigger] entries.drop_first()[i].1@[j]).0 < bound by {
            assert(entries.drop_first()[i] == entries[i + 1]);
        }
        lemma_cached_in_below(entries.drop_first(), key, bound);
        assert(cached_in(entries, key) == cached_in(entries.drop_first(), key));
    }
}

/// After pushing one id onto the entry at `at` — the first entry keyed by
/// `key` — the cache for `key` gains exactly that id and other keys see no
/// change.
proof fn lemma_cached_in_update(
    before: Seq<((Id, Id), Vec<Id>)>,
    after: Seq<((Id, Id), Vec<Id>)>,
    key: (Id, Id),
    at: int,
    id: Id,
)
    requires
        0 <= at < before.len(),
        after.len() == before.len(),
        forall|k: int| 0 <= k < before.len() && k != at ==> after[k] == #[trigger] before[k],
        forall|k: int| 0 <= k < at ==> (#[trigger] before[k]).0 != key,
        before[at].0 == key,
        after[at].0 == key,
        after[at].1@ == before[at].1@.push(id),
    ensures
        cached_in(after, key) =~= cached_in(before, key).push(id),
        forall|other: (Id, Id)|
            other != key ==> #[trigger] cached_in(after, other) == cached_in(before, other),
    decreases at,
{
    if at == 0 {
        assert forall|other: (Id, Id)| other != key implies #[trigger] cached_in(after, other)
            == cached_in(before, other) by {
            assert(after.drop_first() =~= before.drop_first());
        }
    } else {
        assert(before[0] == after[0]);
        lemma_cached_in_update(before.drop_first(), after.drop_first(), key, at - 1, id);
        assert forall|other: (Id, Id)| other != key implies #[trigger] cached_in(after, other)
            == cached_in(before, other) by {
            if before[0].0 != other {
                assert(cached_in(after.drop_first(), other) == cached_in(
                    before.drop_first(),
                    other,
                ));
            }
        }
    }
}

/// Appending a fresh entry for a key that no earlier entry carries sets
/// that key's cache to the new entry's ids and leaves other keys unchanged.
proof fn lemma_cached_in_append(before: Seq<((Id, Id), Vec<Id>)>, key: (Id, Id), ids: Vec<Id>)
    requires
        forall|k: int| 0 <= k < before.len() ==> (#[trigger] before[k]).0 != key,
    ensures
        cached_in(before.push((key, ids)), key) == ids@,
        forall|other: (Id, Id)|
            other != key ==> #[trigger] cached_in(before.push((key, ids)), other) == cached_in(
                before,
                other,
            ),
    decreases before.len(),
{
    let after = before.push((key, ids));
    if before.len() == 0 {
        assert(after[0].0 == key);
        assert forall|other: (Id, Id)| other != key implies #[trigger] cached_in(after, other)
            == cached_in(before, other) by {
            assert(cached_in(after.drop_first(), other) =~= Seq::<Id>::empty());
        }
    } else {
        lemma_cached_in_append(before.drop_first(), key, ids);
        assert(after.drop_first() =~= before.drop_first().push((key, ids)));
        assert forall|other: (Id, Id)| other != key implies #[trigger] cached_in(after, other)
            == cached_in(before, other) by {
            assert(after[0] == before[0]);
            if before[0].0 != other {
                assert(cached_in(after.drop_first(), other) == cached_in(
                    before.drop_first(),
                    other,
                ));
            }
        }
    }
}

} // verus!
