//! Ticket metadata: a map from column names to values.

use vstd::prelude::*;

verus! {

/// The map that a list of `(key, value)` entries describes; a later entry for a
/// key replaces an earlier one.
pub open spec fn entries_map(entries: Seq<(String, String)>) -> Map<Seq<char>, Seq<char>>
    decreases entries.len(),
{
    if entries.len() == 0 {
        Map::empty()
    } else {
        entries_map(entries.drop_last()).insert(entries.last().0@, entries.last().1@)
    }
}

/// No key occurs twice among the entries.
pub open spec fn keys_distinct(entries: Seq<(String, String)>) -> bool {
    forall|i: int, j: int|
        0 <= i < entries.len() && 0 <= j < entries.len() && i != j ==> (#[trigger] entries[i]).0@
            != (#[trigger] entries[j]).0@
}

/// Metadata attached to a ticket (e.g., holder name, email, seat type).
#[derive(Debug)]
pub struct TicketMetadata {
    entries: Vec<(String, String)>,
}

impl View for TicketMetadata {
    type V = Map<Seq<char>, Seq<char>>;

    closed spec fn view(&self) -> Map<Seq<char>, Seq<char>> {
        entries_map(self.entries@)
    }
}

/// Replacing the value of the entry for an existing key is inserting into the map.
proof fn lemma_entries_map_update(entries: Seq<(String, String)>, j: int, entry: (String, String))
    requires
        keys_distinct(entries),
        0 <= j < entries.len(),
        entries[j].0@ == entry.0@,
    ensures
        entries_map(entries.update(j, entry)) == entries_map(entries).insert(entry.0@, entry.1@),
    decreases entries.len(),
{
    let updated = entries.update(j, entry);
    if j == entries.len() - 1 {
        assert(updated.drop_last() =~= entries.drop_last());
        assert(entries_map(updated) =~= entries_map(entries).insert(entry.0@, entry.1@));
    } else {
        let prefix = entries.drop_last();
        assert(keys_distinct(prefix));
        lemma_entries_map_update(prefix, j, entry);
        assert(updated.drop_last() =~= prefix.update(j, entry));
        assert(entries.last().0@ != entry.0@) by {
            assert(entries[entries.len() - 1] == entries.last());
        }
        assert(entries_map(updated) =~= entries_map(entries).insert(entry.0@, entry.1@));
    }
}

/// Every key of the map is the key of some entry.
proof fn lemma_entries_map_keys(entries: Seq<(String, String)>, k: Seq<char>)
    ensures
        entries_map(entries).contains_key(k) <==> exists|i: int|
            0 <= i < entries.len() && (#[trigger] entries[i]).0@ == k,
    decreases entries.len(),
{
    if entries.len() > 0 {
        let prefix = entries.drop_last();
        lemma_entries_map_keys(prefix, k);
        if entries_map(entries).contains_key(k) && entries.last().0@ != k {
            let i = choose|i: int| 0 <= i < prefix.len() && (#[trigger] prefix[i]).0@ == k;
            assert(entries[i] == prefix[i]);
        }
        if exists|i: int| 0 <= i < entries.len() && (#[trigger] entries[i]).0@ == k {
            let i = choose|i: int| 0 <= i < entries.len() && (#[trigger] entries[i]).0@ == k;
            if i < entries.len() - 1 {
                assert(prefix[i] == entries[i]);
            }
        }
    }
}

impl TicketMetadata {
    #[verifier::type_invariant]
    spec fn wf(self) -> bool {
        keys_distinct(self.entries@)
    }

    /// An empty map.
    pub fn new() -> (res: TicketMetadata)
        ensures
            res@ == Map::<Seq<char>, Seq<char>>::empty(),
    {
        TicketMetadata { entries: Vec::new() }
    }

    /// Number of keys.
    pub fn len(&self) -> (res: usize)
        ensures
            res == self@.len(),
    {
        proof {
            use_type_invariant(self);
            self.lemma_len();
        }
        self.entries.len()
    }

    /// Whether the map has no keys.
    pub fn is_empty(&self) -> (res: bool)
        ensures
            res == (self@ == Map::<Seq<char>, Seq<char>>::empty()),
    {
        proof {
            use_type_invariant(self);
            self.lemma_len();
            if self.entries@.len() > 0 {
                assert(self@.contains_key(self.entries@.last().0@));
            } else {
                assert(self@ =~= Map::<Seq<char>, Seq<char>>::empty());
            }
        }
        self.entries.len() == 0
    }

    /// The number of entries is the number of keys.
    proof fn lemma_len(&self)
        requires
            keys_distinct(self.entries@),
        ensures
            self@.dom().finite(),
            self@.len() == self.entries@.len(),
    {
        lemma_distinct_entries_len(self.entries@);
    }

    /// The entries, one per key, in no particular order.
    pub fn entries(&self) -> (res: &Vec<(String, String)>)
        ensures
            entries_map(res@) == self@,
            keys_distinct(res@),
    {
        proof {
            use_type_invariant(self);
        }
        &self.entries
    }

    /// Set the value of `key`, replacing any value it had.
    pub fn insert(&mut self, key: String, value: String)
        ensures
            final(self)@ == old(self)@.insert(key@, value@),
    {
        proof {
            use_type_invariant(&*self);
        }
        let mut i: usize = 0;
        while i < self.entries.len()
            invariant
                i <= self.entries.len(),
                self.entries@ == old(self).entries@,
                keys_distinct(self.entries@),
                forall|k: int| 0 <= k < i ==> (#[trigger] self.entries@[k]).0@ != key@,
            decreases self.entries.len() - i,
        {
            if self.entries[i].0 == key {
                let ghost old_entries = self.entries@;
                let mut entries: Vec<(String, String)> = Vec::new();
                std::mem::swap(&mut entries, &mut self.entries);
                proof {
                    lemma_entries_map_update(old_entries, i as int, (key, value));
                }
                entries.set(i, (key, value));
                assert(keys_distinct(entries@));
                self.entries = entries;
                return;
            }
            i = i + 1;
        }
        let mut entries: Vec<(String, String)> = Vec::new();
                std::mem::swap(&mut entries, &mut self.entries);
        let ghost before = entries@;
        entries.push((key, value));
        assert(entries@.drop_last() =~= before);
        assert(keys_distinct(entries@));
        self.entries = entries;
    }

    /// Add every key of `other` with its value, replacing the values that keys of
    /// `self` had.
    pub fn merge(&mut self, other: &TicketMetadata)
        ensures
            final(self)@ == old(self)@.union_prefer_right(other@),
    {
        proof {
            use_type_invariant(other);
        }
        let entries = other.entries();
        let mut i: usize = 0;
        while i < entries.len()
            invariant
                i <= entries.len(),
                entries_map(entries@) == other@,
                self@ == old(self)@.union_prefer_right(entries_map(entries@.take(i as int))),
            decreases entries.len() - i,
        {
            assert(entries@.take(i + 1).drop_last() =~= entries@.take(i as int));
            let key = entries[i].0.clone();
            let value = entries[i].1.clone();
            self.insert(key, value);
            assert(self@ =~= old(self)@.union_prefer_right(entries_map(entries@.take(i + 1))));
            i = i + 1;
        }
        assert(entries@.take(entries.len() as int) =~= entries@);
    }
}

/// With distinct keys, the map has as many keys as there are entries.
proof fn lemma_distinct_entries_len(entries: Seq<(String, String)>)
    requires
        keys_distinct(entries),
    ensures
        entries_map(entries).dom().finite(),
        entries_map(entries).len() == entries.len(),
    decreases entries.len(),
{
    if entries.len() > 0 {
        let prefix = entries.drop_last();
        assert(keys_distinct(prefix));
        lemma_distinct_entries_len(prefix);
        lemma_entries_map_keys(prefix, entries.last().0@);
        if entries_map(prefix).contains_key(entries.last().0@) {
            let i = choose|i: int| 0 <= i < prefix.len() && (#[trigger] prefix[i]).0@ == entries.last().0@;
            assert(entries[i] == prefix[i]);
            assert(entries[entries.len() - 1] == entries.last());
        }
    }
}

} // verus!
