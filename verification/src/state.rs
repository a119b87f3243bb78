//! The durable usage ledger: a mapping from image identity to the time the
//! image was last used. Identities are byte strings as the engine reports
//! them; times are seconds. The ledger is held as a vector of entries whose
//! identities are pairwise distinct, and denotes a finite map.

use vstd::prelude::*;

verus! {

/// One ledger record: an image identity and the time it was last used.
pub struct Entry {
    /// The image identity, as the engine reports it.
    pub id: Vec<u8>,
    /// The time at which the image was last used.
    pub last_used: u64,
}

/// The usage ledger.
pub struct State {
    /// The records, one per recorded image, with pairwise distinct identities.
    pub entries: Vec<Entry>,
}

/// The mapping that a sequence of entries denotes.
pub open spec fn entries_map(s: Seq<Entry>) -> Map<Seq<u8>, u64>
    decreases s.len(),
{
    if s.len() == 0 {
        Map::empty()
    } else {
        entries_map(s.drop_last()).insert(s.last().id@, s.last().last_used)
    }
}

/// The identities in a sequence of entries are pairwise distinct.
pub open spec fn unique_ids(s: Seq<Entry>) -> bool {
    forall|i: int, j: int| 0 <= i < j < s.len() ==> s[i].id@ != s[j].id@
}

/// A key is in the denoted map exactly when some entry carries it.
pub proof fn lemma_entries_map_domain(s: Seq<Entry>)
    ensures
        forall|k: Seq<u8>| #[trigger] entries_map(s).contains_key(k) ==> exists|i: int|
            0 <= i < s.len() && s[i].id@ == k,
        forall|i: int| 0 <= i < s.len() ==> #[trigger] entries_map(s).contains_key(s[i].id@),
    decreases s.len(),
{
    if s.len() > 0 {
        lemma_entries_map_domain(s.drop_last());
        assert forall|k: Seq<u8>| #[trigger] entries_map(s).contains_key(k) implies exists|i: int|
            0 <= i < s.len() && s[i].id@ == k by {
            if k == s.last().id@ {
                assert(s[s.len() - 1].id@ == k);
            } else {
                assert(entries_map(s.drop_last()).contains_key(k));
                assert(exists|i: int| 0 <= i < s.drop_last().len() && s.drop_last()[i].id@ == k);
                let i = choose|i: int| 0 <= i < s.drop_last().len() && s.drop_last()[i].id@ == k;
                assert(s.drop_last()[i] == s[i]);
                assert(s[i].id@ == k);
            }
        }
        assert forall|i: int| 0 <= i < s.len() implies #[trigger] entries_map(s).contains_key(
            s[i].id@,
        ) by {
            if i < s.len() - 1 {
                assert(s.drop_last()[i].id@ == s[i].id@);
                assert(entries_map(s.drop_last()).contains_key(s[i].id@));
            }
        }
    }
}

/// Under distinct identities, each entry's identity maps to its time.
pub proof fn lemma_entries_map_index(s: Seq<Entry>, i: int)
    requires
        unique_ids(s),
        0 <= i < s.len(),
    ensures
        entries_map(s).contains_key(s[i].id@),
        entries_map(s)[s[i].id@] == s[i].last_used,
    decreases s.len(),
{
    if i == s.len() - 1 {
    } else {
        assert(s.drop_last()[i] == s[i]);
        assert(unique_ids(s.drop_last())) by {
            assert forall|a: int, b: int|
                0 <= a < b < s.drop_last().len() implies s.drop_last()[a].id@
                != s.drop_last()[b].id@ by {
                assert(s[a].id@ != s[b].id@);
            }
        }
        lemma_entries_map_index(s.drop_last(), i);
        assert(s[i].id@ != s.last().id@);
    }
}

/// Replacing the entry at `i` by one with the same identity replaces that
/// identity's value in the denoted map.
pub proof fn lemma_entries_map_update(s: Seq<Entry>, i: int, e: Entry)
    requires
        unique_ids(s),
        0 <= i < s.len(),
        e.id@ == s[i].id@,
    ensures
        entries_map(s.update(i, e)) == entries_map(s).insert(e.id@, e.last_used),
    decreases s.len(),
{
    let t = s.update(i, e);
    if i == s.len() - 1 {
        assert(t.drop_last() =~= s.drop_last());
        assert(t.last() == e);
        assert(entries_map(t) =~= entries_map(s).insert(e.id@, e.last_used));
    } else {
        assert(unique_ids(s.drop_last())) by {
            assert forall|a: int, b: int|
                0 <= a < b < s.drop_last().len() implies s.drop_last()[a].id@
                != s.drop_last()[b].id@ by {
                assert(s[a].id@ != s[b].id@);
            }
        }
        assert(s.drop_last()[i] == s[i]);
        lemma_entries_map_update(s.drop_last(), i, e);
        assert(t.drop_last() =~= s.drop_last().update(i, e));
        assert(t.last() == s.last());
        assert(s[i].id@ != s.last().id@);
        assert(entries_map(t) =~= entries_map(s).insert(e.id@, e.last_used));
    }
}

/// Removing the entry at `i` removes its identity from the denoted map.
pub proof fn lemma_entries_map_remove(s: Seq<Entry>, i: int)
    requires
        unique_ids(s),
        0 <= i < s.len(),
    ensures
        entries_map(s.remove(i)) == entries_map(s).remove(s[i].id@),
    decreases s.len(),
{
    let t = s.remove(i);
    if i == s.len() - 1 {
        assert(t =~= s.drop_last());
        lemma_entries_map_domain(s.drop_last());
        assert forall|a: int|
            0 <= a < s.drop_last().len() implies s.drop_last()[a].id@ != s.last().id@ by {
            assert(s[a].id@ != s[s.len() - 1].id@);
        }
        assert(!entries_map(s.drop_last()).contains_key(s.last().id@));
        assert(entries_map(t) =~= entries_map(s).remove(s[i].id@));
    } else {
        assert(unique_ids(s.drop_last())) by {
            assert forall|a: int, b: int|
                0 <= a < b < s.drop_last().len() implies s.drop_last()[a].id@
                != s.drop_last()[b].id@ by {
                assert(s[a].id@ != s[b].id@);
            }
        }
        assert(s.drop_last()[i] == s[i]);
        lemma_entries_map_remove(s.drop_last(), i);
        assert(t.drop_last() =~= s.drop_last().remove(i));
        assert(t.last() == s.last());
        assert(s[i].id@ != s.last().id@);
        assert(entries_map(t) =~= entries_map(s).remove(s[i].id@));
    }
}

/// Whether two byte strings hold the same bytes.
pub fn bytes_eq(a: &Vec<u8>, b: &Vec<u8>) -> (r: bool)
    ensures
        r == (a@ == b@),
{
    if a.len() != b.len() {
        return false;
    }
    let mut i: usize = 0;
    while i < a.len()
        invariant
            i <= a.len(),
            a@.len() == b@.len(),
            forall|k: int| 0 <= k < i ==> a@[k] == b@[k],
        decreases a.len() - i,
    {
        if a[i] != b[i] {
            return false;
        }
        i += 1;
    }
    proof {
        assert(a@ =~= b@);
    }
    true
}

/// A fresh byte string holding the same bytes.
pub fn copy_bytes(a: &Vec<u8>) -> (r: Vec<u8>)
    ensures
        r@ == a@,
{
    let mut r: Vec<u8> = Vec::new();
    let mut i: usize = 0;
    while i < a.len()
        invariant
            i <= a.len(),
            r@ =~= a@.take(i as int),
        decreases a.len() - i,
    {
        r.push(a[i]);
        i += 1;
    }
    proof {
        assert(r@ =~= a@);
    }
    r
}

impl View for State {
    type V = Map<Seq<u8>, u64>;

    open spec fn view(&self) -> Map<Seq<u8>, u64> {
        entries_map(self.entries@)
    }
}

impl State {
    /// The ledger's identities are pairwise distinct.
    pub open spec fn wf(&self) -> bool {
        unique_ids(self.entries@)
    }

    /// The empty ledger, used when no usable persisted state exists.
    pub fn initial() -> (r: State)
        ensures
            r.wf(),
            r@ == Map::<Seq<u8>, u64>::empty(),
            r.entries@.len() == 0,
    {
        State { entries: Vec::new() }
    }

    /// The number of recorded images.
    pub fn len(&self) -> (r: usize)
        ensures
            r == self.entries@.len(),
    {
        self.entries.len()
    }

    /// The index of the entry carrying `id`, if one exists.
    fn find_index(&self, id: &Vec<u8>) -> (r: Option<usize>)
        ensures
            match r {
                Some(i) => i < self.entries@.len() && self.entries@[i as int].id@ == id@,
                None => forall|i: int| 0 <= i < self.entries@.len()
                    ==> self.entries@[i].id@ != id@,
            },
    {
        let mut i: usize = 0;
        while i < self.entries.len()
            invariant
                i <= self.entries@.len(),
                forall|k: int| 0 <= k < i ==> self.entries@[k].id@ != id@,
            decreases self.entries@.len() - i,
        {
            if bytes_eq(&self.entries[i].id, id) {
                return Some(i);
            }
            i += 1;
        }
        None
    }

    /// The recorded last-used time of `id`, if the ledger tracks it.
    pub fn last_used(&self, id: &Vec<u8>) -> (r: Option<u64>)
        requires
            self.wf(),
        ensures
            r == if self@.contains_key(id@) {
                Some(self@[id@])
            } else {
                None::<u64>
            },
    {
        proof {
            lemma_entries_map_domain(self.entries@);
        }
        match self.find_index(id) {
            Some(i) => {
                proof {
                    lemma_entries_map_index(self.entries@, i as int);
                }
                Some(self.entries[i].last_used)
            },
            None => None,
        }
    }

    /// Record a use of `id` at time `now`: an unknown identity gains exactly
    /// one entry with time `now`; a known identity keeps its entry, whose
    /// time becomes `now` unless the recorded time is already later.
    pub fn touch(&mut self, id: &Vec<u8>, now: u64)
        requires
            old(self).wf(),
        ensures
            final(self).wf(),
            final(self)@ == old(self)@.insert(
                id@,
                if old(self)@.contains_key(id@) && old(self)@[id@] > now {
                    old(self)@[id@]
                } else {
                    now
                },
            ),
            old(self)@.contains_key(id@) ==> final(self).entries@.len()
                == old(self).entries@.len(),
            !old(self)@.contains_key(id@) ==> final(self).entries@.len()
                == old(self).entries@.len() + 1,
    {
        proof {
            lemma_entries_map_domain(self.entries@);
        }
        match self.find_index(id) {
            Some(i) => {
                proof {
                    lemma_entries_map_index(self.entries@, i as int);
                }
                let prev = self.entries[i].last_used;
                let t = if prev > now {
                    prev
                } else {
                    now
                };
                let e = Entry { id: copy_bytes(id), last_used: t };
                proof {
                    lemma_entries_map_update(self.entries@, i as int, e);
                }
                let ghost s0 = self.entries@;
                self.entries.set(i, e);
                proof {
                    assert forall|a: int, b: int|
                        0 <= a < b < self.entries@.len() implies self.entries@[a].id@
                        != self.entries@[b].id@ by {
                        assert(s0[a].id@ == self.entries@[a].id@ || a == i as int);
                        assert(s0[b].id@ == self.entries@[b].id@ || b == i as int);
                    }
                }
            },
            None => {
                let e = Entry { id: copy_bytes(id), last_used: now };
                let ghost s0 = self.entries@;
                self.entries.push(e);
                proof {
                    assert(self.entries@.drop_last() =~= s0);
                    assert(self.entries@.last() == e);
                    assert forall|a: int, b: int|
                        0 <= a < b < self.entries@.len() implies self.entries@[a].id@
                        != self.entries@[b].id@ by {
                        if b < self.entries@.len() - 1 {
                            assert(s0[a].id@ != s0[b].id@);
                        } else {
                            assert(s0[a].id@ != id@);
                        }
                    }
                }
            },
        }
    }

    /// Drop the entry carrying `id`, if any.
    pub fn remove_entry(&mut self, id: &Vec<u8>)
        requires
            old(self).wf(),
        ensures
            final(self).wf(),
            final(self)@ == old(self)@.remove(id@),
    {
        proof {
            lemma_entries_map_domain(self.entries@);
        }
        match self.find_index(id) {
            Some(i) => {
                proof {
                    lemma_entries_map_remove(self.entries@, i as int);
                }
                let ghost s0 = self.entries@;
                self.entries.remove(i);
                proof {
                    assert forall|a: int, b: int|
                        0 <= a < b < self.entries@.len() implies self.entries@[a].id@
                        != self.entries@[b].id@ by {
                        let a0 = if a < i as int {
                            a
                        } else {
                            a + 1
                        };
                        let b0 = if b < i as int {
                            b
                        } else {
                            b + 1
                        };
                        assert(s0[a0].id@ != s0[b0].id@);
                        assert(self.entries@[a] == s0[a0]);
                        assert(self.entries@[b] == s0[b0]);
                    }
                }
            },
            None => {
                proof {
                    assert(!old(self)@.contains_key(id@));
                    assert(old(self)@.remove(id@) =~= old(self)@);
                }
            },
        }
    }
}

} // verus!
