//! Correlation table: maps a live request id to its single-use completion
//! slot. An id is registered when the outbound notification for it is
//! emitted and disappears only when its completion is taken; taking the
//! slot is a single lookup-and-remove step, so a given id's slot can be
//! taken at most once.

use vstd::prelude::*;

verus! {

/// Association list with unique keys; its model is the map of its entries.
pub struct PendingTable<S> {
    entries: Vec<(Vec<u8>, S)>,
}

pub open spec fn map_of<S>(entries: Seq<(Vec<u8>, S)>) -> Map<Seq<u8>, S>
    decreases entries,
{
    if entries.len() == 0 {
        Map::empty()
    } else {
        map_of(entries.drop_last()).insert(entries.last().0@, entries.last().1)
    }
}

pub open spec fn keys_unique<S>(entries: Seq<(Vec<u8>, S)>) -> bool {
    forall|i: int, j: int|
        0 <= i < j < entries.len() ==> (#[trigger] entries[i]).0@ != (#[trigger] entries[j]).0@
}

/// What a completion call finds for `id`: the registered slot, or nothing.
pub open spec fn complete_lookup<S>(m: Map<Seq<u8>, S>, id: Seq<u8>) -> Option<S> {
    if m.contains_key(id) {
        Some(m[id])
    } else {
        None
    }
}

proof fn lemma_map_of_not_contains<S>(entries: Seq<(Vec<u8>, S)>, k: Seq<u8>)
    requires
        forall|i: int| 0 <= i < entries.len() ==> (#[trigger] entries[i]).0@ != k,
    ensures
        !map_of(entries).contains_key(k),
    decreases entries.len(),
{
    if entries.len() > 0 {
        lemma_map_of_not_contains(entries.drop_last(), k);
    }
}

proof fn lemma_map_of_contains<S>(entries: Seq<(Vec<u8>, S)>, i: int)
    requires
        keys_unique(entries),
        0 <= i < entries.len(),
    ensures
        map_of(entries).contains_key(entries[i].0@),
        map_of(entries)[entries[i].0@] == entries[i].1,
    decreases entries.len(),
{
    if i < entries.len() - 1 {
        assert(entries.drop_last()[i] == entries[i]);
        assert(keys_unique(entries.drop_last())) by {
            assert(forall|a: int, b: int|
                0 <= a < b < entries.drop_last().len() ==> entries.drop_last()[a] == entries[a]
                    && entries.drop_last()[b] == entries[b]);
        }
        lemma_map_of_contains(entries.drop_last(), i);
        assert(entries[i].0@ != entries.last().0@);
    }
}

proof fn lemma_map_of_remove_at<S>(entries: Seq<(Vec<u8>, S)>, i: int)
    requires
        keys_unique(entries),
        0 <= i < entries.len(),
    ensures
        map_of(entries.remove(i)) =~= map_of(entries).remove(entries[i].0@),
    decreases entries.len(),
{
    let k = entries[i].0@;
    if i == entries.len() - 1 {
        assert(entries.remove(i) =~= entries.drop_last());
        assert(forall|j: int| 0 <= j < entries.drop_last().len()
            ==> (#[trigger] entries.drop_last()[j]).0@ != k);
        lemma_map_of_not_contains(entries.drop_last(), k);
        assert(map_of(entries.drop_last()) =~= map_of(entries.drop_last()).insert(
            k,
            entries.last().1,
        ).remove(k));
    } else {
        let dl = entries.drop_last();
        assert(keys_unique(dl)) by {
            assert(forall|a: int| 0 <= a < dl.len() ==> dl[a] == entries[a]);
        }
        assert(dl[i] == entries[i]);
        lemma_map_of_remove_at(dl, i);
        assert(entries.remove(i).drop_last() =~= dl.remove(i));
        assert(entries.remove(i).last() == entries.last());
        assert(entries.last().0@ != k);
        assert(map_of(dl).remove(k).insert(entries.last().0@, entries.last().1)
            =~= map_of(dl).insert(entries.last().0@, entries.last().1).remove(k));
    }
}

/// Byte-wise equality of two byte slices.
pub fn bytes_eq(a: &[u8], b: &[u8]) -> (r: bool)
    ensures
        r == (a@ == b@),
{
    if a.len() != b.len() {
        assert(a@ != b@) by {
            assert(a@.len() != b@.len());
        }
        return false;
    }
    let n = a.len();
    let mut i: usize = 0;
    while i < n
        invariant
            n == a@.len() == b@.len(),
            0 <= i <= n,
            forall|j: int| 0 <= j < i ==> a@[j] == b@[j],
        decreases n - i,
    {
        if a[i] != b[i] {
            return false;
        }
        i += 1;
    }
    assert(a@ =~= b@);
    true
}

impl<S> PendingTable<S> {
    pub closed spec fn view(&self) -> Map<Seq<u8>, S> {
        map_of(self.entries@)
    }

    pub closed spec fn wf(&self) -> bool {
        keys_unique(self.entries@)
    }

    pub fn new() -> (r: Self)
        ensures
            r@ == Map::<Seq<u8>, S>::empty(),
            r.wf(),
    {
        PendingTable { entries: Vec::new() }
    }

    /// Looks up and removes the entry for `id` in one step; returns its
    /// slot, or `None` when `id` is not registered.
    pub fn complete(&mut self, id: &[u8]) -> (r: Option<S>)
        requires
            old(self).wf(),
        ensures
            final(self).wf(),
            r == complete_lookup(old(self)@, id@),
            final(self)@ == old(self)@.remove(id@),
    {
        let n = self.entries.len();
        let mut i: usize = 0;
        while i < n
            invariant
                self == old(self),
                self.wf(),
                n == self.entries@.len(),
                0 <= i <= n,
                forall|j: int| 0 <= j < i ==> (#[trigger] self.entries@[j]).0@ != id@,
            decreases n - i,
        {
            if bytes_eq(self.entries[i].0.as_slice(), id) {
                proof {
                    lemma_map_of_contains(self.entries@, i as int);
                    lemma_map_of_remove_at(self.entries@, i as int);
                }
                let entry = self.entries.remove(i);
                assert(self.entries@ =~= old(self).entries@.remove(i as int));
                proof {
                    let oe = old(self).entries@;
                    assert(keys_unique(oe.remove(i as int))) by {
                        assert(forall|a: int|
                            0 <= a < oe.remove(i as int).len()
                                ==> oe.remove(i as int)[a] == (if a < i as int {
                                oe[a]
                            } else {
                                oe[a + 1]
                            }));
                    }
                }
                return Some(entry.1);
            }
            i += 1;
        }
        proof {
            lemma_map_of_not_contains(self.entries@, id@);
            assert(self@ =~= self@.remove(id@));
        }
        None
    }

    /// Registers `id` with its completion slot. A registration for an id
    /// already live replaces the old slot, which is thereby discarded.
    pub fn register(&mut self, id: Vec<u8>, slot: S)
        requires
            old(self).wf(),
        ensures
            final(self).wf(),
            final(self)@ == old(self)@.insert(id@, slot),
    {
        let _ = self.complete(id.as_slice());
        let ghost mid = self.entries@;
        self.entries.push((id, slot));
        proof {
            assert(self.entries@.drop_last() =~= mid);
            assert(forall|j: int| 0 <= j < mid.len() ==> (#[trigger] mid[j]).0@ != id@) by {
                lemma_map_of_not_contains_inv(mid, id@);
            }
            assert(self@ =~= old(self)@.insert(id@, slot));
        }
    }

}

/// From absence in the map, absence among the entries.
proof fn lemma_map_of_not_contains_inv<S>(entries: Seq<(Vec<u8>, S)>, k: Seq<u8>)
    requires
        !map_of(entries).contains_key(k),
    ensures
        forall|i: int| 0 <= i < entries.len() ==> (#[trigger] entries[i]).0@ != k,
    decreases entries.len(),
{
    if entries.len() > 0 {
        lemma_map_of_not_contains_inv(entries.drop_last(), k);
        assert(forall|i: int| 0 <= i < entries.len() - 1 ==> entries[i] == entries.drop_last()[i]);
    }
}

/// A single completion for a freshly registered id succeeds exactly once:
/// the registered slot comes back, the entry is gone afterwards, and any
/// later completion of the same id finds nothing while it stays
/// unregistered.
pub proof fn lemma_complete_exactly_once<S>(m0: Map<Seq<u8>, S>, id: Seq<u8>, slot: S)
    ensures
        complete_lookup(m0.insert(id, slot), id) == Some(slot),
        complete_lookup(m0.insert(id, slot).remove(id), id) is None,
        m0.insert(id, slot).remove(id).remove(id) == m0.insert(id, slot).remove(id),
{
    assert(m0.insert(id, slot).remove(id).remove(id) =~= m0.insert(id, slot).remove(id));
}

/// A completion for an id that was never registered fails and changes
/// nothing.
pub proof fn lemma_complete_unknown<S>(m: Map<Seq<u8>, S>, id: Seq<u8>)
    requires
        !m.contains_key(id),
    ensures
        complete_lookup(m, id) is None,
        m.remove(id) == m,
{
    assert(m.remove(id) =~= m);
}

} // verus!
