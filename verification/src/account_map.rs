use vstd::prelude::*;

verus! {

/// A finite map from 64-bit keys (account identifiers or block numbers)
/// to values, stored as a list of entries in insertion order.
///
/// It stands for one storage map of the pallet: its view is the map from
/// keys to values, and `key_seq` is the order in which its entries are
/// walked.
#[derive(Clone)]
pub struct AccountMap<V> {
    entries: Vec<(u64, V)>,
    model: Ghost<Map<u64, V>>,
}

impl<V> View for AccountMap<V> {
    type V = Map<u64, V>;

    open spec fn view(&self) -> Map<u64, V> {
        self.as_map()
    }
}

impl<V> AccountMap<V> {
    /// The keys of the stored entries, in their stored order.
    pub closed spec fn key_seq(&self) -> Seq<u64> {
        Seq::new(self.entries@.len(), |i: int| self.entries@[i].0)
    }

    /// The map that the entries represent.
    pub closed spec fn as_map(&self) -> Map<u64, V> {
        self.model@
    }

    /// Well-formedness: no key is stored twice, and the entries and the
    /// map agree.
    pub closed spec fn wf(&self) -> bool {
        &&& forall|i: int, j: int|
            0 <= i < j < self.entries@.len() ==> #[trigger] self.entries@[i].0
                != #[trigger] self.entries@[j].0
        &&& forall|i: int|
            0 <= i < self.entries@.len() ==> {
                &&& self.model@.dom().contains(#[trigger] self.entries@[i].0)
                &&& self.model@[self.entries@[i].0] == self.entries@[i].1
            }
        &&& forall|k: u64|
            #[trigger] self.model@.dom().contains(k) ==> exists|i: int|
                0 <= i < self.entries@.len() && #[trigger] self.entries@[i].0 == k
    }

    /// The keys are exactly the domain of the map, each stored once.
    pub proof fn lemma_key_seq(&self)
        requires
            self.wf(),
        ensures
            self.key_seq().no_duplicates(),
            forall|k: u64| self.view().dom().contains(k) <==> #[trigger] self.key_seq().contains(k),
            self.view().dom().finite(),
            self.view().dom().len() == self.key_seq().len(),
    {
        let ks = self.key_seq();
        assert forall|k: u64| self.view().dom().contains(k) <==> #[trigger] ks.contains(k) by {
            if self.view().dom().contains(k) {
                let i = choose|i: int| 0 <= i < self.entries@.len() && #[trigger] self.entries@[i].0 == k;
                assert(ks[i] == k);
            }
        }
        assert(self.view().dom() =~= ks.to_set());
        ks.unique_seq_to_set();
    }

    pub fn new() -> (r: Self)
        ensures
            r.wf(),
            r@ == Map::<u64, V>::empty(),
            r.key_seq() == Seq::<u64>::empty(),
    {
        let r = AccountMap { entries: Vec::new(), model: Ghost(Map::empty()) };
        assert(r.key_seq() =~= Seq::<u64>::empty());
        r
    }

    /// The number of entries.
    pub fn len(&self) -> (r: usize)
        requires
            self.wf(),
        ensures
            r == self.key_seq().len(),
            r == self@.dom().len(),
    {
        proof {
            self.lemma_key_seq();
        }
        self.entries.len()
    }

    /// The position of `k` among the entries, if it is stored.
    fn find(&self, k: u64) -> (r: Option<usize>)
        requires
            self.wf(),
        ensures
            match r {
                Some(i) => i < self.entries@.len() && self.entries@[i as int].0 == k
                    && self@.dom().contains(k),
                None => !self@.dom().contains(k),
            },
    {
        let mut i: usize = 0;
        while i < self.entries.len()
            invariant
                self.wf(),
                i <= self.entries@.len(),
                forall|j: int| 0 <= j < i ==> self.entries@[j].0 != k,
            decreases self.entries@.len() - i,
        {
            if self.entries[i].0 == k {
                return Some(i);
            }
            i = i + 1;
        }
        None
    }

    pub fn contains_key(&self, k: u64) -> (r: bool)
        requires
            self.wf(),
        ensures
            r == self@.dom().contains(k),
    {
        self.find(k).is_some()
    }

    pub fn get(&self, k: u64) -> (r: Option<&V>)
        requires
            self.wf(),
        ensures
            match r {
                Some(v) => self@.dom().contains(k) && *v == self@[k],
                None => !self@.dom().contains(k),
            },
    {
        match self.find(k) {
            Some(i) => Some(&self.entries[i].1),
            None => None,
        }
    }

    /// The `i`-th entry in stored order.
    pub fn entry_at(&self, i: usize) -> (r: (u64, &V))
        requires
            self.wf(),
            i < self.key_seq().len(),
        ensures
            r.0 == self.key_seq()[i as int],
            self@.dom().contains(r.0),
            *r.1 == self@[r.0],
    {
        (self.entries[i].0, &self.entries[i].1)
    }

    /// Stores `v` under `k`. A key already stored keeps its position;
    /// a new key is placed last. Returns the value that was stored before.
    pub fn insert(&mut self, k: u64, v: V) -> (r: Option<V>)
        requires
            old(self).wf(),
        ensures
            final(self).wf(),
            final(self)@ == old(self)@.insert(k, v),
            match r {
                Some(w) => old(self)@.dom().contains(k) && w == old(self)@[k],
                None => !old(self)@.dom().contains(k),
            },
            old(self)@.dom().contains(k) ==> final(self).key_seq() == old(self).key_seq(),
            !old(self)@.dom().contains(k) ==> final(self).key_seq() == old(self).key_seq().push(k),
    {
        let ghost old_entries = self.entries@;
        match self.find(k) {
            Some(i) => {
                let (_, w) = self.entries.remove(i);
                self.entries.insert(i, (k, v));
                self.model = Ghost(self.model@.insert(k, v));
                assert(self.entries@ =~= old_entries.update(i as int, (k, v)));
                assert forall|kk: u64| #[trigger] self.model@.dom().contains(kk) implies exists|j: int|
                    0 <= j < self.entries@.len() && #[trigger] self.entries@[j].0 == kk by {
                    if kk == k {
                        assert(self.entries@[i as int].0 == kk);
                    } else {
                        assert(old(self).view().dom().contains(kk));
                        let j = choose|j: int| 0 <= j < old_entries.len() && #[trigger] old_entries[j].0 == kk;
                        assert(self.entries@[j].0 == kk);
                    }
                }
                assert(self.key_seq() =~= old(self).key_seq());
                Some(w)
            },
            None => {
                self.entries.push((k, v));
                self.model = Ghost(self.model@.insert(k, v));
                assert forall|kk: u64| #[trigger] self.model@.dom().contains(kk) implies exists|j: int|
                    0 <= j < self.entries@.len() && #[trigger] self.entries@[j].0 == kk by {
                    if kk == k {
                        assert(self.entries@[old_entries.len() as int].0 == kk);
                    } else {
                        assert(old(self).view().dom().contains(kk));
                        let j = choose|j: int| 0 <= j < old_entries.len() && #[trigger] old_entries[j].0 == kk;
                        assert(self.entries@[j].0 == kk);
                    }
                }
                assert(self.key_seq() =~= old(self).key_seq().push(k));
                None
            },
        }
    }

    /// Takes the value stored under `k` out of the map.
    pub fn remove(&mut self, k: u64) -> (r: Option<V>)
        requires
            old(self).wf(),
        ensures
            final(self).wf(),
            final(self)@ == old(self)@.remove(k),
            match r {
                Some(w) => old(self)@.dom().contains(k) && w == old(self)@[k],
                None => !old(self)@.dom().contains(k) && *final(self) == *old(self),
            },
    {
        let ghost old_entries = self.entries@;
        match self.find(k) {
            Some(i) => {
                let (_, w) = self.entries.remove(i);
                self.model = Ghost(self.model@.remove(k));
                assert(self.entries@ =~= old_entries.remove(i as int));
                assert forall|kk: u64| #[trigger] self.model@.dom().contains(kk) implies exists|j: int|
                    0 <= j < self.entries@.len() && #[trigger] self.entries@[j].0 == kk by {
                    assert(old(self).view().dom().contains(kk));
                    let j = choose|j: int| 0 <= j < old_entries.len() && #[trigger] old_entries[j].0 == kk;
                    if j < i {
                        assert(self.entries@[j].0 == kk);
                    } else {
                        assert(j != i);
                        assert(self.entries@[j - 1].0 == kk);
                    }
                }
                Some(w)
            },
            None => {
                assert(self.model@.remove(k) =~= self.model@);
                None
            },
        }
    }

    /// Removes every entry.
    pub fn clear(&mut self)
        requires
            old(self).wf(),
        ensures
            final(self).wf(),
            final(self)@ == Map::<u64, V>::empty(),
            final(self).key_seq() == Seq::<u64>::empty(),
    {
        *self = Self::new();
    }
}

} // verus!
