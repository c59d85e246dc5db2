//! The key store: public keys by key id, in insertion order, insert-once.

use crate::jose::PublicKey;
use vstd::prelude::*;

verus! {

/// The key of the first entry whose id is `id`.
pub open spec fn lookup(entries: Seq<(Seq<char>, Seq<u8>)>, id: Seq<char>) -> Option<Seq<u8>>
    decreases entries.len(),
{
    if entries.len() == 0 {
        None
    } else if entries[0].0 == id {
        Some(entries[0].1)
    } else {
        lookup(entries.drop_first(), id)
    }
}

/// No two entries share an id.
pub open spec fn unique_ids(entries: Seq<(Seq<char>, Seq<u8>)>) -> bool {
    forall|i: int, j: int|
        0 <= i < entries.len() && 0 <= j < entries.len() && i != j ==> entries[i].0 != entries[j].0
}

/// Looking up in a list with one more entry at the end finds what the
/// shorter list held, or else the new entry.
pub proof fn lemma_lookup_push(entries: Seq<(Seq<char>, Seq<u8>)>, e: (Seq<char>, Seq<u8>), id: Seq<char>)
    ensures
        lookup(entries.push(e), id) == (match lookup(entries, id) {
            Some(k) => Some(k),
            None => if e.0 == id { Some(e.1) } else { None },
        }),
    decreases entries.len(),
{
    if entries.len() > 0 {
        assert(entries.push(e)[0] == entries[0]);
        assert(entries.push(e).drop_first() =~= entries.drop_first().push(e));
        lemma_lookup_push(entries.drop_first(), e, id);
    } else {
        assert(lookup(Seq::<(Seq<char>, Seq<u8>)>::empty(), id) is None);
        assert(entries.push(e)[0] == e);
        assert(entries.push(e).drop_first() =~= Seq::<(Seq<char>, Seq<u8>)>::empty());
    }
}

/// Once a key is stored under `id`, storing another under `id` is refused:
/// after a successful `add(id, key)` the id is found.
pub proof fn lemma_insert_once(entries: Seq<(Seq<char>, Seq<u8>)>, id: Seq<char>, key: Seq<u8>)
    requires
        lookup(entries, id) is None,
    ensures
        lookup(entries.push((id, key)), id) == Some(key),
{
    lemma_lookup_push(entries, (id, key), id);
}

/// An entry is found exactly when some entry has its id.
pub proof fn lemma_lookup_some(entries: Seq<(Seq<char>, Seq<u8>)>, id: Seq<char>)
    ensures
        lookup(entries, id) is Some <==> exists|i: int| 0 <= i < entries.len() && entries[i].0 == id,
    decreases entries.len(),
{
    if entries.len() > 0 {
        lemma_lookup_some(entries.drop_first(), id);
        if lookup(entries.drop_first(), id) is Some {
            let i = choose|i: int| 0 <= i < entries.drop_first().len() && entries.drop_first()[i].0 == id;
            assert(entries[i + 1].0 == id);
        }
        if exists|i: int| 0 <= i < entries.len() && entries[i].0 == id {
            let i = choose|i: int| 0 <= i < entries.len() && entries[i].0 == id;
            if i > 0 {
                assert(entries.drop_first()[i - 1].0 == id);
            }
        }
    }
}

/// The ids and keys of stored entries.
pub open spec fn entry_views(entries: Seq<(String, PublicKey)>) -> Seq<(Seq<char>, Seq<u8>)> {
    entries.map_values(|e: (String, PublicKey)| (e.0@, e.1@))
}

/// Why a key was not stored.
#[derive(Debug)]
pub enum KeyStoreError {
    /// A key with this id is already stored.
    AlreadyExists(String),
}

/// Public keys by key id, in the order they were added.
pub struct KeyStore {
    keys: Vec<(String, PublicKey)>,
}

impl View for KeyStore {
    type V = Seq<(Seq<char>, Seq<u8>)>;

    closed spec fn view(&self) -> Seq<(Seq<char>, Seq<u8>)> {
        entry_views(self.keys@)
    }
}

impl KeyStore {
    /// The ids are unique.
    pub open spec fn wf(&self) -> bool {
        unique_ids(self@)
    }

    /// An empty store.
    pub fn new() -> (r: KeyStore)
        ensures
            r@ == Seq::<(Seq<char>, Seq<u8>)>::empty(),
            r.wf(),
    {
        let r = KeyStore { keys: Vec::new() };
        assert(r@ =~= Seq::<(Seq<char>, Seq<u8>)>::empty());
        r
    }

    /// A store holding the given entries in order; the first repeated id is refused.
    pub fn open(entries: &Vec<(String, PublicKey)>) -> (r: Result<KeyStore, KeyStoreError>)
        ensures
            match r {
                Ok(s) => s.wf() && s@ == entry_views(entries@),
                Err(_) => !unique_ids(entry_views(entries@)),
            },
    {
        let ghost all = entry_views(entries@);
        let mut store = KeyStore::new();
        let mut i: usize = 0;
        while i < entries.len()
            invariant
                store.wf(),
                all == entry_views(entries@),
                0 <= i <= entries@.len(),
                store@ == all.subrange(0, i as int),
            decreases entries@.len() - i,
        {
            let id = entries[i].0.clone();
            let key = entries[i].1.duplicate();
            let ghost idv = id@;
            assert(idv == all[i as int].0);
            match store.add(id, key) {
                Ok(()) => {},
                Err(e) => {
                    proof {
                        lemma_lookup_some(store@, idv);
                        let k = choose|k: int| 0 <= k < store@.len() && store@[k].0 == idv;
                        assert(all[k].0 == all[i as int].0 && k != i);
                    }
                    return Err(e);
                },
            }
            i = i + 1;
            assert(store@ =~= all.subrange(0, i as int));
        }
        assert(all.subrange(0, all.len() as int) =~= all);
        Ok(store)
    }

    /// The stored key with id `id`, if any.
    pub fn get(&self, id: &str) -> (r: Option<PublicKey>)
        ensures
            match r {
                Some(k) => lookup(self@, id@) == Some(k@),
                None => lookup(self@, id@) is None,
            },
    {
        let target = id.to_owned();
        let mut i: usize = 0;
        assert(self@.subrange(0, self@.len() as int) =~= self@);
        while i < self.keys.len()
            invariant
                0 <= i <= self.keys@.len(),
                target@ == id@,
                self@.len() == self.keys@.len(),
                lookup(self@, id@) == lookup(self@.subrange(i as int, self@.len() as int), id@),
            decreases self.keys@.len() - i,
        {
            let ghost tail = self@.subrange(i as int, self@.len() as int);
            assert(tail.drop_first() =~= self@.subrange(i + 1, self@.len() as int));
            if self.keys[i].0 == target {
                return Some(self.keys[i].1.duplicate());
            }
            i = i + 1;
        }
        None
    }

    /// Whether a key with id `id` is stored.
    pub fn contains(&self, id: &str) -> (r: bool)
        ensures
            r == (lookup(self@, id@) is Some),
    {
        match self.get(id) {
            Some(_) => true,
            None => false,
        }
    }

    /// Stores `key` under `id` unless that id is taken.
    pub fn add(&mut self, id: String, key: PublicKey) -> (r: Result<(), KeyStoreError>)
        requires
            old(self).wf(),
        ensures
            final(self).wf(),
            match r {
                Ok(()) => lookup(old(self)@, id@) is None && final(self)@ == old(self)@.push((id@, key@)),
                Err(KeyStoreError::AlreadyExists(k)) => lookup(old(self)@, id@) is Some
                    && k@ == id@ && final(self)@ == old(self)@,
            },
    {
        if self.contains(id.as_str()) {
            proof {
                lemma_lookup_some(self@, id@);
            }
            return Err(KeyStoreError::AlreadyExists(id));
        }
        proof {
            lemma_lookup_some(self@, id@);
        }
        let ghost before = self@;
        self.keys.push((id, key));
        assert(self@ =~= before.push((id@, key@)));
        Ok(())
    }

    /// The number of stored keys.
    pub fn len(&self) -> (r: usize)
        ensures
            r == self@.len(),
    {
        self.keys.len()
    }

    /// The entry at position `i`, in insertion order.
    pub fn entry(&self, i: usize) -> (r: (&String, &PublicKey))
        requires
            i < self@.len(),
        ensures
            (r.0@, r.1@) == self@[i as int],
    {
        (&self.keys[i].0, &self.keys[i].1)
    }
}

} // verus!
