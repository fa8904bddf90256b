//! A cache for a small number of entries.
//!
//! A [`DynamicCache`] starts as a list that is searched from the front.
//! Once the list holds as many entries as the key type's cutoff, the next
//! insertion turns the cache into a hash map, and a hash map it stays.

use std::collections::HashMap;
use vstd::prelude::*;
use vstd::std_specs::hash::*;

verus! {

broadcast use vstd::std_specs::hash::group_hash_axioms;

/// A key of a [`DynamicCache`].
pub trait DynamicKey: Sized {
    /// The number of entries from which a cache with this key type hashes.
    spec fn linear_cutoff_spec() -> usize;

    /// The number that stands for this key: the cache treats two keys as the
    /// same key exactly when they have the same number.
    spec fn id(&self) -> u128;

    /// Maximum number of items in a linear search.
    fn linear_cutoff() -> (cutoff: usize)
        ensures
            cutoff == Self::linear_cutoff_spec(),
    ;

    /// Computes [`id`](DynamicKey::id).
    fn ident(&self) -> (id: u128)
        ensures
            id == self.id(),
    ;
}

/// Identifies a string of static lifetime by the place where it is stored:
/// its address and its length. Such a string never changes, so two keys that
/// are equal were made from the same text.
#[derive(Debug, Copy, Clone, Hash, PartialEq, Eq, Structural)]
pub struct StrKey {
    ptr: usize,
    len: usize,
}

/// The address of the first byte of `text`, as `str::as_ptr` gives it.
/// Nothing is stated of the address.
#[verifier::external_body]
fn address(text: &'static str) -> usize {
    text.as_ptr() as usize
}

impl StrKey {
    /// The address that the key was made with.
    pub closed spec fn ptr(self) -> usize {
        self.ptr
    }

    /// The length in bytes that the key was made with.
    pub closed spec fn len(self) -> usize {
        self.len
    }

    /// The key of `text`: the address of `text` and its length in bytes.
    pub fn new(text: &'static str) -> (key: StrKey)
        ensures
            key.len() == text.len(),
    {
        StrKey { ptr: address(text), len: text.len() }
    }

    /// Two keys have the same number exactly when they have the same
    /// address and the same length.
    pub proof fn lemma_id_injective(self, other: StrKey)
        ensures
            self.id() == other.id() <==> self == other,
    {
    }
}

impl DynamicKey for StrKey {
    open spec fn linear_cutoff_spec() -> usize {
        64
    }

    closed spec fn id(&self) -> u128 {
        (self.ptr as u128 * 0x1_0000_0000_0000_0000 + self.len as u128) as u128
    }

    fn linear_cutoff() -> (cutoff: usize) {
        64
    }

    fn ident(&self) -> (id: u128) {
        self.ptr as u128 * 0x1_0000_0000_0000_0000 + self.len as u128
    }
}

/// The value of the first of `entries`, from index `from` on, whose number is `id`.
pub open spec fn first_entry<V>(entries: Seq<(u128, V)>, id: u128, from: int) -> Option<V>
    decreases entries.len() - from,
{
    if from < 0 || from >= entries.len() {
        None
    } else if entries[from].0 == id {
        Some(entries[from].1)
    } else {
        first_entry(entries, id, from + 1)
    }
}

/// The map that inserting `entries` one after the other gives: a later
/// entry replaces an earlier one with the same number.
pub open spec fn collected<V>(entries: Seq<(u128, V)>) -> Map<u128, V>
    decreases entries.len(),
{
    if entries.len() == 0 {
        Map::empty()
    } else {
        collected(entries.drop_last()).insert(entries.last().0, entries.last().1)
    }
}

/// What a [`DynamicCache`] holds, with each key given by its number.
pub enum CacheState<V> {
    /// The entries in the order of their insertion.
    Linear(Seq<(u128, V)>),
    /// The hashed entries.
    Hashed(Map<u128, V>),
}

impl<V> CacheState<V> {
    /// The value that a lookup of `id` finds: in a list the first entry
    /// with that number, in a map the one entry with it.
    pub open spec fn get(self, id: u128) -> Option<V> {
        match self {
            CacheState::Linear(entries) => first_entry(entries, id, 0),
            CacheState::Hashed(map) => if map.contains_key(id) {
                Some(map[id])
            } else {
                None
            },
        }
    }

    /// The state after inserting `value` under `id`. A list shorter than
    /// `cutoff` gets the entry at its end. A list of `cutoff` entries or more
    /// is first collected into a map. In a map the entry replaces the one
    /// with the same number.
    pub open spec fn insert(self, id: u128, value: V, cutoff: usize) -> CacheState<V> {
        match self {
            CacheState::Linear(entries) => if entries.len() >= cutoff {
                CacheState::Hashed(collected(entries).insert(id, value))
            } else {
                CacheState::Linear(entries.push((id, value)))
            },
            CacheState::Hashed(map) => CacheState::Hashed(map.insert(id, value)),
        }
    }

    /// Whether no two entries have the same number. In a map this always holds.
    pub open spec fn distinct(self) -> bool {
        match self {
            CacheState::Linear(entries) => forall|i: int, j: int|
                0 <= i < j < entries.len() ==> entries[i].0 != entries[j].0,
            CacheState::Hashed(_) => true,
        }
    }
}

/// A lookup in a list that got one more entry at its end finds what it
/// found before, and the new entry where it found nothing.
pub proof fn lemma_first_entry_push<V>(entries: Seq<(u128, V)>, entry: (u128, V), id: u128, from: int)
    requires
        0 <= from <= entries.len(),
    ensures
        first_entry(entries.push(entry), id, from) == match first_entry(entries, id, from) {
            Some(value) => Some(value),
            None => if entry.0 == id {
                Some(entry.1)
            } else {
                None
            },
        },
    decreases entries.len() - from,
{
    if from < entries.len() {
        assert(entries.push(entry)[from] == entries[from]);
        if entries[from].0 != id {
            lemma_first_entry_push(entries, entry, id, from + 1);
        }
    } else {
        let longer = entries.push(entry);
        assert(longer[from] == entry);
        assert(first_entry(longer, id, from + 1) is None);
    }
}

/// A lookup in a list finds nothing exactly when no entry from `from` on
/// has the number.
pub proof fn lemma_first_entry_none<V>(entries: Seq<(u128, V)>, id: u128, from: int)
    requires
        0 <= from,
    ensures
        first_entry(entries, id, from) is None <==> forall|i: int|
            from <= i < entries.len() ==> (#[trigger] entries[i]).0 != id,
    decreases entries.len() - from,
{
    if from < entries.len() && entries[from].0 != id {
        lemma_first_entry_none(entries, id, from + 1);
    }
}

/// Hashing a list in which no number occurs twice loses nothing: every
/// lookup finds in the map what it found in the list.
pub proof fn lemma_promotion_lossless<V>(entries: Seq<(u128, V)>, id: u128)
    requires
        CacheState::Linear(entries).distinct(),
    ensures
        CacheState::Hashed(collected(entries)).get(id) == CacheState::Linear(entries).get(id),
    decreases entries.len(),
{
    if entries.len() > 0 {
        let front = entries.drop_last();
        let last = entries.last();
        lemma_promotion_lossless(front, id);
        lemma_first_entry_push(front, last, id, 0);
        assert(front.push(last) =~= entries);
        if last.0 == id {
            lemma_first_entry_none(front, id, 0);
            assert forall|i: int| 0 <= i < front.len() implies (#[trigger] front[i]).0 != id by {
                assert(front[i] == entries[i]);
            }
        }
    }
}

/// An insertion leaves the lookups of every other key as they were,
/// whether or not it hashes the cache, provided that no number occurs twice.
pub proof fn lemma_insert_keeps_others<V>(
    state: CacheState<V>,
    id: u128,
    value: V,
    cutoff: usize,
    other: u128,
)
    requires
        state.distinct(),
        other != id,
    ensures
        state.insert(id, value, cutoff).get(other) == state.get(other),
{
    match state {
        CacheState::Linear(entries) => {
            if entries.len() >= cutoff {
                lemma_promotion_lossless(entries, other);
            } else {
                lemma_first_entry_push(entries, (id, value), other, 0);
            }
        },
        CacheState::Hashed(_) => {},
    }
}

/// After an insertion a lookup of the key finds the inserted value;
/// except in a list that stays a list and already had an entry for the
/// key, where it still finds that entry.
pub proof fn lemma_insert_then_get<V>(state: CacheState<V>, id: u128, value: V, cutoff: usize)
    ensures
        state.insert(id, value, cutoff).get(id) == if state is Linear && state.insert(
            id,
            value,
            cutoff,
        ) is Linear && state.get(id) is Some {
            state.get(id)
        } else {
            Some(value)
        },
{
    match state {
        CacheState::Linear(entries) => {
            if entries.len() < cutoff {
                lemma_first_entry_push(entries, (id, value), id, 0);
            }
        },
        CacheState::Hashed(_) => {},
    }
}

/// Inserting a key that the cache does not hold keeps the numbers distinct.
pub proof fn lemma_insert_keeps_distinct<V>(state: CacheState<V>, id: u128, value: V, cutoff: usize)
    requires
        state.distinct(),
        state.get(id) is None,
    ensures
        state.insert(id, value, cutoff).distinct(),
{
    if let CacheState::Linear(entries) = state {
        lemma_first_entry_none(entries, id, 0);
    }
}

/// The step from list to map is taken once and never back: a list that has
/// reached the cutoff is hashed by the next insertion, and a hashed cache
/// stays hashed.
pub proof fn lemma_promotion_is_final<V>(state: CacheState<V>, id: u128, value: V, cutoff: usize)
    ensures
        state is Hashed ==> state.insert(id, value, cutoff) is Hashed,
        state matches CacheState::Linear(entries) ==> (state.insert(id, value, cutoff) is Hashed
            <==> entries.len() >= cutoff),
{
}

/// A cache optimized for a small number of items.
pub enum DynamicCache<K: DynamicKey, V> {
    Linear(Vec<(K, V)>),
    Hash(HashMap<u128, V>),
}

/// The entries of a list with each key replaced by its number.
pub open spec fn numbered<K: DynamicKey, V>(pairs: Seq<(K, V)>) -> Seq<(u128, V)> {
    Seq::new(pairs.len(), |i: int| (pairs[i].0.id(), pairs[i].1))
}

impl<K: DynamicKey, V> View for DynamicCache<K, V> {
    type V = CacheState<V>;

    open spec fn view(&self) -> CacheState<V> {
        match self {
            DynamicCache::Linear(pairs) => CacheState::Linear(numbered(pairs@)),
            DynamicCache::Hash(map) => CacheState::Hashed(map@),
        }
    }
}

impl<K: DynamicKey, V> DynamicCache<K, V> {
    /// Looks `index` up: in a list the first entry whose key has the
    /// number of `index`, in a map the entry under that number.
    pub fn get(&self, index: &K) -> (found: Option<&V>)
        ensures
            match found {
                Some(value) => self@.get(index.id()) == Some(*value),
                None => self@.get(index.id()) is None,
            },
    {
        let id = index.ident();
        match self {
            DynamicCache::Linear(pairs) => {
                let mut i: usize = 0;
                while i < pairs.len()
                    invariant
                        i <= pairs.len(),
                        id == index.id(),
                        self@ == CacheState::Linear(numbered(pairs@)),
                        first_entry(numbered(pairs@), id, 0) == first_entry(
                            numbered(pairs@),
                            id,
                            i as int,
                        ),
                    decreases pairs.len() - i,
                {
                    assert(numbered(pairs@)[i as int] == (pairs@[i as int].0.id(), pairs@[i as int].1));
                    if pairs[i].0.ident() == id {
                        return Some(&pairs[i].1);
                    }
                    i = i + 1;
                }
                None
            },
            DynamicCache::Hash(map) => map.get(&id),
        }
    }

    /// Insert a new key-value pair into the cache, and grow the cache if necessary.
    pub fn insert(&mut self, key: K, value: V)
        ensures
            final(self)@ == old(self)@.insert(key.id(), value, K::linear_cutoff_spec()),
    {
        let id = key.ident();
        let full = match &*self {
            DynamicCache::Linear(pairs) => pairs.len() >= K::linear_cutoff(),
            DynamicCache::Hash(_) => false,
        };
        if full {
            let mut list = DynamicCache::Hash(HashMap::new());
            std::mem::swap(self, &mut list);
            if let DynamicCache::Linear(pairs) = list {
                let ghost entries = numbered(pairs@);
                let mut map: HashMap<u128, V> = HashMap::new();
                for pair in it: pairs
                    invariant
                        entries == numbered(it.seq()),
                        map@ == collected(entries.take(it.index() as int)),
                {
                    let ghost n = it.index() as int;
                    let (k, v) = pair;
                    map.insert(k.ident(), v);
                    proof {
                        assert(entries.take(n + 1).drop_last() =~= entries.take(n));
                    }
                }
                proof {
                    assert(entries.take(entries.len() as int) =~= entries);
                }
                *self = DynamicCache::Hash(map);
            }
        }
        match self {
            DynamicCache::Linear(pairs) => {
                let ghost before = numbered(pairs@);
                pairs.push((key, value));
                proof {
                    assert(numbered(pairs@) =~= before.push((id, value)));
                }
            },
            DynamicCache::Hash(map) => {
                map.insert(id, value);
            },
        }
    }
}

impl<K: DynamicKey, V> Default for DynamicCache<K, V> {
    /// The empty cache: a list without entries.
    fn default() -> (cache: Self)
        ensures
            cache@ == CacheState::<V>::Linear(Seq::empty()),
    {
        let cache = DynamicCache::Linear(Vec::new());
        proof {
            assert(numbered::<K, V>(Seq::empty()) =~= Seq::<(u128, V)>::empty());
        }
        cache
    }
}

} // verus!
