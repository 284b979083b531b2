use vstd::prelude::*;

verus! {

/// The block cache type: block index to decoded strings, hashed with
/// std's default hasher.
pub type BlockLru = lru::LruCache<usize, Vec<String>, std::collections::hash_map::RandomState>;

#[verifier::external_type_specification]
#[verifier::external_body]
#[verifier::reject_recursive_types(K)]
#[verifier::reject_recursive_types(V)]
#[verifier::reject_recursive_types(S)]
pub struct ExLruCache<K, V, S>(lru::LruCache<K, V, S>);

/// The entries of the cache, most recently used first: pairs of a block
/// index and the decoded strings of that block.
pub uninterp spec fn cache_entries(c: BlockLru) -> Seq<
    (usize, Seq<Seq<char>>),
>;

/// The capacity the cache was created with.
pub uninterp spec fn cache_cap(c: BlockLru) -> nat;

/// Index of the first entry holding key `k`, or the length when no entry
/// does.
pub open spec fn entry_index(s: Seq<(usize, Seq<Seq<char>>)>, k: usize) -> int
    decreases s.len(),
{
    if s.len() == 0 {
        0
    } else if s[0].0 == k {
        0
    } else {
        1 + entry_index(s.drop_first(), k)
    }
}

pub proof fn lemma_entry_index_range(s: Seq<(usize, Seq<Seq<char>>)>, k: usize)
    ensures
        0 <= entry_index(s, k) <= s.len(),
        entry_index(s, k) < s.len() ==> s[entry_index(s, k)].0 == k,
        forall|j: int| 0 <= j < entry_index(s, k) ==> (#[trigger] s[j]).0 != k,
    decreases s.len(),
{
    if s.len() > 0 && s[0].0 != k {
        lemma_entry_index_range(s.drop_first(), k);
        assert forall|j: int| 0 <= j < entry_index(s, k) implies (#[trigger] s[j]).0 != k by {
            if j > 0 {
                assert(s.drop_first()[j - 1] == s[j]);
            }
        }
    }
}

/// If no entry holds `k`, the index is the length.
pub proof fn lemma_entry_index_absent(s: Seq<(usize, Seq<Seq<char>>)>, k: usize)
    requires
        forall|j: int| 0 <= j < s.len() ==> (#[trigger] s[j]).0 != k,
    ensures
        entry_index(s, k) == s.len(),
    decreases s.len(),
{
    if s.len() > 0 {
        assert forall|j: int| 0 <= j < s.drop_first().len() implies (#[trigger] s.drop_first()[j]).0
            != k by {
            assert(s.drop_first()[j] == s[j + 1]);
        }
        lemma_entry_index_absent(s.drop_first(), k);
    }
}

/// Relies on lru::LruCache::new: a fresh cache is empty and keeps at most
/// `cap` entries.
#[verifier::external_body]
pub fn cache_new(cap: usize) -> (r: BlockLru)
    requires
        cap >= 1,
    ensures
        cache_entries(r) == Seq::<(usize, Seq<Seq<char>>)>::empty(),
        cache_cap(r) == cap,
{
    lru::LruCache::with_hasher(
        std::num::NonZeroUsize::new(cap).expect("capacity is at least one"),
        std::collections::hash_map::RandomState::new(),
    )
}

/// Relies on lru::LruCache::get: a hit clones the stored strings and
/// moves the entry to the most recent position; a miss changes nothing.
#[verifier::external_body]
pub fn cache_get(c: &mut BlockLru, k: usize) -> (r: Option<Vec<String>>)
    ensures
        cache_cap(*final(c)) == cache_cap(*old(c)),
        entry_index(cache_entries(*old(c)), k) < cache_entries(*old(c)).len() ==> (r matches Some(v)
            && v.deep_view() == cache_entries(*old(c))[entry_index(cache_entries(*old(c)), k)].1
            && cache_entries(*final(c)) == seq![
            cache_entries(*old(c))[entry_index(cache_entries(*old(c)), k)],
        ] + cache_entries(*old(c)).remove(entry_index(cache_entries(*old(c)), k))),
        entry_index(cache_entries(*old(c)), k) >= cache_entries(*old(c)).len() ==> (r is None
            && cache_entries(*final(c)) == cache_entries(*old(c))),
{
    c.get(&k).cloned()
}

/// Relies on lru::LruCache::put: inserting a key the cache does not hold
/// puts it in the most recent position, and drops the least recently
/// used entry when the cache is full.
#[verifier::external_body]
pub fn cache_put(c: &mut BlockLru, k: usize, v: Vec<String>)
    requires
        entry_index(cache_entries(*old(c)), k) >= cache_entries(*old(c)).len(),
    ensures
        cache_cap(*final(c)) == cache_cap(*old(c)),
        cache_entries(*old(c)).len() < cache_cap(*old(c)) ==> cache_entries(*final(c)) == seq![
            (k, v.deep_view()),
        ] + cache_entries(*old(c)),
        cache_entries(*old(c)).len() >= cache_cap(*old(c)) ==> cache_entries(*final(c)) == seq![
            (k, v.deep_view()),
        ] + cache_entries(*old(c)).drop_last(),
{
    c.put(k, v);
}

/// Relies on lru::LruCache::len: the number of entries held.
#[verifier::external_body]
pub fn cache_len(c: &BlockLru) -> (r: usize)
    ensures
        r == cache_entries(*c).len(),
{
    c.len()
}

} // verus!
