//! The list of inactive entries in order of use, kept by `lru::LruCache`.
//! Nothing here is proved; the contracts say what the cache relies on.

use lru::LruCache;
use std::num::NonZeroUsize;
use vstd::prelude::*;

verus! {

/// `lru::LruCache`, whose inside the contracts do not see.
#[verifier::external_type_specification]
#[verifier::external_body]
#[verifier::reject_recursive_types(K)]
#[verifier::reject_recursive_types(V)]
#[verifier::reject_recursive_types(S)]
pub struct ExLruCache<K, V, S>(LruCache<K, V, S>);

/// The hasher that `lru::LruCache` uses where none is given.
#[verifier::external_type_specification]
#[verifier::external_body]
pub struct ExLruHasher(lru::DefaultHasher);

/// What the list holds: each key with its flag, the most recently used
/// first.
pub uninterp spec fn lru_entries(c: LruCache<u64, bool>) -> Seq<(u64, bool)>;

/// The number of entries that the list was made to hold at most.
pub uninterp spec fn lru_limit(c: LruCache<u64, bool>) -> nat;

/// Some entry of `entries` has the key `k`.
pub open spec fn listed(entries: Seq<(u64, bool)>, k: u64) -> bool {
    exists|i: int| 0 <= i < entries.len() && (#[trigger] entries[i]).0 == k
}

/// The most entries that a list can be made for. `LruCache::new` reserves
/// its table at once, and refuses a table whose size in bytes would pass
/// `isize::MAX`; a table for this many entries stays below that.
pub const MAX_CAPACITY: usize = usize::MAX / 128;

/// Calls `LruCache::new`. Trusted: the list is empty and holds at most `cap`
/// entries.
#[verifier::external_body]
pub(crate) fn lru_new(cap: usize) -> (c: LruCache<u64, bool>)
    requires
        1 <= cap <= MAX_CAPACITY,
    ensures
        lru_entries(c) == Seq::<(u64, bool)>::empty(),
        lru_limit(c) == cap,
{
    LruCache::new(NonZeroUsize::new(cap).unwrap())
}

/// Calls `LruCache::contains`. Trusted: whether an entry has the key; the
/// order does not change.
#[verifier::external_body]
pub(crate) fn lru_contains(c: &LruCache<u64, bool>, k: &u64) -> (r: bool)
    ensures
        r == listed(lru_entries(*c), *k),
{
    c.contains(k)
}

/// Calls `LruCache::pop`. Trusted: the entry with the key leaves the list
/// and its flag comes back; without such an entry nothing changes.
#[verifier::external_body]
pub(crate) fn lru_pop(c: &mut LruCache<u64, bool>, k: &u64) -> (r: Option<bool>)
    ensures
        lru_limit(*final(c)) == lru_limit(*old(c)),
        match r {
            Some(flag) => exists|i: int|
                0 <= i < lru_entries(*old(c)).len() && #[trigger] lru_entries(*old(c))[i] == (
                    *k,
                    flag,
                ) && lru_entries(*final(c)) == lru_entries(*old(c)).remove(i),
            None => !listed(lru_entries(*old(c)), *k) && lru_entries(*final(c)) == lru_entries(
                *old(c),
            ),
        },
{
    c.pop(k)
}

/// Calls `LruCache::push`. Trusted: the entry becomes the most recently
/// used. An entry that had the key leaves and comes back; otherwise, where
/// the list held as many entries as it may, the least recently used one
/// leaves and comes back.
#[verifier::external_body]
pub(crate) fn lru_push(c: &mut LruCache<u64, bool>, k: u64, flag: bool) -> (r: Option<(u64, bool)>)
    ensures
        lru_limit(*final(c)) == lru_limit(*old(c)),
        forall|i: int|
            0 <= i < lru_entries(*old(c)).len() && (#[trigger] lru_entries(*old(c))[i]).0 == k ==> r
                == Some(lru_entries(*old(c))[i]) && lru_entries(*final(c)) == seq![(k, flag)]
                + lru_entries(*old(c)).remove(i),
        !listed(lru_entries(*old(c)), k) && lru_entries(*old(c)).len() == lru_limit(*old(c)) ==> r
            == Some(lru_entries(*old(c)).last()) && lru_entries(*final(c)) == seq![(k, flag)]
            + lru_entries(*old(c)).drop_last(),
        !listed(lru_entries(*old(c)), k) && lru_entries(*old(c)).len() < lru_limit(*old(c)) ==> r
            is None && lru_entries(*final(c)) == seq![(k, flag)] + lru_entries(*old(c)),
{
    c.push(k, flag)
}

/// Calls `LruCache::pop_lru`. Trusted: the least recently used entry leaves
/// and comes back; an empty list gives `None`.
#[verifier::external_body]
pub(crate) fn lru_pop_lru(c: &mut LruCache<u64, bool>) -> (r: Option<(u64, bool)>)
    ensures
        lru_limit(*final(c)) == lru_limit(*old(c)),
        match r {
            Some(entry) => lru_entries(*old(c)).len() > 0 && entry == lru_entries(*old(c)).last()
                && lru_entries(*final(c)) == lru_entries(*old(c)).drop_last(),
            None => lru_entries(*old(c)).len() == 0 && lru_entries(*final(c)) == lru_entries(
                *old(c),
            ),
        },
{
    c.pop_lru()
}

/// Calls `LruCache::cap`. Trusted: the number that the list was made with.
#[verifier::external_body]
pub(crate) fn lru_cap(c: &LruCache<u64, bool>) -> (r: usize)
    ensures
        r == lru_limit(*c),
{
    c.cap().get()
}

/// No key stands twice in `entries`.
pub open spec fn unique(entries: Seq<(u64, bool)>) -> bool {
    forall|i: int, j: int|
        0 <= i < j < entries.len() ==> (#[trigger] entries[i]).0 != (#[trigger] entries[j]).0
}

/// Where the entry with the key `k` stands.
pub open spec fn place_of(entries: Seq<(u64, bool)>, k: u64) -> int {
    choose|i: int| 0 <= i < entries.len() && (#[trigger] entries[i]).0 == k
}

/// The flag of the entry with the key `k`.
pub open spec fn flag_of(entries: Seq<(u64, bool)>, k: u64) -> bool {
    entries[place_of(entries, k)].1
}

/// The keys of `entries`, in their order.
pub open spec fn keys_of(entries: Seq<(u64, bool)>) -> Seq<u64> {
    Seq::new(entries.len(), |i: int| entries[i].0)
}

/// In a list without repeated keys, an entry is found by its key.
pub proof fn lemma_place(entries: Seq<(u64, bool)>, i: int)
    requires
        unique(entries),
        0 <= i < entries.len(),
    ensures
        listed(entries, entries[i].0),
        place_of(entries, entries[i].0) == i,
        flag_of(entries, entries[i].0) == entries[i].1,
{
    let p = place_of(entries, entries[i].0);
    assert(0 <= p < entries.len() && entries[p].0 == entries[i].0);
    if p < i {
        assert(entries[p].0 != entries[i].0);
    } else if i < p {
        assert(entries[i].0 != entries[p].0);
    }
}

/// Taking one entry out leaves the others, with their flags.
pub proof fn lemma_entry_removed(entries: Seq<(u64, bool)>, i: int)
    requires
        unique(entries),
        0 <= i < entries.len(),
    ensures
        unique(entries.remove(i)),
        !listed(entries.remove(i), entries[i].0),
        forall|k: u64|
            k != entries[i].0 ==> #[trigger] listed(entries.remove(i), k) == listed(entries, k),
        forall|k: u64|
            k != entries[i].0 && listed(entries, k) ==> #[trigger] flag_of(entries.remove(i), k)
                == flag_of(entries, k),
{
    let after = entries.remove(i);
    assert forall|a: int, b: int| 0 <= a < b < after.len() implies (#[trigger] after[a]).0 != (
    #[trigger] after[b]).0 by {
        let xa = if a < i { a } else { a + 1 };
        let xb = if b < i { b } else { b + 1 };
        assert(entries[xa].0 != entries[xb].0);
    }
    if listed(after, entries[i].0) {
        let a = place_of(after, entries[i].0);
        let xa = if a < i { a } else { a + 1 };
        assert(after[a] == entries[xa]);
        if xa < i {
            assert(entries[xa].0 != entries[i].0);
        } else {
            assert(entries[i].0 != entries[xa].0);
        }
    }
    assert forall|k: u64| k != entries[i].0 implies #[trigger] listed(after, k) == listed(
        entries,
        k,
    ) by {
        if listed(entries, k) {
            let x = place_of(entries, k);
            let a = if x < i { x } else { x - 1 };
            assert(after[a] == entries[x]);
        }
        if listed(after, k) {
            let a = place_of(after, k);
            let x = if a < i { a } else { a + 1 };
            assert(after[a] == entries[x]);
        }
    }
    assert forall|k: u64| k != entries[i].0 && listed(entries, k) implies #[trigger] flag_of(
        after,
        k,
    ) == flag_of(entries, k) by {
        let x = place_of(entries, k);
        let a = if x < i { x } else { x - 1 };
        assert(after[a] == entries[x]);
        lemma_place(after, a);
        lemma_place(entries, x);
    }
}

/// Putting an entry with a new key in front leaves the others, with their
/// flags.
pub proof fn lemma_entry_pushed(entries: Seq<(u64, bool)>, k: u64, flag: bool)
    requires
        unique(entries),
        !listed(entries, k),
    ensures
        unique(seq![(k, flag)] + entries),
        forall|x: u64| #[trigger] listed(seq![(k, flag)] + entries, x) == (x == k || listed(entries, x)),
        flag_of(seq![(k, flag)] + entries, k) == flag,
        forall|x: u64|
            listed(entries, x) ==> #[trigger] flag_of(seq![(k, flag)] + entries, x) == flag_of(
                entries,
                x,
            ),
{
    let after = seq![(k, flag)] + entries;
    assert forall|a: int| 1 <= a < after.len() implies #[trigger] after[a] == entries[a - 1] by {}
    assert forall|a: int, b: int| 0 <= a < b < after.len() implies (#[trigger] after[a]).0 != (
    #[trigger] after[b]).0 by {
        if a == 0 {
            assert(entries[b - 1].0 != k);
        } else {
            assert(entries[a - 1].0 != entries[b - 1].0);
        }
    }
    assert(after[0].0 == k);
    lemma_place(after, 0);
    assert forall|x: u64| #[trigger] listed(after, x) == (x == k || listed(entries, x)) by {
        if listed(entries, x) {
            let i = place_of(entries, x);
            assert(after[i + 1] == entries[i]);
        }
        if listed(after, x) && x != k {
            let a = place_of(after, x);
            assert(after[a] == entries[a - 1]);
        }
    }
    assert forall|x: u64| listed(entries, x) implies #[trigger] flag_of(after, x) == flag_of(
        entries,
        x,
    ) by {
        let i = place_of(entries, x);
        assert(after[i + 1] == entries[i]);
        lemma_place(after, i + 1);
        lemma_place(entries, i);
    }
}

/// `order` without the key `k`.
pub open spec fn drop_key(order: Seq<u64>, k: u64) -> Seq<u64> {
    if order.contains(k) {
        order.remove(order.index_of(k))
    } else {
        order
    }
}

/// The keys after an entry left are the keys without its key.
pub proof fn lemma_keys_removed(entries: Seq<(u64, bool)>, i: int)
    requires
        unique(entries),
        0 <= i < entries.len(),
    ensures
        keys_of(entries.remove(i)) == drop_key(keys_of(entries), entries[i].0),
{
    let keys = keys_of(entries);
    let k = entries[i].0;
    assert(keys[i] == k);
    assert(keys.contains(k));
    let p = keys.index_of(k);
    assert(0 <= p < keys.len() && keys[p] == k);
    if p < i {
        assert(entries[p].0 != entries[i].0);
    } else if i < p {
        assert(entries[i].0 != entries[p].0);
    }
    assert(keys_of(entries.remove(i)) =~= keys.remove(i));
}

/// Dropping a key that no entry has changes nothing.
pub proof fn lemma_keys_absent(entries: Seq<(u64, bool)>, k: u64)
    requires
        !listed(entries, k),
    ensures
        drop_key(keys_of(entries), k) == keys_of(entries),
{
    let keys = keys_of(entries);
    if keys.contains(k) {
        let p = choose|p: int| 0 <= p < keys.len() && keys[p] == k;
        assert(entries[p].0 == k);
    }
}

/// The keys after an entry came in front are its key and then the others.
pub proof fn lemma_keys_pushed(entries: Seq<(u64, bool)>, k: u64, flag: bool)
    ensures
        keys_of(seq![(k, flag)] + entries) == seq![k] + keys_of(entries),
{
    assert(keys_of(seq![(k, flag)] + entries) =~= seq![k] + keys_of(entries));
}

} // verus!
