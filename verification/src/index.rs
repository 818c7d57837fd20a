//! The index of the folder-backed store against its records: each key leads
//! to the slot that holds its record, and each record is led to by its key.

use crate::level2::{without, Ref};
use vstd::prelude::*;

verus! {

/// `index` and `records` agree: the slot that `index` gives for a key holds
/// a record with that key, and the key of every record is indexed to the
/// record's slot.
pub open spec fn indexed(records: Map<Ref, (u64, Seq<u8>)>, index: Map<u64, Ref>) -> bool {
    &&& forall|k: u64|
        #![trigger index.contains_key(k)]
        index.contains_key(k) ==> records.contains_key(index[k]) && records[index[k]].0 == k
    &&& forall|r: Ref|
        #![trigger records.contains_key(r)]
        records.contains_key(r) ==> index.contains_key(records[r].0) && index[records[r].0] == r
}

/// What the store holds: under each indexed key, the value bytes of its
/// record.
pub open spec fn contents_of(records: Map<Ref, (u64, Seq<u8>)>, index: Map<u64, Ref>) -> Map<
    u64,
    Seq<u8>,
> {
    Map::new(|k: u64| index.contains_key(k), |k: u64| records[index[k]].1)
}

/// The index after the record of key `k` at `r` went and the record at
/// `last` moved into its slot.
pub open spec fn reindexed(
    records: Map<Ref, (u64, Seq<u8>)>,
    index: Map<u64, Ref>,
    k: u64,
    r: Ref,
    last: Ref,
) -> Map<u64, Ref> {
    if r == last {
        index.remove(k)
    } else {
        index.remove(k).insert(records[last].0, r)
    }
}

/// A new record under a new key: the index takes the key, the contents take
/// the value.
pub proof fn lemma_index_add(
    records: Map<Ref, (u64, Seq<u8>)>,
    index: Map<u64, Ref>,
    at: Ref,
    k: u64,
    v: Seq<u8>,
)
    requires
        indexed(records, index),
        !index.contains_key(k),
        !records.contains_key(at),
    ensures
        indexed(records.insert(at, (k, v)), index.insert(k, at)),
        contents_of(records.insert(at, (k, v)), index.insert(k, at)) == contents_of(
            records,
            index,
        ).insert(k, v),
{
    let records2 = records.insert(at, (k, v));
    let index2 = index.insert(k, at);
    assert forall|x: u64| #![trigger index2.contains_key(x)] index2.contains_key(x) implies records2.contains_key(
        index2[x],
    ) && records2[index2[x]].0 == x by {
        if x != k {
            assert(index.contains_key(x));
        }
    }
    assert forall|r: Ref| #![trigger records2.contains_key(r)] records2.contains_key(r) implies index2.contains_key(
        records2[r].0,
    ) && index2[records2[r].0] == r by {
        if r != at {
            assert(records.contains_key(r));
        }
    }
    assert forall|x: u64| index.contains_key(x) implies index[x] != at by {}
    assert(contents_of(records2, index2) =~= contents_of(records, index).insert(k, v));
}

/// A record written over the one of the same key: the index stays, the
/// contents take the value.
pub proof fn lemma_index_overwrite(
    records: Map<Ref, (u64, Seq<u8>)>,
    index: Map<u64, Ref>,
    k: u64,
    v: Seq<u8>,
)
    requires
        indexed(records, index),
        index.contains_key(k),
    ensures
        indexed(records.insert(index[k], (k, v)), index),
        contents_of(records.insert(index[k], (k, v)), index) == contents_of(records, index).insert(
            k,
            v,
        ),
{
    let r = index[k];
    let records2 = records.insert(r, (k, v));
    assert forall|x: u64| #![trigger index.contains_key(x)] index.contains_key(x) implies records2.contains_key(
        index[x],
    ) && records2[index[x]].0 == x by {}
    assert forall|q: Ref| #![trigger records2.contains_key(q)] records2.contains_key(q) implies index.contains_key(
        records2[q].0,
    ) && index[records2[q].0] == q by {
        if q != r {
            assert(records.contains_key(q));
        }
    }
    assert forall|x: u64| index.contains_key(x) && x != k implies index[x] != r by {}
    assert(contents_of(records2, index) =~= contents_of(records, index).insert(k, v));
}

/// A record removed by swapping: the index loses the key and follows the
/// record that moved; the contents lose the key.
pub proof fn lemma_index_remove(
    records: Map<Ref, (u64, Seq<u8>)>,
    index: Map<u64, Ref>,
    k: u64,
    last: Ref,
)
    requires
        indexed(records, index),
        index.contains_key(k),
        records.contains_key(last),
    ensures
        index[k] != last ==> records[last].0 != k,
        indexed(
            without(records, index[k], last),
            reindexed(records, index, k, index[k], last),
        ),
        contents_of(
            without(records, index[k], last),
            reindexed(records, index, k, index[k], last),
        ) == contents_of(records, index).remove(k),
{
    let r = index[k];
    let records2 = without(records, r, last);
    let index2 = reindexed(records, index, k, r, last);
    let moved = records[last].0;
    assert(index.contains_key(moved) && index[moved] == last);
    assert forall|x: u64| #![trigger index2.contains_key(x)] index2.contains_key(x) implies records2.contains_key(
        index2[x],
    ) && records2[index2[x]].0 == x by {
        assert(index.contains_key(x));
    }
    assert forall|q: Ref| #![trigger records2.contains_key(q)] records2.contains_key(q) implies index2.contains_key(
        records2[q].0,
    ) && index2[records2[q].0] == q by {
        assert(records.contains_key(q));
    }
    assert forall|x: u64| index.contains_key(x) && x != k implies index[x] != r by {}
    assert(contents_of(records2, index2) =~= contents_of(records, index).remove(k));
}

/// A record that moved to another bucket: removed by swapping where it was,
/// added where it belongs now.
pub proof fn lemma_index_migrate(
    records: Map<Ref, (u64, Seq<u8>)>,
    index: Map<u64, Ref>,
    k: u64,
    last: Ref,
    at: Ref,
    v: Seq<u8>,
)
    requires
        indexed(records, index),
        index.contains_key(k),
        records.contains_key(last),
        !records.contains_key(at),
    ensures
        indexed(
            without(records, index[k], last).insert(at, (k, v)),
            reindexed(records, index, k, index[k], last).insert(k, at),
        ),
        contents_of(
            without(records, index[k], last).insert(at, (k, v)),
            reindexed(records, index, k, index[k], last).insert(k, at),
        ) == contents_of(records, index).insert(k, v),
        index[k] != last ==> index.insert(k, at).insert(records[last].0, index[k]) == reindexed(
            records,
            index,
            k,
            index[k],
            last,
        ).insert(k, at),
        index[k] == last ==> index.insert(k, at) == reindexed(records, index, k, index[k], last).insert(
            k,
            at,
        ),
{
    let r = index[k];
    lemma_index_remove(records, index, k, last);
    let records2 = without(records, r, last);
    let index2 = reindexed(records, index, k, r, last);
    lemma_index_add(records2, index2, at, k, v);
    assert(contents_of(records, index).remove(k).insert(k, v) =~= contents_of(records, index).insert(
        k,
        v,
    ));
    if r != last {
        assert(index.insert(k, at).insert(records[last].0, r) =~= index2.insert(k, at));
    } else {
        assert(index.insert(k, at) =~= index2.insert(k, at));
    }
}

/// Two indexes that agree with the same records are the same.
pub proof fn lemma_index_determined(
    records: Map<Ref, (u64, Seq<u8>)>,
    a: Map<u64, Ref>,
    b: Map<u64, Ref>,
)
    requires
        indexed(records, a),
        indexed(records, b),
    ensures
        a == b,
{
    assert forall|k: u64| a.contains_key(k) == b.contains_key(k) by {
        if a.contains_key(k) {
            assert(records.contains_key(a[k]));
        }
        if b.contains_key(k) {
            assert(records.contains_key(b[k]));
        }
    }
    assert forall|k: u64| a.contains_key(k) implies a[k] == b[k] by {
        assert(records.contains_key(a[k]));
    }
    assert(a =~= b);
}

} // verus!
