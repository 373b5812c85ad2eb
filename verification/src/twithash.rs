//! A generic associative container with chained collision resolution and
//! automatic growth: a vector of buckets, each a vector of entries holding the
//! key, the value and the key's precomputed hash. The bucket of a key is
//! `hash % capacity`; the capacity is a power of two starting at 16, so the
//! remainder equals the masked low bits of the hash. Immediately after any
//! insertion the load factor `count / capacity` is at most 3/4; passing it
//! triggers a doubling rehash that redistributes every entry.
use std::collections::hash_map::DefaultHasher;
use std::hash::Hasher;
use vstd::prelude::*;
use vstd::std_specs::cmp::PartialEqSpec;
use vstd::std_specs::hash::DefaultHasherAdditionalSpecFns;

verus! {

/// A key of a `TwitHash`: hashable and comparable, both determined by the
/// key's abstract view, so that equal keys hash equal.
pub trait HashKey: View + Sized {
    /// The hash of a key, as a function of its view alone.
    spec fn key_hash(kv: Self::V) -> u64;

    /// Computes the hash of this key.
    fn hash_of(&self) -> (h: u64)
        ensures
            h == Self::key_hash(self@),
    ;

    /// Decides equality of the views of two keys.
    fn key_eq(&self, other: &Self) -> (r: bool)
        ensures
            r == (self@ == other@),
    ;
}

impl HashKey for String {
    /// A string key hashes to what std's `DefaultHasher` returns after one
    /// write of the string's UTF-8 bytes: a well-distributed function of the
    /// characters alone.
    open spec fn key_hash(kv: Seq<char>) -> u64 {
        DefaultHasher::spec_finish(seq![vstd::utf8::encode_utf8(kv)])
    }

    fn hash_of(&self) -> (h: u64) {
        let mut hasher = DefaultHasher::new();
        hasher.write(self.as_str().as_bytes());
        proof {
            assert(hasher@ =~= seq![vstd::utf8::encode_utf8(self@)]);
        }
        hasher.finish()
    }

    fn key_eq(&self, other: &Self) -> (r: bool) {
        *self == *other
    }
}

/// One slot of a bucket: a key, its value, and the key's hash, computed once.
struct Entry<K, V> {
    key: K,
    value: V,
    hash: u64,
}

/// The buckets as a mathematical value: for each bucket, the sequence of
/// (key view, value) pairs it holds.
type Buckets<KV, V> = Seq<Seq<(KV, V)>>;

/// Whether some bucket holds an entry whose key has the given view.
pub open spec fn table_has_key<KV, V>(bs: Buckets<KV, V>, k: KV) -> bool {
    exists|i: int, j: int|
        0 <= i < bs.len() && 0 <= j < bs[i].len() && (#[trigger] bs[i][j]).0 == k
}

/// The value stored beside the given key view (meaningful when the keys are
/// distinct and the key is present).
pub open spec fn table_value<KV, V>(bs: Buckets<KV, V>, k: KV) -> V {
    let (i, j) = choose|i: int, j: int|
        0 <= i < bs.len() && 0 <= j < bs[i].len() && (#[trigger] bs[i][j]).0 == k;
    bs[i][j].1
}

/// The mapping from key views to values that the buckets represent.
pub open spec fn table_map<KV, V>(bs: Buckets<KV, V>) -> Map<KV, V> {
    Map::new(|k: KV| table_has_key(bs, k), |k: KV| table_value(bs, k))
}

/// No two entries hold keys with the same view.
pub open spec fn distinct_keys<KV, V>(bs: Buckets<KV, V>) -> bool {
    forall|i1: int, j1: int, i2: int, j2: int|
        0 <= i1 < bs.len() && 0 <= j1 < bs[i1].len() && 0 <= i2 < bs.len() && 0 <= j2
            < bs[i2].len() && (#[trigger] bs[i1][j1]).0 == (#[trigger] bs[i2][j2]).0 ==> i1 == i2
            && j1 == j2
}

/// The total number of entries over all buckets.
pub open spec fn table_size<KV, V>(bs: Buckets<KV, V>) -> nat
    decreases bs.len(),
{
    if bs.len() == 0 {
        0
    } else {
        table_size(bs.drop_last()) + bs.last().len()
    }
}

/// Whether `n` is a power of two.
pub open spec fn is_pow2(n: nat) -> bool
    decreases n,
{
    if n == 0 {
        false
    } else if n == 1 {
        true
    } else {
        n % 2 == 0 && is_pow2(n / 2)
    }
}

/// A value present at a position is the one `table_value` picks, when keys are
/// distinct.
proof fn lemma_table_value_at<KV, V>(bs: Buckets<KV, V>, i: int, j: int)
    requires
        distinct_keys(bs),
        0 <= i < bs.len(),
        0 <= j < bs[i].len(),
    ensures
        table_has_key(bs, bs[i][j].0),
        table_value(bs, bs[i][j].0) == bs[i][j].1,
{
    let k = bs[i][j].0;
    assert(table_has_key(bs, k));
    let (i2, j2) = choose|i2: int, j2: int|
        0 <= i2 < bs.len() && 0 <= j2 < bs[i2].len() && (#[trigger] bs[i2][j2]).0 == k;
    assert(i2 == i && j2 == j);
}

/// Appending an entry with a fresh key to bucket `i` adds that key to the map
/// and grows the table by one.
proof fn lemma_table_push<KV, V>(bs: Buckets<KV, V>, i: int, k: KV, v: V)
    requires
        distinct_keys(bs),
        0 <= i < bs.len(),
        !table_has_key(bs, k),
    ensures
        distinct_keys(bs.update(i, bs[i].push((k, v)))),
        table_map(bs.update(i, bs[i].push((k, v)))) == table_map(bs).insert(k, v),
        table_size(bs.update(i, bs[i].push((k, v)))) == table_size(bs) + 1,
{
    let bs2 = bs.update(i, bs[i].push((k, v)));
    assert forall|i1: int, j1: int, i2: int, j2: int|
        0 <= i1 < bs2.len() && 0 <= j1 < bs2[i1].len() && 0 <= i2 < bs2.len() && 0 <= j2
            < bs2[i2].len() && (#[trigger] bs2[i1][j1]).0 == (#[trigger] bs2[i2][j2]).0 implies i1
        == i2 && j1 == j2 by {
        if i1 == i && j1 == bs[i].len() {
            if !(i2 == i && j2 == bs[i2].len()) {
                assert(bs2[i2][j2] == bs[i2][j2]);
                assert(table_has_key(bs, k));
            }
        } else {
            assert(bs2[i1][j1] == bs[i1][j1]);
            if i2 == i && j2 == bs[i2].len() {
                assert(table_has_key(bs, k));
            } else {
                assert(bs2[i2][j2] == bs[i2][j2]);
            }
        }
    }
    assert forall|k2: KV| #[trigger]
        table_map(bs2).contains_key(k2) == table_map(bs).insert(k, v).contains_key(k2) && (
        table_map(bs).insert(k, v).contains_key(k2) ==> table_map(bs2)[k2] == table_map(bs).insert(
        k,
        v,
    )[k2]) by {
        if k2 == k {
            assert(bs2[i][bs[i].len() as int].0 == k);
            assert(table_has_key(bs2, k));
            lemma_table_value_at(bs2, i, bs[i].len() as int);
        } else {
            if table_has_key(bs, k2) {
                let (i1, j1) = choose|i1: int, j1: int|
                    0 <= i1 < bs.len() && 0 <= j1 < bs[i1].len() && (#[trigger] bs[i1][j1]).0 == k2;
                assert(bs2[i1][j1] == bs[i1][j1]);
                assert(table_has_key(bs2, k2));
                lemma_table_value_at(bs, i1, j1);
                lemma_table_value_at(bs2, i1, j1);
            }
            if table_has_key(bs2, k2) {
                let (i1, j1) = choose|i1: int, j1: int|
                    0 <= i1 < bs2.len() && 0 <= j1 < bs2[i1].len() && (#[trigger] bs2[i1][j1]).0
                        == k2;
                assert(bs2[i1][j1] == bs[i1][j1]);
                assert(table_has_key(bs, k2));
            }
        }
    }
    assert(table_map(bs2) =~= table_map(bs).insert(k, v));
    lemma_table_size_update(bs, i, bs[i].push((k, v)));
}

/// Replacing the entry at a position with one of the same key view rewrites
/// that key's value and nothing else.
proof fn lemma_table_set<KV, V>(bs: Buckets<KV, V>, i: int, j: int, k: KV, v: V)
    requires
        distinct_keys(bs),
        0 <= i < bs.len(),
        0 <= j < bs[i].len(),
        bs[i][j].0 == k,
    ensures
        distinct_keys(bs.update(i, bs[i].update(j, (k, v)))),
        table_map(bs.update(i, bs[i].update(j, (k, v)))) == table_map(bs).insert(k, v),
        table_size(bs.update(i, bs[i].update(j, (k, v)))) == table_size(bs),
{
    let bs2 = bs.update(i, bs[i].update(j, (k, v)));
    assert(forall|i1: int, j1: int|
        0 <= i1 < bs2.len() && 0 <= j1 < bs2[i1].len() ==> (#[trigger] bs2[i1][j1]).0
            == bs[i1][j1].0);
    assert forall|k2: KV| #[trigger]
        table_map(bs2).contains_key(k2) == table_map(bs).insert(k, v).contains_key(k2) && (
        table_map(bs).insert(k, v).contains_key(k2) ==> table_map(bs2)[k2] == table_map(bs).insert(
        k,
        v,
    )[k2]) by {
        if table_has_key(bs, k2) {
            let (i1, j1) = choose|i1: int, j1: int|
                0 <= i1 < bs.len() && 0 <= j1 < bs[i1].len() && (#[trigger] bs[i1][j1]).0 == k2;
            assert(bs2[i1][j1].0 == k2);
            assert(table_has_key(bs2, k2));
        }
        if table_has_key(bs2, k2) {
            let (i1, j1) = choose|i1: int, j1: int|
                0 <= i1 < bs2.len() && 0 <= j1 < bs2[i1].len() && (#[trigger] bs2[i1][j1]).0 == k2;
            assert(bs[i1][j1].0 == k2);
            assert(table_has_key(bs, k2));
            if k2 == k {
                assert(i1 == i && j1 == j);
                lemma_table_value_at(bs2, i, j);
            } else {
                assert(!(i1 == i && j1 == j));
                lemma_table_value_at(bs, i1, j1);
                lemma_table_value_at(bs2, i1, j1);
            }
        }
    }
    assert(table_map(bs2) =~= table_map(bs).insert(k, v));
    lemma_table_size_update(bs, i, bs[i].update(j, (k, v)));
}

/// Dropping the last entry of bucket `i` removes exactly that entry's key.
proof fn lemma_table_pop<KV, V>(bs: Buckets<KV, V>, i: int)
    requires
        distinct_keys(bs),
        0 <= i < bs.len(),
        bs[i].len() > 0,
    ensures
        distinct_keys(bs.update(i, bs[i].drop_last())),
        table_map(bs.update(i, bs[i].drop_last())) == table_map(bs).remove(bs[i].last().0),
        table_size(bs.update(i, bs[i].drop_last())) == table_size(bs) - 1,
        table_has_key(bs, bs[i].last().0),
        table_value(bs, bs[i].last().0) == bs[i].last().1,
{
    let k = bs[i].last().0;
    let bs2 = bs.update(i, bs[i].drop_last());
    lemma_table_value_at(bs, i, bs[i].len() - 1);
    assert(forall|i1: int, j1: int|
        0 <= i1 < bs2.len() && 0 <= j1 < bs2[i1].len() ==> (#[trigger] bs2[i1][j1])
            == bs[i1][j1]);
    assert forall|k2: KV| #[trigger]
        table_map(bs2).contains_key(k2) == table_map(bs).remove(k).contains_key(k2) && (table_map(
        bs,
    ).remove(k).contains_key(k2) ==> table_map(bs2)[k2] == table_map(bs).remove(k)[k2]) by {
        if table_has_key(bs2, k2) {
            let (i1, j1) = choose|i1: int, j1: int|
                0 <= i1 < bs2.len() && 0 <= j1 < bs2[i1].len() && (#[trigger] bs2[i1][j1]).0 == k2;
            assert(bs[i1][j1].0 == k2);
            assert(table_has_key(bs, k2));
            lemma_table_value_at(bs, i1, j1);
            lemma_table_value_at(bs2, i1, j1);
            if k2 == k {
                assert(i1 == i && j1 == bs[i].len() - 1);
                assert(false);
            }
        }
        if table_has_key(bs, k2) && k2 != k {
            let (i1, j1) = choose|i1: int, j1: int|
                0 <= i1 < bs.len() && 0 <= j1 < bs[i1].len() && (#[trigger] bs[i1][j1]).0 == k2;
            assert(!(i1 == i && j1 == bs[i].len() - 1));
            assert(bs2[i1][j1].0 == k2);
            assert(table_has_key(bs2, k2));
        }
    }
    assert(table_map(bs2) =~= table_map(bs).remove(k));
    lemma_table_size_update(bs, i, bs[i].drop_last());
}

/// How replacing one bucket changes the total entry count.
proof fn lemma_table_size_update<KV, V>(bs: Buckets<KV, V>, i: int, b: Seq<(KV, V)>)
    requires
        0 <= i < bs.len(),
    ensures
        table_size(bs.update(i, b)) == table_size(bs) - bs[i].len() + b.len(),
    decreases bs.len(),
{
    let bs2 = bs.update(i, b);
    if i == bs.len() - 1 {
        assert(bs2.drop_last() =~= bs.drop_last());
        assert(bs2.last() == b);
    } else {
        lemma_table_size_update(bs.drop_last(), i, b);
        assert(bs2.drop_last() =~= bs.drop_last().update(i, b));
        assert(bs2.last() == bs.last());
    }
}

/// An all-empty bucket array represents the empty map.
proof fn lemma_table_empty<KV, V>(bs: Buckets<KV, V>)
    requires
        forall|i: int| 0 <= i < bs.len() ==> (#[trigger] bs[i]).len() == 0,
    ensures
        table_map(bs) =~= Map::<KV, V>::empty(),
        table_size(bs) == 0,
        distinct_keys(bs),
    decreases bs.len(),
{
    if bs.len() > 0 {
        lemma_table_empty(bs.drop_last());
    }
}


/// The buckets of a raw entry array, abstracted to (key view, value) pairs.
spec fn buckets_of<K: HashKey, V>(entries: Seq<Vec<Entry<K, V>>>) -> Buckets<<K as View>::V, V> {
    Seq::new(
        entries.len(),
        |i: int| Seq::new(entries[i]@.len(), |j: int| (entries[i]@[j].key@, entries[i]@[j].value)),
    )
}

/// Every entry of the raw array stores its key's hash and sits in the bucket
/// that the hash selects for the given capacity.
spec fn placed_ok<K: HashKey, V>(entries: Seq<Vec<Entry<K, V>>>, cap: nat) -> bool {
    forall|i: int, j: int|
        0 <= i < entries.len() && 0 <= j < entries[i]@.len() ==> {
            let e = #[trigger] entries[i]@[j];
            e.hash == K::key_hash(e.key@) && bucket_index(e.hash, cap) == i
        }
}

/// Two disjoint bucket arrays that together represent the map `m`.
spec fn split_ok<KV, V>(a: Buckets<KV, V>, b: Buckets<KV, V>, m: Map<KV, V>) -> bool {
    &&& distinct_keys(a)
    &&& distinct_keys(b)
    &&& forall|k: KV| table_has_key(a, k) ==> !table_has_key(b, k)
    &&& table_map(a).union_prefer_right(table_map(b)) == m
}

/// Whether position (i2, j2) comes before (i, j) in bucket-then-slot order.
pub open spec fn pos_before(i2: int, j2: int, i: int, j: int) -> bool {
    i2 < i || (i2 == i && j2 < j)
}

/// Whether the pair `p` stands at some position before (i, j).
pub open spec fn found_before<KV, V>(bs: Buckets<KV, V>, i: int, j: int, p: (KV, V)) -> bool {
    exists|i2: int, j2: int|
        #![auto]
        0 <= i2 < bs.len() && 0 <= j2 < bs[i2].len() && pos_before(i2, j2, i, j) && bs[i2][j2] == p
}

/// Whether the pair `p` occurs in `ps`.
pub open spec fn listed_pair<KV, V>(ps: Seq<(KV, V)>, p: (KV, V)) -> bool {
    exists|n: int| 0 <= n < ps.len() && ps[n] == p
}

/// The pairs gathered by a scan that has reached position (i, j): exactly the
/// entries of the positions already visited, with no key repeated.
pub open spec fn pairs_match<KV, V>(bs: Buckets<KV, V>, i: int, j: int, ps: Seq<(KV, V)>) -> bool {
    &&& forall|n: int| 0 <= n < ps.len() ==> #[trigger] found_before(bs, i, j, ps[n])
    &&& forall|i2: int, j2: int|
        #![trigger bs[i2][j2]]
        0 <= i2 < bs.len() && 0 <= j2 < bs[i2].len() && pos_before(i2, j2, i, j) ==> listed_pair(
            ps,
            bs[i2][j2],
        )
    &&& forall|n1: int, n2: int| 0 <= n1 < n2 < ps.len() ==> ps[n1].0 != ps[n2].0
}

proof fn lemma_pairs_match_init<KV, V>(bs: Buckets<KV, V>)
    ensures
        pairs_match(bs, 0, 0, Seq::<(KV, V)>::empty()),
{
}

proof fn lemma_pairs_match_push<KV, V>(bs: Buckets<KV, V>, i: int, j: int, ps: Seq<(KV, V)>)
    requires
        pairs_match(bs, i, j, ps),
        distinct_keys(bs),
        0 <= i < bs.len(),
        0 <= j < bs[i].len(),
    ensures
        pairs_match(bs, i, j + 1, ps.push(bs[i][j])),
{
    let ps2 = ps.push(bs[i][j]);
    assert forall|n: int| 0 <= n < ps2.len() implies #[trigger] found_before(
        bs,
        i,
        j + 1,
        ps2[n],
    ) by {
        if n < ps.len() {
            assert(found_before(bs, i, j, ps[n]));
            let (i2, j2) = choose|i2: int, j2: int|
                #![auto]
                0 <= i2 < bs.len() && 0 <= j2 < bs[i2].len() && pos_before(i2, j2, i, j)
                    && bs[i2][j2] == ps[n];
            assert(pos_before(i2, j2, i, j + 1));
        } else {
            assert(ps2[n] == bs[i][j] && pos_before(i, j, i, j + 1));
        }
    }
    assert forall|i2: int, j2: int| #![trigger bs[i2][j2]]
        0 <= i2 < bs.len() && 0 <= j2 < bs[i2].len() && pos_before(i2, j2, i, j + 1) implies listed_pair(
        ps2,
        bs[i2][j2],
    ) by {
        if i2 == i && j2 == j {
            assert(ps2[ps.len() as int] == bs[i2][j2]);
        } else {
            assert(pos_before(i2, j2, i, j));
            assert(listed_pair(ps, bs[i2][j2]));
            let n = choose|n: int| 0 <= n < ps.len() && ps[n] == bs[i2][j2];
            assert(ps2[n] == bs[i2][j2]);
        }
    }
    assert forall|n1: int, n2: int| 0 <= n1 < n2 < ps2.len() implies ps2[n1].0 != ps2[n2].0 by {
        if n2 == ps.len() as int {
            assert(found_before(bs, i, j, ps[n1]));
            let (i2, j2) = choose|i2: int, j2: int|
                #![auto]
                0 <= i2 < bs.len() && 0 <= j2 < bs[i2].len() && pos_before(i2, j2, i, j)
                    && bs[i2][j2] == ps[n1];
            assert(!(i2 == i && j2 == j));
        }
    }
}

proof fn lemma_pairs_match_bucket_end<KV, V>(bs: Buckets<KV, V>, i: int, ps: Seq<(KV, V)>)
    requires
        pairs_match(bs, i, bs[i].len() as int, ps),
        0 <= i < bs.len(),
    ensures
        pairs_match(bs, i + 1, 0, ps),
{
    assert forall|n: int| 0 <= n < ps.len() implies #[trigger] found_before(
        bs,
        i + 1,
        0,
        ps[n],
    ) by {
        assert(found_before(bs, i, bs[i].len() as int, ps[n]));
        let (i2, j2) = choose|i2: int, j2: int|
            #![auto]
            0 <= i2 < bs.len() && 0 <= j2 < bs[i2].len() && pos_before(
                i2,
                j2,
                i,
                bs[i].len() as int,
            ) && bs[i2][j2] == ps[n];
        assert(pos_before(i2, j2, i + 1, 0));
    }
    assert forall|i2: int, j2: int| #![trigger bs[i2][j2]]
        0 <= i2 < bs.len() && 0 <= j2 < bs[i2].len() && pos_before(i2, j2, i + 1, 0) implies listed_pair(
        ps,
        bs[i2][j2],
    ) by {
        assert(pos_before(i2, j2, i, bs[i].len() as int));
    }
}

proof fn lemma_pairs_match_full<KV, V>(bs: Buckets<KV, V>, ps: Seq<(KV, V)>)
    requires
        pairs_match(bs, bs.len() as int, 0, ps),
        distinct_keys(bs),
    ensures
        forall|n: int|
            0 <= n < ps.len() ==> table_has_key(bs, (#[trigger] ps[n]).0) && table_value(
                bs,
                ps[n].0,
            ) == ps[n].1,
        forall|k: KV| #[trigger]
            table_has_key(bs, k) ==> exists|n: int| 0 <= n < ps.len() && (#[trigger] ps[n]).0 == k,
{
    assert forall|n: int| 0 <= n < ps.len() implies table_has_key(bs, (#[trigger] ps[n]).0)
        && table_value(bs, ps[n].0) == ps[n].1 by {
        assert(found_before(bs, bs.len() as int, 0, ps[n]));
        let (i2, j2) = choose|i2: int, j2: int|
            #![auto]
            0 <= i2 < bs.len() && 0 <= j2 < bs[i2].len() && pos_before(i2, j2, bs.len() as int, 0)
                && bs[i2][j2] == ps[n];
        lemma_table_value_at(bs, i2, j2);
    }
    assert forall|k: KV| #[trigger] table_has_key(bs, k) implies exists|n: int|
        0 <= n < ps.len() && (#[trigger] ps[n]).0 == k by {
        let (i2, j2) = choose|i2: int, j2: int|
            0 <= i2 < bs.len() && 0 <= j2 < bs[i2].len() && (#[trigger] bs[i2][j2]).0 == k;
        assert(pos_before(i2, j2, bs.len() as int, 0));
        assert(listed_pair(ps, bs[i2][j2]));
        let n = choose|n: int| 0 <= n < ps.len() && ps[n] == bs[i2][j2];
        assert(ps[n].0 == k);
    }
}

/// Whether `v` is one of the values that the map holds.
pub open spec fn is_stored_value<KV, V>(m: Map<KV, V>, v: V) -> bool {
    exists|k: KV| #![auto] m.dom().contains(k) && m[k] == v
}

/// Whether the value `v` stands at some position of the buckets.
pub open spec fn val_somewhere<KV, V>(bs: Buckets<KV, V>, v: V) -> bool {
    exists|i2: int, j2: int|
        #![auto]
        0 <= i2 < bs.len() && 0 <= j2 < bs[i2].len() && bs[i2][j2].1 == v
}

/// Whether `vs` holds `v` itself, or an element that compares equal to it.
pub open spec fn val_listed<V: PartialEq>(vs: Seq<V>, v: V) -> bool {
    exists|n: int| 0 <= n < vs.len() && (vs[n] == v || vs[n].eq_spec(&v))
}

/// Every gathered value occurs somewhere in the buckets.
pub open spec fn vals_from<KV, V>(bs: Buckets<KV, V>, vs: Seq<V>) -> bool {
    forall|n: int| 0 <= n < vs.len() ==> #[trigger] val_somewhere(bs, vs[n])
}

/// Every value at a position before (i, j) is represented in `vs`.
pub open spec fn vals_covered<KV, V: PartialEq>(
    bs: Buckets<KV, V>,
    i: int,
    j: int,
    vs: Seq<V>,
) -> bool {
    forall|i2: int, j2: int|
        #![trigger bs[i2][j2]]
        0 <= i2 < bs.len() && 0 <= j2 < bs[i2].len() && pos_before(i2, j2, i, j) ==> val_listed(
            vs,
            bs[i2][j2].1,
        )
}

/// No earlier gathered value compares equal to a later one.
pub open spec fn vals_distinct<V: PartialEq>(vs: Seq<V>) -> bool {
    forall|n1: int, n2: int| 0 <= n1 < n2 < vs.len() ==> !vs[n1].eq_spec(&vs[n2])
}

proof fn lemma_vals_step<KV, V: PartialEq>(
    bs: Buckets<KV, V>,
    i: int,
    j: int,
    prev: Seq<V>,
    cur: Seq<V>,
    present: bool,
)
    requires
        0 <= i < bs.len(),
        0 <= j < bs[i].len(),
        vals_from(bs, prev),
        vals_covered(bs, i, j, prev),
        vals_distinct(prev),
        present == exists|n: int| 0 <= n < prev.len() && (#[trigger] prev[n]).eq_spec(&bs[i][j].1),
        cur == if present {
            prev
        } else {
            prev.push(bs[i][j].1)
        },
    ensures
        vals_from(bs, cur),
        vals_covered(bs, i, j + 1, cur),
        vals_distinct(cur),
{
    assert forall|i2: int, j2: int| #![trigger bs[i2][j2]]
        0 <= i2 < bs.len() && 0 <= j2 < bs[i2].len() && pos_before(i2, j2, i, j + 1) implies val_listed(
        cur,
        bs[i2][j2].1,
    ) by {
        if i2 == i && j2 == j {
            if present {
                let n = choose|n: int|
                    0 <= n < prev.len() && (#[trigger] prev[n]).eq_spec(&bs[i][j].1);
                assert(cur[n].eq_spec(&bs[i2][j2].1));
            } else {
                assert(cur[prev.len() as int] == bs[i2][j2].1);
            }
        } else {
            assert(pos_before(i2, j2, i, j));
            assert(val_listed(prev, bs[i2][j2].1));
            let n = choose|n: int|
                0 <= n < prev.len() && (prev[n] == bs[i2][j2].1 || prev[n].eq_spec(&bs[i2][j2].1));
            assert(cur[n] == prev[n]);
        }
    }
    assert forall|n: int| 0 <= n < cur.len() implies #[trigger] val_somewhere(bs, cur[n]) by {
        if n < prev.len() {
            assert(val_somewhere(bs, prev[n]));
        } else {
            assert(cur[n] == bs[i][j].1);
        }
    }
}

proof fn lemma_vals_bucket_end<KV, V: PartialEq>(bs: Buckets<KV, V>, i: int, vs: Seq<V>)
    requires
        0 <= i < bs.len(),
        vals_covered(bs, i, bs[i].len() as int, vs),
    ensures
        vals_covered(bs, i + 1, 0, vs),
{
    assert forall|i2: int, j2: int| #![trigger bs[i2][j2]]
        0 <= i2 < bs.len() && 0 <= j2 < bs[i2].len() && pos_before(i2, j2, i + 1, 0) implies val_listed(
        vs,
        bs[i2][j2].1,
    ) by {
        assert(pos_before(i2, j2, i, bs[i].len() as int));
    }
}


/// Values of distinct keys are independently retrievable: inserting under one
/// key leaves the other key's value in place, and re-inserting an existing
/// key overwrites its value without changing the key set.
pub proof fn lemma_insert_independent<KV, V>(m: Map<KV, V>, k1: KV, v1: V, k2: KV, v2: V)
    requires
        k1 != k2,
    ensures
        m.insert(k1, v1).insert(k2, v2)[k1] == v1,
        m.insert(k1, v1).insert(k2, v2)[k2] == v2,
        m.insert(k1, v1).insert(k1, v2)[k1] == v2,
        m.insert(k1, v1).insert(k1, v2).dom() == m.insert(k1, v1).dom(),
{
    assert(m.insert(k1, v1).insert(k1, v2).dom() =~= m.insert(k1, v1).dom());
}

/// The bucket that a hash selects in a table of the given capacity.
pub open spec fn bucket_index(h: u64, cap: nat) -> int {
    (h as usize) as int % (cap as int)
}

/// The associative store: `count` live entries spread over `len` buckets.
pub struct TwitHash<K: HashKey, V> {
    entries: Vec<Vec<Entry<K, V>>>,
    len: usize,
    pub count: usize,
}

impl<K: HashKey, V> View for TwitHash<K, V> {
    type V = Map<<K as View>::V, V>;

    /// The store viewed as the mapping from key views to values.
    closed spec fn view(&self) -> Map<<K as View>::V, V> {
        table_map(self.buckets())
    }
}

impl<K: HashKey, V> TwitHash<K, V> {
    /// The buckets, abstracted to (key view, value) pairs.
    closed spec fn buckets(self) -> Buckets<<K as View>::V, V> {
        buckets_of(self.entries@)
    }

    /// The number of buckets.
    pub closed spec fn spec_capacity(self) -> nat {
        self.len as nat
    }

    /// The number of live entries, as `count` holds it.
    pub closed spec fn spec_count(self) -> nat {
        self.count as nat
    }

    /// Every entry stores its key's hash and sits in the bucket it selects.
    closed spec fn hashes_ok(self) -> bool {
        placed_ok(self.entries@, self.len as nat)
    }

    /// All invariant clauses except the load-factor bound, which a growing
    /// insertion breaks until its rehash restores it.
    closed spec fn wf_core(self) -> bool {
        &&& self.entries@.len() == self.len
        &&& self.len >= 16
        &&& is_pow2(self.len as nat)
        &&& self.count == table_size(self.buckets())
        &&& distinct_keys(self.buckets())
        &&& self.hashes_ok()
        &&& self@.dom().finite()
        &&& self.count == self@.dom().len()
    }

    /// The structural invariant: every constructor establishes it and every
    /// method preserves it.
    pub closed spec fn wf(self) -> bool {
        &&& self.wf_core()
        &&& 4 * self.count <= 3 * self.len
    }

    /// Facts that every well-formed store provides to its callers.
    pub proof fn lemma_wf_facts(self)
        requires
            self.wf(),
        ensures
            self@.dom().finite(),
            self.spec_count() == self@.dom().len(),
            4 * self.spec_count() <= 3 * self.spec_capacity(),
            self.spec_capacity() >= 16,
    {
    }

    /// Creates an empty store with 16 buckets.
    pub fn new() -> (t: TwitHash<K, V>)
        ensures
            t.wf(),
            t@ == Map::<<K as View>::V, V>::empty(),
            t.spec_count() == 0,
            t.spec_capacity() == 16,
    {
        let mut entries: Vec<Vec<Entry<K, V>>> = Vec::new();
        let mut i: usize = 0;
        while i < 16
            invariant
                i <= 16,
                entries@.len() == i,
                forall|n: int| 0 <= n < i ==> (#[trigger] entries@[n])@.len() == 0,
            decreases 16 - i,
        {
            entries.push(Vec::new());
            i += 1;
        }
        let t = TwitHash { entries, len: 16, count: 0 };
        proof {
            assert(forall|n: int| 0 <= n < t.buckets().len() ==> (#[trigger] t.buckets()[n]).len() == 0);
            lemma_table_empty(t.buckets());
            assert(is_pow2(16)) by {
                reveal_with_fuel(is_pow2, 6);
            }
            assert(t@ =~= Map::<<K as View>::V, V>::empty());
        }
        t
    }

    /// The number of live entries.
    pub(crate) fn num_entries(&self) -> (r: usize)
        requires
            self.wf(),
        ensures
            r as nat == self.spec_count(),
    {
        self.count
    }

    /// True when the store holds no entry.
    pub fn is_empty(&self) -> (r: bool)
        requires
            self.wf(),
        ensures
            r == (self@.len() == 0),
    {
        self.count == 0
    }

    /// Looks the key up in its bucket, comparing the stored hash first and
    /// the key itself second; absent keys give `None`, never an error.
    pub fn get(&self, key: &K) -> (r: Option<&V>)
        requires
            self.wf(),
        ensures
            match r {
                Some(v) => self@.contains_key(key@) && *v == self@[key@],
                None => !self@.contains_key(key@),
            },
    {
        let h = key.hash_of();
        let idx = (h as usize) % self.len;
        let ghost bs = self.buckets();
        let n = self.entries[idx].len();
        let mut j: usize = 0;
        while j < n
            invariant
                self.wf(),
                bs == self.buckets(),
                h == K::key_hash(key@),
                idx == bucket_index(h, self.len as nat),
                0 <= idx < self.entries@.len(),
                n == bs[idx as int].len(),
                j <= n,
                forall|j2: int| 0 <= j2 < j ==> (#[trigger] bs[idx as int][j2]).0 != key@,
            decreases n - j,
        {
            let e = &self.entries[idx][j];
            if e.hash == h && e.key.key_eq(key) {
                proof {
                    lemma_table_value_at(bs, idx as int, j as int);
                }
                return Some(&self.entries[idx][j].value);
            }
            j += 1;
        }
        proof {
            if table_has_key(bs, key@) {
                let (i1, j1) = choose|i1: int, j1: int|
                    0 <= i1 < bs.len() && 0 <= j1 < bs[i1].len() && (#[trigger] bs[i1][j1]).0
                        == key@;
                assert(self.entries@[i1]@[j1].key@ == key@);
                assert(bucket_index(K::key_hash(key@), self.len as nat) == i1);
                assert(false);
            }
        }
        None
    }

    /// Like `get`, but hands back a mutable borrow of the value, so a caller
    /// can rewrite the value in place; the key set does not change.
    pub fn get_mut(&mut self, key: &K) -> (r: Option<&mut V>)
        requires
            old(self).wf(),
        ensures
            match r {
                Some(v) => {
                    &&& old(self)@.contains_key(key@)
                    &&& *v == old(self)@[key@]
                    &&& final(self).wf()
                    &&& final(self)@ == old(self)@.insert(key@, *final(v))
                    &&& final(self).spec_count() == old(self).spec_count()
                    &&& final(self).spec_capacity() == old(self).spec_capacity()
                },
                None => {
                    &&& !old(self)@.contains_key(key@)
                    &&& *final(self) == *old(self)
                },
            },
    {
        let h = key.hash_of();
        let idx = (h as usize) % self.len;
        let ghost bs = self.buckets();
        let n = self.entries[idx].len();
        let mut j: usize = 0;
        while j < n
            invariant
                self.wf(),
                self == old(self),
                bs == self.buckets(),
                h == K::key_hash(key@),
                idx == bucket_index(h, self.len as nat),
                0 <= idx < self.entries@.len(),
                n == bs[idx as int].len(),
                j <= n,
                forall|j2: int| 0 <= j2 < j ==> (#[trigger] bs[idx as int][j2]).0 != key@,
            decreases n - j,
        {
            let found = {
                let e = &self.entries[idx][j];
                e.hash == h && e.key.key_eq(key)
            };
            if found {
                proof {
                    lemma_table_value_at(bs, idx as int, j as int);
                }
                let r = &mut self.entries[idx][j].value;
                proof {
                    let bs2 = after_borrow(*self).buckets();
                    assert(bs2 =~~= bs.update(
                        idx as int,
                        bs[idx as int].update(j as int, (key@, *final(r))),
                    ));
                    lemma_table_set(bs, idx as int, j as int, key@, *final(r));
                    assert(after_borrow(*self)@.dom() =~= old(self)@.dom());
                }
                return Some(r);
            }
            j += 1;
        }
        proof {
            if table_has_key(bs, key@) {
                let (i1, j1) = choose|i1: int, j1: int|
                    0 <= i1 < bs.len() && 0 <= j1 < bs[i1].len() && (#[trigger] bs[i1][j1]).0
                        == key@;
                assert(self.entries@[i1]@[j1].key@ == key@);
                assert(bucket_index(K::key_hash(key@), self.len as nat) == i1);
                assert(false);
            }
        }
        None
    }


    /// Upsert. If an entry with an equal key exists (tested by comparing the
    /// stored hash first, then the key), its value is replaced in place and
    /// the count is unchanged; otherwise a new entry joins the target bucket
    /// and the count grows by one. If the load factor `count / capacity` then
    /// exceeds 3/4, the capacity doubles and every entry is rehashed; all
    /// entries are preserved, the order inside a bucket is not.
    pub fn insert(&mut self, key: K, value: V)
        requires
            old(self).wf(),
            old(self).spec_count() < usize::MAX / 4,
        ensures
            final(self).wf(),
            final(self)@ == old(self)@.insert(key@, value),
            final(self).spec_count() == old(self).spec_count() + (
            if old(self)@.contains_key(key@) {
                0int
            } else {
                1int
            }),
            4 * final(self).spec_count() <= 3 * final(self).spec_capacity(),
    {
        let ghost kv = key@;
        let ghost vv = value;
        let h = key.hash_of();
        let idx = (h as usize) % self.len;
        let ghost bs = self.buckets();
        let n = self.entries[idx].len();
        let mut j: usize = 0;
        while j < n
            invariant
                self.wf(),
                *self == *old(self),
                bs == self.buckets(),
                h == K::key_hash(kv),
                kv == key@,
                vv == value,
                idx == bucket_index(h, self.len as nat),
                0 <= idx < self.entries@.len(),
                n == bs[idx as int].len(),
                j <= n,
                forall|j2: int| 0 <= j2 < j ==> (#[trigger] bs[idx as int][j2]).0 != kv,
            decreases n - j,
        {
            let found = {
                let e = &self.entries[idx][j];
                e.hash == h && e.key.key_eq(&key)
            };
            if found {
                proof {
                    lemma_table_value_at(bs, idx as int, j as int);
                    lemma_table_set(bs, idx as int, j as int, kv, vv);
                }
                let ghost prev = self.entries@;
                self.entries[idx][j] = Entry { key, value, hash: h };
                proof {
                    let nbs = self.buckets();
                    let tgt = bs.update(idx as int, bs[idx as int].update(j as int, (kv, vv)));
                    assert(nbs.len() == tgt.len());
                    assert forall|i2: int| 0 <= i2 < nbs.len() implies nbs[i2] =~= tgt[i2] by {
                        assert(bs[i2] == Seq::new(
                            prev[i2]@.len(),
                            |j2: int| (prev[i2]@[j2].key@, prev[i2]@[j2].value),
                        ));
                        assert(nbs[i2].len() == tgt[i2].len());
                        assert forall|j2: int| 0 <= j2 < nbs[i2].len() implies nbs[i2][j2] == tgt[i2][j2] by {
                            if i2 == idx as int && j2 == j as int {
                                assert(self.entries@[i2]@[j2].key@ == kv);
                                assert(self.entries@[i2]@[j2].value == vv);
                                assert(nbs[i2][j2] == (kv, vv));
                                assert(tgt[i2][j2] == (kv, vv));
                            } else {
                                assert(self.entries@[i2]@[j2] == prev[i2]@[j2]);
                                assert(nbs[i2][j2] == (prev[i2]@[j2].key@, prev[i2]@[j2].value));
                                assert(tgt[i2][j2] == bs[i2][j2]);
                            }
                        }
                    }
                    assert(nbs =~= tgt);
                    assert(self@.dom() =~= old(self)@.dom());
                }
                return ;
            }
            j += 1;
        }
        proof {
            if table_has_key(bs, kv) {
                let (i1, j1) = choose|i1: int, j1: int|
                    0 <= i1 < bs.len() && 0 <= j1 < bs[i1].len() && (#[trigger] bs[i1][j1]).0
                        == kv;
                assert(self.entries@[i1]@[j1].key@ == kv);
                assert(bucket_index(K::key_hash(kv), self.len as nat) == i1);
                assert(false);
            }
            lemma_table_push(bs, idx as int, kv, vv);
        }
        self.entries[idx].push(Entry { key, value, hash: h });
        self.count = self.count + 1;
        proof {
            assert(self.buckets() =~~= bs.update(idx as int, bs[idx as int].push((kv, vv))));
            assert(self@.dom() =~= old(self)@.dom().insert(kv));
            vstd::set::axiom_set_insert_len(old(self)@.dom(), kv);
        }
        if (self.count as u128) * 4 > (self.len as u128) * 3 {
            self.rehash();
        }
    }

    /// Doubles the bucket array and redistributes every entry by its stored
    /// hash; the mapping and the count are unchanged.
    fn rehash(&mut self)
        requires
            old(self).wf_core(),
            old(self).count <= usize::MAX / 4 + 1,
            3 * old(self).len < 4 * old(self).count,
        ensures
            final(self).wf_core(),
            final(self)@ == old(self)@,
            final(self).count == old(self).count,
            final(self).len == 2 * old(self).len,
    {
        proof {
            assert(3 * self.len < 4 * (usize::MAX / 4 + 1));
            assert(2 * self.len <= usize::MAX);
        }
        let new_len = self.len * 2;
        let mut nb: Vec<Vec<Entry<K, V>>> = Vec::new();
        let mut i: usize = 0;
        while i < new_len
            invariant
                i <= new_len,
                nb@.len() == i,
                forall|n2: int| 0 <= n2 < i ==> (#[trigger] nb@[n2])@.len() == 0,
            decreases new_len - i,
        {
            nb.push(Vec::new());
            i += 1;
        }
        proof {
            lemma_table_empty(buckets_of(nb@));
            assert(table_map(self.buckets()).union_prefer_right(table_map(buckets_of(nb@))) =~= self@);
        }
        let ghost m = self@;
        let ghost total = self.count as nat;
        let ghost old_len = self.len as nat;
        let mut i: usize = 0;
        while i < self.len
            invariant
                self.len == old_len,
                self.count == old(self).count,
                self.entries@.len() == self.len,
                new_len == 2 * old_len,
                nb@.len() == new_len,
                i <= self.len,
                placed_ok(self.entries@, old_len),
                placed_ok(nb@, new_len as nat),
                forall|n2: int| 0 <= n2 < i ==> (#[trigger] self.buckets()[n2]).len() == 0,
                split_ok(self.buckets(), buckets_of(nb@), m),
                table_size(self.buckets()) + table_size(buckets_of(nb@)) == total,
            decreases self.len - i,
        {
            while self.entries[i].len() > 0
                invariant
                    self.len == old_len,
                    self.count == old(self).count,
                    self.entries@.len() == self.len,
                    new_len == 2 * old_len,
                    nb@.len() == new_len,
                    0 <= i < self.len,
                    placed_ok(self.entries@, old_len),
                    placed_ok(nb@, new_len as nat),
                    forall|n2: int| 0 <= n2 < i ==> (#[trigger] self.buckets()[n2]).len() == 0,
                    split_ok(self.buckets(), buckets_of(nb@), m),
                    table_size(self.buckets()) + table_size(buckets_of(nb@)) == total,
                decreases self.entries@[i as int]@.len(),
            {
                let ghost a = self.buckets();
                let ghost b = buckets_of(nb@);
                let e = self.entries[i].pop().unwrap();
                let ghost k = e.key@;
                let ghost v = e.value;
                proof {
                    lemma_table_pop(a, i as int);
                    assert(self.buckets() =~~= a.update(i as int, a[i as int].drop_last()));
                }
                let nidx = (e.hash as usize) % new_len;
                proof {
                    assert(!table_has_key(b, k));
                    lemma_table_push(b, nidx as int, k, v);
                }
                nb[nidx].push(e);
                proof {
                    assert(buckets_of(nb@) =~~= b.update(nidx as int, b[nidx as int].push((k, v))));
                    let a2 = self.buckets();
                    let b2 = buckets_of(nb@);
                    assert forall|k2: <K as View>::V| table_has_key(a2, k2) implies !table_has_key(
                        b2,
                        k2,
                    ) by {
                        assert(table_has_key(a, k2));
                        if k2 == k {
                            assert(false);
                        }
                    }
                    assert(table_map(a2).union_prefer_right(table_map(b2)) =~= m);
                }
            }
            i += 1;
        }
        proof {
            assert(forall|n2: int|
                0 <= n2 < self.buckets().len() ==> (#[trigger] self.buckets()[n2]).len() == 0);
            lemma_table_empty(self.buckets());
            assert(table_map(buckets_of(nb@)) =~= m);
            assert(table_size(self.buckets()) == 0);
        }
        self.entries = nb;
        self.len = new_len;
        proof {
            assert(self.buckets() == buckets_of(self.entries@));
            assert(is_pow2(self.len as nat));
            assert(self@ =~= m);
        }
    }


    /// A snapshot of the keys: each live key exactly once, in an order that
    /// depends on the bucket layout and must not be relied upon.
    pub fn keys(&self) -> (r: Vec<&K>)
        requires
            self.wf(),
        ensures
            r@.len() == self.spec_count(),
            forall|n1: int, n2: int| 0 <= n1 < n2 < r@.len() ==> r@[n1]@ != r@[n2]@,
            forall|n: int| 0 <= n < r@.len() ==> self@.contains_key(#[trigger] r@[n]@),
            forall|k: <K as View>::V| #[trigger]
                self@.contains_key(k) ==> exists|n: int| 0 <= n < r@.len() && r@[n]@ == k,
    {
        let ps = self.pairs();
        let mut ret: Vec<&K> = Vec::new();
        let mut n: usize = 0;
        while n < ps.len()
            invariant
                n <= ps@.len(),
                ret@.len() == n,
                forall|n2: int| 0 <= n2 < n ==> (#[trigger] ret@[n2])@ == ps@[n2].0@,
            decreases ps@.len() - n,
        {
            ret.push(ps[n].0);
            n += 1;
        }
        proof {
            assert forall|k: <K as View>::V| #[trigger] self@.contains_key(k) implies exists|n2: int|
                0 <= n2 < ret@.len() && ret@[n2]@ == k by {
                let n2 = choose|n2: int| 0 <= n2 < ps@.len() && (#[trigger] ps@[n2]).0@ == k;
                assert(ret@[n2]@ == k);
            }
        }
        ret
    }

    /// A snapshot of the values, deduplicated by `==` as the scan meets them:
    /// every stored value is represented, and no earlier element of the
    /// result compares equal to a later one. The order depends on the bucket
    /// layout and must not be relied upon.
    pub fn values(&self) -> (r: Vec<&V>) where V: PartialEq
        requires
            self.wf(),
            V::obeys_eq_spec(),
        ensures
            forall|n: int| 0 <= n < r@.len() ==> #[trigger] is_stored_value(self@, *r@[n]),
            forall|k: <K as View>::V| #[trigger]
                self@.contains_key(k) ==> exists|n: int|
                    0 <= n < r@.len() && (*r@[n] == self@[k] || r@[n].eq_spec(&self@[k])),
            forall|n1: int, n2: int| 0 <= n1 < n2 < r@.len() ==> !r@[n1].eq_spec(r@[n2]),
    {
        let ghost bs = self.buckets();
        let mut ret: Vec<&V> = Vec::new();
        let ghost mut vs: Seq<V> = Seq::empty();
        let mut i: usize = 0;
        while i < self.entries.len()
            invariant
                self.wf(),
                V::obeys_eq_spec(),
                bs == self.buckets(),
                i <= self.entries@.len(),
                ret@.len() == vs.len(),
                forall|n: int| 0 <= n < ret@.len() ==> *(#[trigger] ret@[n]) == vs[n],
                vals_from(bs, vs),
                vals_covered(bs, i as int, 0, vs),
                vals_distinct(vs),
            decreases self.entries@.len() - i,
        {
            let m = self.entries[i].len();
            let mut j: usize = 0;
            while j < m
                invariant
                    self.wf(),
                    V::obeys_eq_spec(),
                    bs == self.buckets(),
                    0 <= i < self.entries@.len(),
                    m == bs[i as int].len(),
                    j <= m,
                    ret@.len() == vs.len(),
                    forall|n: int| 0 <= n < ret@.len() ==> *(#[trigger] ret@[n]) == vs[n],
                    vals_from(bs, vs),
                    vals_covered(bs, i as int, j as int, vs),
                    vals_distinct(vs),
                decreases m - j,
            {
                let mut present = false;
                let mut n: usize = 0;
                let vref = &self.entries[i][j].value;
                proof {
                    assert(*vref == bs[i as int][j as int].1);
                }
                while n < ret.len()
                    invariant
                        V::obeys_eq_spec(),
                        ret@.len() == vs.len(),
                        forall|n2: int| 0 <= n2 < ret@.len() ==> *(#[trigger] ret@[n2]) == vs[n2],
                        n <= ret@.len(),
                        *vref == bs[i as int][j as int].1,
                        0 <= i < bs.len(),
                        0 <= j < bs[i as int].len(),
                        present == exists|n2: int|
                            0 <= n2 < n && (#[trigger] vs[n2]).eq_spec(&bs[i as int][j as int].1),
                    decreases ret@.len() - n,
                {
                    if *ret[n] == *vref {
                        present = true;
                    }
                    n += 1;
                }
                let ghost prev = vs;
                if !present {
                    ret.push(vref);
                    proof {
                        vs = vs.push(bs[i as int][j as int].1);
                    }
                }
                proof {
                    lemma_vals_step(bs, i as int, j as int, prev, vs, present);
                }
                j += 1;
            }
            proof {
                lemma_vals_bucket_end(bs, i as int, vs);
            }
            i += 1;
        }
        proof {
            assert forall|n: int| 0 <= n < ret@.len() implies #[trigger] is_stored_value(
                self@,
                *ret@[n],
            ) by {
                assert(val_somewhere(bs, vs[n]));
                let (i2, j2) = choose|i2: int, j2: int|
                    #![auto]
                    0 <= i2 < bs.len() && 0 <= j2 < bs[i2].len() && bs[i2][j2].1 == vs[n];
                lemma_table_value_at(bs, i2, j2);
                assert(self@.dom().contains(bs[i2][j2].0) && self@[bs[i2][j2].0] == *ret@[n]);
            }
            assert forall|k: <K as View>::V| #[trigger] self@.contains_key(k) implies exists|n: int|
                0 <= n < ret@.len() && (*ret@[n] == self@[k] || ret@[n].eq_spec(&self@[k])) by {
                let (i2, j2) = choose|i2: int, j2: int|
                    0 <= i2 < bs.len() && 0 <= j2 < bs[i2].len() && (#[trigger] bs[i2][j2]).0 == k;
                lemma_table_value_at(bs, i2, j2);
                assert(pos_before(i2, j2, self.entries@.len() as int, 0));
                assert(val_listed(vs, bs[i2][j2].1));
                let n = choose|n: int|
                    0 <= n < vs.len() && (vs[n] == bs[i2][j2].1 || vs[n].eq_spec(&bs[i2][j2].1));
                assert(*ret@[n] == vs[n]);
            }
        }
        ret
    }

    /// A snapshot of the (key, value) pairs: one pair per live key, in an
    /// order that depends on the bucket layout and must not be relied upon.
    pub fn pairs(&self) -> (r: Vec<(&K, &V)>)
        requires
            self.wf(),
        ensures
            r@.len() == self.spec_count(),
            forall|n1: int, n2: int| 0 <= n1 < n2 < r@.len() ==> r@[n1].0@ != r@[n2].0@,
            forall|n: int|
                0 <= n < r@.len() ==> self@.contains_key(#[trigger] r@[n].0@) && self@[r@[n].0@]
                    == *r@[n].1,
            forall|k: <K as View>::V| #[trigger]
                self@.contains_key(k) ==> exists|n: int| 0 <= n < r@.len() && r@[n].0@ == k,
    {
        let ghost bs = self.buckets();
        let mut ret: Vec<(&K, &V)> = Vec::new();
        let ghost mut ps: Seq<(<K as View>::V, V)> = Seq::empty();
        let mut i: usize = 0;
        proof {
            lemma_pairs_match_init(bs);
        }
        while i < self.entries.len()
            invariant
                self.wf(),
                bs == self.buckets(),
                i <= self.entries@.len(),
                ret@.len() == ps.len(),
                ps.len() == table_size(bs.take(i as int)),
                forall|n: int|
                    0 <= n < ret@.len() ==> ((#[trigger] ret@[n]).0@, *ret@[n].1) == ps[n],
                pairs_match(bs, i as int, 0, ps),
            decreases self.entries@.len() - i,
        {
            let m = self.entries[i].len();
            let mut j: usize = 0;
            while j < m
                invariant
                    self.wf(),
                    bs == self.buckets(),
                    0 <= i < self.entries@.len(),
                    m == bs[i as int].len(),
                    j <= m,
                    ret@.len() == ps.len(),
                    ps.len() == table_size(bs.take(i as int)) + j,
                    forall|n: int|
                        0 <= n < ret@.len() ==> ((#[trigger] ret@[n]).0@, *ret@[n].1) == ps[n],
                    pairs_match(bs, i as int, j as int, ps),
                decreases m - j,
            {
                let e = &self.entries[i][j];
                ret.push((&e.key, &e.value));
                proof {
                    lemma_pairs_match_push(bs, i as int, j as int, ps);
                    ps = ps.push(bs[i as int][j as int]);
                }
                j += 1;
            }
            proof {
                lemma_pairs_match_bucket_end(bs, i as int, ps);
                assert(bs.take(i + 1 as int).drop_last() =~= bs.take(i as int));
                assert(bs.take(i + 1 as int).last() == bs[i as int]);
            }
            i += 1;
        }
        proof {
            assert(bs.take(self.entries@.len() as int) =~= bs);
            lemma_pairs_match_full(bs, ps);
            assert forall|n1: int, n2: int|
                0 <= n1 < n2 < ret@.len() implies ret@[n1].0@ != ret@[n2].0@ by {
                assert(ps[n1].0 != ps[n2].0);
            }
            assert forall|n: int| 0 <= n < ret@.len() implies self@.contains_key(
                #[trigger] ret@[n].0@,
            ) && self@[ret@[n].0@] == *ret@[n].1 by {
                assert(table_has_key(bs, ps[n].0) && table_value(bs, ps[n].0) == ps[n].1);
            }
            assert forall|k: <K as View>::V| #[trigger]
                self@.contains_key(k) implies exists|n: int|
                0 <= n < ret@.len() && ret@[n].0@ == k by {
                let n = choose|n: int| 0 <= n < ps.len() && (#[trigger] ps[n]).0 == k;
                assert(ret@[n].0@ == k);
            }
        }
        ret
    }

    /// True when the key is present.
    pub fn contains_key(&self, key: &K) -> (r: bool)
        requires
            self.wf(),
        ensures
            r == self@.contains_key(key@),
    {
        match self.get(key) {
            Some(_) => true,
            None => false,
        }
    }
}

} // verus!
