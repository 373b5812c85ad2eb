//! Sums of a per-entry term over a finite map, and the bridge from a map to
//! any snapshot sequence of its (key, value) pairs, so that a loop over such
//! a snapshot computes the map-level sum whatever order the snapshot has.
use vstd::prelude::*;

verus! {

/// The sum of `f(key, value)` over all entries of a finite map.
pub open spec fn map_sum<KV, V>(m: Map<KV, V>, f: spec_fn(KV, V) -> nat) -> nat
    decreases m.dom().len(),
    when m.dom().finite()
{
    if m.dom().is_empty() {
        0
    } else {
        let k = m.dom().choose();
        f(k, m[k]) + map_sum(m.remove(k), f)
    }
}

/// Any entry can be split off the sum first, not only the chosen one.
pub proof fn lemma_map_sum_remove<KV, V>(m: Map<KV, V>, f: spec_fn(KV, V) -> nat, k: KV)
    requires
        m.dom().finite(),
        m.dom().contains(k),
    ensures
        map_sum(m, f) == f(k, m[k]) + map_sum(m.remove(k), f),
    decreases m.dom().len(),
{
    let k0 = m.dom().choose();
    vstd::set::axiom_set_remove_len(m.dom(), k0);
    if k0 == k {
    } else {
        assert(m.remove(k0).dom().contains(k));
        lemma_map_sum_remove(m.remove(k0), f, k);
        assert(m.remove(k0).remove(k) =~= m.remove(k).remove(k0));
        vstd::set::axiom_set_remove_len(m.dom(), k);
        assert(m.remove(k).dom().contains(k0));
        lemma_map_sum_remove(m.remove(k), f, k0);
        assert(m.remove(k)[k0] == m[k0]);
        assert(m.remove(k0)[k] == m[k]);
    }
}

/// Two term functions that agree on the entries give the same sum.
pub proof fn lemma_map_sum_congruence<KV, V>(
    m: Map<KV, V>,
    f: spec_fn(KV, V) -> nat,
    g: spec_fn(KV, V) -> nat,
)
    requires
        m.dom().finite(),
        forall|k: KV| #[trigger] m.dom().contains(k) ==> f(k, m[k]) == g(k, m[k]),
    ensures
        map_sum(m, f) == map_sum(m, g),
    decreases m.dom().len(),
{
    if !m.dom().is_empty() {
        let k = m.dom().choose();
        vstd::set::axiom_set_remove_len(m.dom(), k);
        assert(forall|k2: KV| #[trigger]
            m.remove(k).dom().contains(k2) ==> m.remove(k)[k2] == m[k2]);
        lemma_map_sum_congruence(m.remove(k), f, g);
    }
}

/// A term function that vanishes on every entry sums to zero.
pub proof fn lemma_map_sum_zero<KV, V>(m: Map<KV, V>, f: spec_fn(KV, V) -> nat)
    requires
        m.dom().finite(),
        forall|k: KV| #[trigger] m.dom().contains(k) ==> f(k, m[k]) == 0,
    ensures
        map_sum(m, f) == 0,
    decreases m.dom().len(),
{
    if !m.dom().is_empty() {
        let k = m.dom().choose();
        vstd::set::axiom_set_remove_len(m.dom(), k);
        lemma_map_sum_zero(m.remove(k), f);
    }
}

/// A sequence of (key, value) pairs that enumerates a map: every pair is an
/// entry, every key appears, and no key repeats.
pub open spec fn enumerates<KV, V>(ps: Seq<(KV, V)>, m: Map<KV, V>) -> bool {
    &&& forall|n: int|
        0 <= n < ps.len() ==> m.dom().contains((#[trigger] ps[n]).0) && m[ps[n].0] == ps[n].1
    &&& forall|k: KV| #[trigger]
        m.dom().contains(k) ==> exists|n: int| 0 <= n < ps.len() && (#[trigger] ps[n]).0 == k
    &&& forall|n1: int, n2: int| 0 <= n1 < n2 < ps.len() ==> ps[n1].0 != ps[n2].0
}

/// The sum of the terms of a pair sequence, front to back.
pub open spec fn seq_sum<KV, V>(ps: Seq<(KV, V)>, f: spec_fn(KV, V) -> nat) -> nat
    decreases ps.len(),
{
    if ps.len() == 0 {
        0
    } else {
        seq_sum(ps.drop_last(), f) + f(ps.last().0, ps.last().1)
    }
}

/// Dropping the last pair of an enumeration enumerates the map without its key.
pub proof fn lemma_enumerates_drop_last<KV, V>(ps: Seq<(KV, V)>, m: Map<KV, V>)
    requires
        enumerates(ps, m),
        ps.len() > 0,
    ensures
        enumerates(ps.drop_last(), m.remove(ps.last().0)),
{
    let m2 = m.remove(ps.last().0);
    let ps2 = ps.drop_last();
    assert forall|k: KV| #[trigger] m2.dom().contains(k) implies exists|n: int|
        0 <= n < ps2.len() && (#[trigger] ps2[n]).0 == k by {
        assert(m.dom().contains(k));
        let n = choose|n: int| 0 <= n < ps.len() && (#[trigger] ps[n]).0 == k;
        assert(n != ps.len() - 1);
        assert(ps2[n].0 == k);
    }
}

/// A loop over any enumeration of a map sums to the map-level sum, whatever
/// the enumeration order.
pub proof fn lemma_seq_sum_is_map_sum<KV, V>(
    ps: Seq<(KV, V)>,
    m: Map<KV, V>,
    f: spec_fn(KV, V) -> nat,
)
    requires
        m.dom().finite(),
        enumerates(ps, m),
    ensures
        seq_sum(ps, f) == map_sum(m, f),
    decreases ps.len(),
{
    if ps.len() == 0 {
        if !m.dom().is_empty() {
            let k = m.dom().choose();
            assert(m.dom().contains(k));
        }
        assert(m.dom() =~= Set::<KV>::empty());
    } else {
        let k = ps.last().0;
        lemma_enumerates_drop_last(ps, m);
        lemma_seq_sum_is_map_sum(ps.drop_last(), m.remove(k), f);
        lemma_map_sum_remove(m, f, k);
    }
}

/// Rebuilding a map by inserting the pairs of one of its enumerations, in
/// order, yields the map itself.
pub open spec fn insert_all<KV, V>(m: Map<KV, V>, ps: Seq<(KV, V)>) -> Map<KV, V>
    decreases ps.len(),
{
    if ps.len() == 0 {
        m
    } else {
        insert_all(m, ps.drop_last()).insert(ps.last().0, ps.last().1)
    }
}

/// Inserting every pair of an enumeration into the empty map rebuilds the map.
pub proof fn lemma_insert_all_rebuilds<KV, V>(ps: Seq<(KV, V)>, m: Map<KV, V>)
    requires
        enumerates(ps, m),
    ensures
        insert_all(Map::<KV, V>::empty(), ps) =~= m.restrict(first_keys(ps)),
        forall|k: KV| #[trigger]
            m.dom().contains(k) ==> insert_all(Map::<KV, V>::empty(), ps).dom().contains(k),
        insert_all(Map::<KV, V>::empty(), ps) =~= m,
    decreases ps.len(),
{
    if ps.len() == 0 {
        assert(m.dom() =~= Set::<KV>::empty()) by {
            if !m.dom().is_empty() {
                let k = m.dom().choose();
                assert(m.dom().contains(k));
            }
        }
        assert(first_keys(ps) =~= Set::<KV>::empty());
        assert(insert_all(Map::<KV, V>::empty(), ps) =~= m.restrict(first_keys(ps)));
        assert(insert_all(Map::<KV, V>::empty(), ps) =~= m);
    } else {
        let k = ps.last().0;
        lemma_enumerates_drop_last(ps, m);
        lemma_insert_all_rebuilds(ps.drop_last(), m.remove(k));
        assert(first_keys(ps) =~= first_keys(ps.drop_last()).insert(k));
        assert(m.remove(k).restrict(first_keys(ps.drop_last())).insert(k, ps.last().1) =~= m.restrict(
            first_keys(ps),
        )) by {
            assert forall|k2: KV|
                m.restrict(first_keys(ps)).dom().contains(k2) == m.remove(k).restrict(
                    first_keys(ps.drop_last()),
                ).insert(k, ps.last().1).dom().contains(k2) by {
                if k2 != k {
                    assert(first_keys(ps.drop_last()).contains(k2) == first_keys(ps).contains(k2));
                }
            }
        }
        assert(m.restrict(first_keys(ps)) =~= m) by {
            assert forall|k2: KV| #[trigger] m.dom().contains(k2) implies first_keys(ps).contains(
                k2,
            ) by {
                let n = choose|n: int| 0 <= n < ps.len() && (#[trigger] ps[n]).0 == k2;
            }
        }
    }
}

/// The set of keys that a pair sequence mentions.
pub open spec fn first_keys<KV, V>(ps: Seq<(KV, V)>) -> Set<KV> {
    Set::new(|k: KV| exists|n: int| 0 <= n < ps.len() && (#[trigger] ps[n]).0 == k)
}


/// Where the entry at position `p` of the rearranged sequence stood before,
/// when the entry at `best` of the unselected part moves to the end of the
/// selected part and the last unselected entry takes its place.
pub open spec fn select_source(sel_len: int, rem_len: int, best: int, p: int) -> int {
    if p < sel_len {
        p
    } else if p == sel_len {
        sel_len + best
    } else if p - sel_len - 1 == best {
        sel_len + rem_len - 1
    } else {
        p - 1
    }
}

/// Selecting an unselected entry — moving it to the end of the selected part
/// while the last unselected entry takes its place — keeps the whole
/// arrangement an enumeration of the map.
pub proof fn lemma_select_step<KV, V>(sel: Seq<(KV, V)>, rem: Seq<(KV, V)>, best: int, m: Map<KV, V>)
    requires
        enumerates(sel + rem, m),
        0 <= best < rem.len(),
    ensures
        enumerates(sel.push(rem[best]) + rem.update(best, rem.last()).drop_last(), m),
{
    let s = sel.len() as int;
    let r = rem.len() as int;
    let old_all = sel + rem;
    let all = sel.push(rem[best]) + rem.update(best, rem.last()).drop_last();
    assert(all.len() == s + r);
    assert forall|p: int| 0 <= p < all.len() implies {
        let q = select_source(s, r, best, p);
        0 <= q < old_all.len() && #[trigger] all[p] == old_all[q]
    } by {
        if p < s {
            assert(all[p] == sel[p]);
            assert(old_all[p] == sel[p]);
        } else if p == s {
            assert(all[p] == rem[best]);
            assert(old_all[s + best] == rem[best]);
        } else {
            let j = p - s - 1;
            if j == best {
                assert(all[p] == rem[r - 1]);
                assert(old_all[s + r - 1] == rem[r - 1]);
            } else {
                assert(all[p] == rem[j]);
                assert(old_all[s + j] == rem[j]);
                assert(select_source(s, r, best, p) == p - 1 && old_all[p - 1] == rem[j]);
            }
        }
    }
    assert forall|p1: int, p2: int| 0 <= p1 < p2 < all.len() implies all[p1].0 != all[p2].0 by {
        let q1 = select_source(s, r, best, p1);
        let q2 = select_source(s, r, best, p2);
        assert(all[p1] == old_all[q1]);
        assert(all[p2] == old_all[q2]);
        assert(q1 != q2);
        if q1 < q2 {
            assert(old_all[q1].0 != old_all[q2].0);
        } else {
            assert(old_all[q2].0 != old_all[q1].0);
        }
    }
    assert forall|k: KV| #[trigger] m.dom().contains(k) implies exists|n: int|
        0 <= n < all.len() && (#[trigger] all[n]).0 == k by {
        let q = choose|q: int| 0 <= q < old_all.len() && (#[trigger] old_all[q]).0 == k;
        let p = if q < s {
            q
        } else if q - s == best {
            s
        } else if q - s == r - 1 {
            s + 1 + best
        } else {
            q + 1
        };
        assert(select_source(s, r, best, p) == q);
        assert(all[p] == old_all[q]);
    }
    assert forall|n: int| 0 <= n < all.len() implies m.dom().contains((#[trigger] all[n]).0)
        && m[all[n].0] == all[n].1 by {
        let q = select_source(s, r, best, n);
        assert(all[n] == old_all[q]);
    }
}

} // verus!
