//! The corpus manager: one frequency model per author handle, ingestion of
//! posts, nearest-neighbour similarity search, and scalar k-means clustering
//! of the authors. Each author's scalar feature is the fixed-point square
//! root of the (clamped) squared norm of their model, with 16 fractional
//! bits; all clustering arithmetic is exact integer arithmetic on those
//! fixed-point values.
use crate::freq::{
    dot_model, norm_sq_model, sat_cap, FrequencyTable, SIM_CAP,
};
use crate::sqrt_floor;
use crate::tweet::Tweet;
use crate::twithash::TwitHash;
use vstd::prelude::*;

verus! {

/// The errors of the corpus queries: each was a fatal precondition violation
/// before the queries returned typed errors.
#[derive(Debug, PartialEq, Eq, Structural, Clone, Copy)]
pub enum CorpusError {
    /// The corpus holds no author.
    EmptyCorpus,
    /// Fewer authors than requested groups, or zero groups requested.
    NotEnoughAuthors,
    /// The named author is not in the corpus.
    UnknownAuthor,
    /// The corpus holds no author besides the named one.
    NoOtherAuthor,
}

/// The corpus: author handle to frequency model.
pub struct TweetProcessor {
    pub map: TwitHash<String, FrequencyTable>,
}

/// An enumeration order of a set: every element exactly once.
pub open spec fn valid_order(ks: Seq<Seq<char>>, dom: Set<Seq<char>>) -> bool {
    &&& forall|n1: int, n2: int| 0 <= n1 < n2 < ks.len() ==> ks[n1] != ks[n2]
    &&& forall|n: int| 0 <= n < ks.len() ==> dom.contains(#[trigger] ks[n])
    &&& forall|k: Seq<char>| #[trigger]
        dom.contains(k) ==> exists|n: int| 0 <= n < ks.len() && ks[n] == k
}

/// The scalar feature of one author: the floor square root of the clamped
/// squared norm of the model, in fixed point with 16 fractional bits.
pub open spec fn feature_of(m: Map<Seq<char>, u64>) -> int {
    sqrt_floor((sat_cap(norm_sq_model(m)) as nat) * 0x1_0000_0000) as int
}

/// The absolute difference of two scalars.
pub open spec fn abs_diff(a: int, b: int) -> int {
    if a >= b {
        a - b
    } else {
        b - a
    }
}

/// The index the assignment scan has settled on after considering centroids
/// `0..i`, continuing to the end: the first index of minimal distance wins.
pub open spec fn assign_from(f: int, cs: Seq<int>, i: int, best: int) -> int
    decreases cs.len() - i,
{
    if i < 0 || i >= cs.len() {
        best
    } else if abs_diff(f, cs[i]) < abs_diff(f, cs[best]) {
        assign_from(f, cs, i + 1, i)
    } else {
        assign_from(f, cs, i + 1, best)
    }
}

/// The centroid a feature is assigned to: the first index achieving the
/// minimal absolute difference.
pub open spec fn assign_index(f: int, cs: Seq<int>) -> int {
    assign_from(f, cs, 1, 0)
}

/// How many of the authors are assigned to group `g`.
pub open spec fn cluster_count(
    ks: Seq<Seq<char>>,
    fm: Map<Seq<char>, int>,
    cs: Seq<int>,
    g: int,
) -> nat
    decreases ks.len(),
{
    if ks.len() == 0 {
        0
    } else {
        cluster_count(ks.drop_last(), fm, cs, g) + (if assign_index(fm[ks.last()], cs) == g {
            1nat
        } else {
            0nat
        })
    }
}

/// The sum of the features of the authors assigned to group `g`.
pub open spec fn cluster_sum(
    ks: Seq<Seq<char>>,
    fm: Map<Seq<char>, int>,
    cs: Seq<int>,
    g: int,
) -> int
    decreases ks.len(),
{
    if ks.len() == 0 {
        0
    } else {
        cluster_sum(ks.drop_last(), fm, cs, g) + (if assign_index(fm[ks.last()], cs) == g {
            fm[ks.last()]
        } else {
            0
        })
    }
}

/// One refinement pass: each centroid becomes the mean (with floor division)
/// of the features assigned to it; a centroid whose group is empty keeps its
/// value — the explicit guard that replaces an undefined average.
pub open spec fn update_centroids(
    ks: Seq<Seq<char>>,
    fm: Map<Seq<char>, int>,
    cs: Seq<int>,
) -> Seq<int> {
    Seq::new(
        cs.len(),
        |g: int|
            if cluster_count(ks, fm, cs, g) == 0 {
                cs[g]
            } else {
                cluster_sum(ks, fm, cs, g) / (cluster_count(ks, fm, cs, g) as int)
            },
    )
}

/// The total movement of the centroids in one pass.
pub open spec fn delta_sum(cs: Seq<int>, cs2: Seq<int>) -> int
    decreases cs.len(),
{
    if cs.len() == 0 {
        0
    } else {
        delta_sum(cs.drop_last(), cs2.drop_last()) + abs_diff(cs.last(), cs2.last())
    }
}

/// The convergence threshold: 0.01 in fixed point with 16 fractional bits.
pub const KMEANS_EPS: u64 = 655;

/// The centroids after up to `n` refinement passes: iteration stops when a
/// pass moves the centroids by less than the threshold.
pub open spec fn kmeans_iterate(
    ks: Seq<Seq<char>>,
    fm: Map<Seq<char>, int>,
    cs: Seq<int>,
    n: nat,
) -> Seq<int>
    decreases n,
{
    if n == 0 {
        cs
    } else {
        let cs2 = update_centroids(ks, fm, cs);
        if delta_sum(cs, cs2) < KMEANS_EPS {
            cs2
        } else {
            kmeans_iterate(ks, fm, cs2, (n - 1) as nat)
        }
    }
}

/// The seed centroids: the features of the first `k` authors of the
/// enumeration. Seeding is order-dependent; the enumeration order of the
/// store must not be relied upon, so the clustering as a whole is
/// deterministic only up to that order.
pub open spec fn seed_centroids(ks: Seq<Seq<char>>, fm: Map<Seq<char>, int>, k: int) -> Seq<int> {
    Seq::new(k as nat, |g: int| fm[ks[g]])
}

/// The final centroids: the iteration cap admits `iters + 1` refinement
/// passes (the boundary the iteration counter produces, pinned and tested).
pub open spec fn kmeans_final(
    ks: Seq<Seq<char>>,
    fm: Map<Seq<char>, int>,
    k: nat,
    iters: nat,
) -> Seq<int> {
    kmeans_iterate(ks, fm, seed_centroids(ks, fm, k as int), iters + 1)
}

/// The groups of one clustering run: for each centroid index, the authors
/// whose assignment under the final centroids is that index, in enumeration
/// order. Groups may be empty; callers filter those out.
pub open spec fn kmeans_groups(
    ks: Seq<Seq<char>>,
    fm: Map<Seq<char>, int>,
    k: nat,
    iters: nat,
) -> Seq<Seq<Seq<char>>> {
    let cs = kmeans_final(ks, fm, k, iters);
    Seq::new(k, |g: int| group_of(ks, fm, cs, g))
}

/// The authors assigned to group `g`, in enumeration order.
pub open spec fn group_of(
    ks: Seq<Seq<char>>,
    fm: Map<Seq<char>, int>,
    cs: Seq<int>,
    g: int,
) -> Seq<Seq<char>> {
    ks.filter(|a: Seq<char>| assign_index(fm[a], cs) == g)
}

/// A sequence of fixed-point values as mathematical integers.
pub open spec fn int_view(s: Seq<u64>) -> Seq<int> {
    s.map_values(|x: u64| x as int)
}


/// The clamped dot product of a candidate's model with the probe's.
pub open spec fn sat_dot(
    c: Map<Seq<char>, Map<Seq<char>, u64>>,
    x: Seq<char>,
    s: Seq<char>,
) -> u64 {
    sat_cap(dot_model(c[x], c[s]))
}

/// The clamped squared norm of an author's model.
pub open spec fn sat_nsq(c: Map<Seq<char>, Map<Seq<char>, u64>>, x: Seq<char>) -> u64 {
    sat_cap(norm_sq_model(c[x]))
}

/// Whether the candidate's cosine similarity to the probe is zero: a zero
/// dot product, or a zero norm on either side (the division-by-zero guard).
pub open spec fn sim_zero(
    c: Map<Seq<char>, Map<Seq<char>, u64>>,
    s: Seq<char>,
    x: Seq<char>,
) -> bool {
    sat_dot(c, x, s) == 0 || sat_nsq(c, x) == 0 || sat_nsq(c, s) == 0
}

/// Whether candidate `x` is strictly more similar to the probe than `y`: the
/// common factor `1 / norm(s)` cancels, and `dot_x / norm_x > dot_y / norm_y`
/// is decided exactly by cross-multiplying the squares of the clamped sums.
pub open spec fn sim_gt(
    c: Map<Seq<char>, Map<Seq<char>, u64>>,
    s: Seq<char>,
    x: Seq<char>,
    y: Seq<char>,
) -> bool {
    if sim_zero(c, s, x) {
        false
    } else if sim_zero(c, s, y) {
        true
    } else {
        let dx = sat_dot(c, x, s) as int;
        let nx = sat_nsq(c, x) as int;
        let dy = sat_dot(c, y, s) as int;
        let ny = sat_nsq(c, y) as int;
        dx * dx * ny > dy * dy * nx
    }
}

/// The nearest-author scan from index `i` with current best `cur`: the probe
/// itself and zero-similarity candidates are skipped, and a later candidate
/// replaces the best only when strictly more similar, so the first-seen
/// maximum is kept.
pub open spec fn closest_from(
    c: Map<Seq<char>, Map<Seq<char>, u64>>,
    s: Seq<char>,
    ks: Seq<Seq<char>>,
    i: int,
    cur: Seq<char>,
) -> Seq<char>
    decreases ks.len() - i,
{
    if i < 0 || i >= ks.len() {
        cur
    } else {
        let x = ks[i];
        if x == s || sim_zero(c, s, x) {
            closest_from(c, s, ks, i + 1, cur)
        } else if sim_gt(c, s, x, cur) {
            closest_from(c, s, ks, i + 1, x)
        } else {
            closest_from(c, s, ks, i + 1, cur)
        }
    }
}

/// The nearest author under a scan order: the scan starts from the first
/// author other than the probe.
pub open spec fn closest_spec(
    c: Map<Seq<char>, Map<Seq<char>, u64>>,
    s: Seq<char>,
    ks: Seq<Seq<char>>,
) -> Seq<char>
    recommends
        ks.len() >= 2,
{
    let c0 = if ks[0] == s {
        ks[1]
    } else {
        ks[0]
    };
    closest_from(c, s, ks, 0, c0)
}

/// The exact product of three clamped sums, which fits in 128 bits.
fn mul3(a: u64, b: u64, e: u64) -> (r: u128)
    requires
        a <= SIM_CAP,
        b <= SIM_CAP,
        e <= SIM_CAP,
    ensures
        r == a * b * e,
{
    proof {
        assert((a as u128) * (b as u128) <= 0x3FF_FFFF_FFFFu128 * 0x3FF_FFFF_FFFFu128
            && (a as u128) * (b as u128) * (e as u128) <= 0x3FF_FFFF_FFFFu128 * 0x3FF_FFFF_FFFFu128
            * 0x3FF_FFFF_FFFFu128) by (nonlinear_arith)
            requires
                a <= 0x3FF_FFFF_FFFFu64,
                b <= 0x3FF_FFFF_FFFFu64,
                e <= 0x3FF_FFFF_FFFFu64,
        ;
    }
    (a as u128) * (b as u128) * (e as u128)
}

impl TweetProcessor {
    /// The corpus viewed as the mapping from author handles to their
    /// word-to-count models.
    pub open spec fn corpus(self) -> Map<Seq<char>, Map<Seq<char>, u64>> {
        self.map@.map_values(|ft: FrequencyTable| ft@)
    }

    /// The total-word-count field of each author's model.
    pub open spec fn word_counts(self) -> Map<Seq<char>, u64> {
        self.map@.map_values(|ft: FrequencyTable| ft.spec_word_count())
    }

    /// The feature of each author.
    pub open spec fn features(self) -> Map<Seq<char>, int> {
        self.corpus().map_values(|m: Map<Seq<char>, u64>| feature_of(m))
    }

    /// The structural invariant: the store and every model in it are well
    /// formed.
    pub open spec fn wf(self) -> bool {
        &&& self.map.wf()
        &&& forall|k: Seq<char>| #[trigger]
            self.map@.dom().contains(k) ==> self.map@[k].wf()
    }

    /// Creates an empty corpus.
    pub fn new() -> (r: TweetProcessor)
        ensures
            r.wf(),
            r.corpus() == Map::<Seq<char>, Map<Seq<char>, u64>>::empty(),
    {
        let r = TweetProcessor { map: TwitHash::new() };
        proof {
            assert(r.corpus() =~= Map::<Seq<char>, Map<Seq<char>, u64>>::empty());
        }
        r
    }

    /// Whether a post's author can be ingested without running into machine
    /// limits: the store and the author's vocabulary stay far below the
    /// address space.
    pub open spec fn can_ingest(self, t: Tweet) -> bool {
        &&& self.map@.dom().len() < usize::MAX / 4
        &&& (if self.corpus().dom().contains(t.handle@) {
            self.corpus()[t.handle@].dom().len()
        } else {
            0
        }) + t.stripped_text@.len() < usize::MAX / 4
    }

    /// Adds a post to its author's model, creating an empty model first when
    /// the author is new.
    pub fn process_tweet(&mut self, t: &Tweet)
        requires
            old(self).wf(),
            old(self).can_ingest(*t),
        ensures
            final(self).wf(),
            final(self).corpus() == old(self).corpus().insert(
                t.handle@,
                crate::freq::ingest_tokens(
                    if old(self).corpus().dom().contains(t.handle@) {
                        old(self).corpus()[t.handle@]
                    } else {
                        Map::<Seq<char>, u64>::empty()
                    },
                    crate::freq::tokens_of(t.stripped_text@),
                ),
            ),
            final(self).word_counts() == old(self).word_counts().insert(
                t.handle@,
                if old(self).corpus().dom().contains(t.handle@) {
                    old(self).word_counts()[t.handle@]
                } else {
                    0u64
                },
            ),
    {
        let ghost base = if old(self).corpus().dom().contains(t.handle@) {
            old(self).corpus()[t.handle@]
        } else {
            Map::<Seq<char>, u64>::empty()
        };
        let ghost base_wc = if old(self).corpus().dom().contains(t.handle@) {
            old(self).word_counts()[t.handle@]
        } else {
            0u64
        };
        if !self.map.contains_key(&t.handle) {
            let copy = t.handle.clone();
            proof {
                self.map.lemma_wf_facts();
            }
            self.map.insert(copy, FrequencyTable::new());
        }
        proof {
            assert(self.map@.dom().contains(t.handle@));
            assert(self.map@[t.handle@]@ == base);
            assert(self.map@[t.handle@].spec_word_count() == base_wc);
        }
        let r = self.map.get_mut(&t.handle);
        match r {
            Some(ft) => {
                ft.add_tweet(t);
                proof {
                    assert(final(self).corpus() =~= old(self).corpus().insert(
                        t.handle@,
                        crate::freq::ingest_tokens(
                            base,
                            crate::freq::tokens_of(t.stripped_text@),
                        ),
                    ));
                    assert(final(self).word_counts() =~= old(self).word_counts().insert(
                        t.handle@,
                        base_wc,
                    ));
                }
            },
            None => {
                proof {
                    assert(false);
                }
            },
        }
    }
    /// The fixed-point feature of one model.
    fn feature_of_table(ft: &FrequencyTable) -> (r: u64)
        requires
            ft.wf(),
        ensures
            r as int == feature_of(ft@),
            r <= 0x20_0000_0000,
    {
        let nsq = ft.norm_sq();
        let scaled: u128 = (nsq as u128) * 0x1_0000_0000;
        let root = crate::isqrt(scaled);
        proof {
            crate::lemma_sqrt_floor_exists(scaled as nat);
            assert(root <= 0x20_0000_0000) by (nonlinear_arith)
                requires
                    root * root <= scaled,
                    scaled < 0x20_0000_0000u128 * 0x20_0000_0000u128,
            ;
        }
        root as u64
    }

    /// The first centroid at minimal absolute distance from the feature.
    fn assign_exec(f: u64, cs: &Vec<u64>) -> (r: usize)
        requires
            cs@.len() >= 1,
        ensures
            r < cs@.len(),
            r as int == assign_index(f as int, int_view(cs@)),
    {
        let ghost csv = int_view(cs@);
        let mut best: usize = 0;
        let mut i: usize = 1;
        while i < cs.len()
            invariant
                csv == int_view(cs@),
                cs@.len() >= 1,
                1 <= i <= cs@.len(),
                best < i,
                assign_from(f as int, csv, i as int, best as int) == assign_index(f as int, csv),
            decreases cs@.len() - i,
        {
            let dist = if f >= cs[i] {
                f - cs[i]
            } else {
                cs[i] - f
            };
            let bd = if f >= cs[best] {
                f - cs[best]
            } else {
                cs[best] - f
            };
            if dist < bd {
                best = i;
            }
            i += 1;
        }
        best
    }

    /// Clusters the authors into `k` groups by iterative scalar k-means over
    /// their fixed-point features. Seeding takes the first `k` authors of the
    /// store's enumeration, so the result is deterministic only up to that
    /// order; the cap admits `iters + 1` refinement passes; an empty group
    /// keeps its centroid; groups in the result may be empty and callers
    /// filter them out.
    pub fn k_means_groups(&self, k: usize, itters: usize) -> (r: Result<
        Vec<Vec<String>>,
        CorpusError,
    >)
        requires
            self.wf(),
        ensures
            match r {
                Ok(groups) => {
                    &&& 1 <= k <= self.corpus().dom().len()
                    &&& exists|ks: Seq<Seq<char>>|
                        #![auto]
                        valid_order(ks, self.corpus().dom()) && groups@.map_values(
                            |gr: Vec<String>| gr@.map_values(|a: String| a@),
                        ) == kmeans_groups(ks, self.features(), k as nat, itters as nat)
                },
                Err(e) => {
                    &&& !(1 <= k <= self.corpus().dom().len())
                    &&& e == (if self.corpus().dom().len() == 0 {
                        CorpusError::EmptyCorpus
                    } else {
                        CorpusError::NotEnoughAuthors
                    })
                },
            },
    {
        proof {
            self.map.lemma_wf_facts();
            assert(self.corpus().dom() =~= self.map@.dom());
        }
        let keys = self.map.keys();
        if keys.len() == 0 {
            return Err(CorpusError::EmptyCorpus);
        }
        if k == 0 || k > keys.len() {
            return Err(CorpusError::NotEnoughAuthors);
        }
        let ghost ks = Seq::new(keys@.len(), |n: int| keys@[n]@);
        let ghost fm = self.features();
        proof {
            assert forall|k2: Seq<char>| #[trigger]
                self.corpus().dom().contains(k2) implies exists|n: int|
                0 <= n < ks.len() && ks[n] == k2 by {
                let n = choose|n: int| 0 <= n < keys@.len() && (#[trigger] keys@[n])@ == k2;
                assert(ks[n] == k2);
            }
            assert(valid_order(ks, self.corpus().dom()));
        }
        let mut feats: Vec<u64> = Vec::new();
        let mut n: usize = 0;
        while n < keys.len()
            invariant
                self.wf(),
                n <= keys@.len(),
                ks == Seq::new(keys@.len(), |n2: int| keys@[n2]@),
                fm == self.features(),
                forall|j: int| 0 <= j < keys@.len() ==> self.map@.dom().contains((#[trigger] keys@[j])@),
                feats@.len() == n,
                forall|j: int|
                    0 <= j < n ==> (#[trigger] feats@[j]) as int == fm[ks[j]] && feats@[j]
                        <= 0x20_0000_0000,
            decreases keys@.len() - n,
        {
            let ft = self.map.get(keys[n]).unwrap();
            feats.push(Self::feature_of_table(ft));
            proof {
                assert(ft@ == self.corpus()[ks[n as int]]);
                assert(fm[ks[n as int]] == feature_of(self.corpus()[ks[n as int]]));
            }
            n += 1;
        }
        let mut cents: Vec<u64> = Vec::new();
        let mut g: usize = 0;
        while g < k
            invariant
                g <= k,
                k <= feats@.len(),
                cents@.len() == g,
                forall|j: int| 0 <= j < g ==> (#[trigger] cents@[j]) == feats@[j],
            decreases k - g,
        {
            cents.push(feats[g]);
            g += 1;
        }
        proof {
            assert(int_view(cents@) =~= seed_centroids(ks, fm, k as int));
        }
        let ghost target = kmeans_final(ks, fm, k as nat, itters as nat);
        let mut count: usize = 0;
        let mut settled = false;
        while !settled && count <= itters
            invariant
                ks == Seq::new(keys@.len(), |n2: int| keys@[n2]@),
                fm == self.features(),
                feats@.len() == keys@.len(),
                1 <= k <= feats@.len(),
                forall|j: int|
                    0 <= j < feats@.len() ==> (#[trigger] feats@[j]) as int == fm[ks[j]]
                        && feats@[j] <= 0x20_0000_0000,
                cents@.len() == k,
                forall|j: int| 0 <= j < k ==> (#[trigger] cents@[j]) <= 0x20_0000_0000,
                count <= itters + 1,
                !settled ==> kmeans_iterate(ks, fm, int_view(cents@), (itters + 1 - count) as nat)
                    == target,
                settled ==> int_view(cents@) == target,
            decreases (if settled { 0int } else { 1int }) + (itters + 1 - count),
        {
            let ghost old_cents = int_view(cents@);
            let mut members: Vec<u64> = Vec::new();
            let mut sums: Vec<u128> = Vec::new();
            let mut g: usize = 0;
            while g < k
                invariant
                    g <= k,
                    members@.len() == g,
                    sums@.len() == g,
                    forall|j: int| 0 <= j < g ==> (#[trigger] members@[j]) == 0,
                    forall|j: int| 0 <= j < g ==> (#[trigger] sums@[j]) == 0,
                decreases k - g,
            {
                members.push(0);
                sums.push(0);
                g += 1;
            }
            proof {
                assert forall|j: int| 0 <= j < k implies cluster_count(
                    ks.take(0),
                    fm,
                    old_cents,
                    j,
                ) == 0 && cluster_sum(ks.take(0), fm, old_cents, j) == 0 by {
                    assert(ks.take(0) =~= Seq::<Seq<char>>::empty());
                }
            }
            let mut n: usize = 0;
            while n < feats.len()
                invariant
                    n <= feats@.len(),
                    feats@.len() == ks.len(),
                    1 <= k,
                    cents@.len() == k,
                    old_cents == int_view(cents@),
                    forall|j: int|
                        0 <= j < feats@.len() ==> (#[trigger] feats@[j]) as int == fm[ks[j]]
                            && feats@[j] <= 0x20_0000_0000,
                    members@.len() == k,
                    sums@.len() == k,
                    forall|j: int|
                        0 <= j < k ==> (#[trigger] members@[j]) as nat == cluster_count(
                            ks.take(n as int),
                            fm,
                            old_cents,
                            j,
                        ),
                    forall|j: int|
                        0 <= j < k ==> (#[trigger] sums@[j]) as int == cluster_sum(
                            ks.take(n as int),
                            fm,
                            old_cents,
                            j,
                        ),
                    forall|j: int| 0 <= j < k ==> (#[trigger] members@[j]) <= n,
                    forall|j: int|
                        0 <= j < k ==> (#[trigger] sums@[j]) <= (members@[j] as u128)
                            * 0x20_0000_0000,
                decreases feats@.len() - n,
            {
                let ai = Self::assign_exec(feats[n], &cents);
                proof {
                    assert((members@[ai as int] as u128) * 0x20_0000_0000 + 0x20_0000_0000 == ((
                    members@[ai as int] as u128) + 1) * 0x20_0000_0000) by (nonlinear_arith);
                    assert((members@[ai as int] as u128) * 0x20_0000_0000
                        <= 0xFFFF_FFFF_FFFF_FFFFu128 * 0x20_0000_0000u128) by (nonlinear_arith)
                        requires (members@[ai as int] as u128) <= 0xFFFF_FFFF_FFFF_FFFFu128,;
                }
                members[ai] = members[ai] + 1;
                sums[ai] = sums[ai] + feats[n] as u128;
                proof {
                    let t1 = ks.take(n + 1 as int);
                    assert(t1.drop_last() =~= ks.take(n as int));
                    assert(t1.last() == ks[n as int]);
                    assert(assign_index(fm[ks[n as int]], old_cents) == ai as int);
                }
                n += 1;
            }
            proof {
                assert(ks.take(ks.len() as int) =~= ks);
            }
            let ghost cs2 = update_centroids(ks, fm, old_cents);
            let mut delta: u128 = 0;
            let mut g: usize = 0;
            while g < k
                invariant
                    g <= k,
                    cents@.len() == k,
                    members@.len() == k,
                    sums@.len() == k,
                    cs2 == update_centroids(ks, fm, old_cents),
                    cs2.len() == k,
                    forall|j: int|
                        0 <= j < k ==> (#[trigger] members@[j]) as nat == cluster_count(
                            ks,
                            fm,
                            old_cents,
                            j,
                        ),
                    forall|j: int|
                        0 <= j < k ==> (#[trigger] sums@[j]) as int == cluster_sum(
                            ks,
                            fm,
                            old_cents,
                            j,
                        ),
                    forall|j: int|
                        0 <= j < k ==> (#[trigger] sums@[j]) <= (members@[j] as u128)
                            * 0x20_0000_0000,
                    forall|j: int| g <= j < k ==> (#[trigger] cents@[j]) as int == old_cents[j],
                    forall|j: int| 0 <= j < g ==> (#[trigger] cents@[j]) as int == cs2[j],
                    forall|j: int| 0 <= j < k ==> (#[trigger] cents@[j]) <= 0x20_0000_0000,
                    delta as int == delta_sum(old_cents.take(g as int), cs2.take(g as int)),
                    delta <= (g as u128) * 0x40_0000_0000,
                decreases k - g,
            {
                let oldc = cents[g];
                let newc: u64 = if members[g] == 0 {
                    oldc
                } else {
                    let m = sums[g] / (members[g] as u128);
                    proof {
                        assert(m <= 0x20_0000_0000) by (nonlinear_arith)
                            requires
                                sums@[g as int] <= (members@[g as int] as u128) * 0x20_0000_0000,
                                members@[g as int] >= 1,
                                m == sums@[g as int] / (members@[g as int] as u128),
                        ;
                    }
                    m as u64
                };
                proof {
                    assert(newc as int == cs2[g as int]);
                }
                let d: u64 = if newc >= oldc {
                    newc - oldc
                } else {
                    oldc - newc
                };
                cents[g] = newc;
                proof {
                    assert((delta as u128) + (d as u128) <= ((g + 1) as u128) * 0x40_0000_0000)
                        by (nonlinear_arith)
                        requires
                            delta <= (g as u128) * 0x40_0000_0000,
                            d <= 0x40_0000_0000u64,
                    ;
                }
                delta = delta + d as u128;
                proof {
                    let t1o = old_cents.take(g + 1 as int);
                    let t1n = cs2.take(g + 1 as int);
                    assert(t1o.drop_last() =~= old_cents.take(g as int));
                    assert(t1n.drop_last() =~= cs2.take(g as int));
                    assert(t1o.last() == old_cents[g as int]);
                    assert(t1n.last() == cs2[g as int]);
                }
                g += 1;
            }
            proof {
                assert(old_cents.take(k as int) =~= old_cents);
                assert(cs2.take(k as int) =~= cs2);
                assert(int_view(cents@) =~= cs2);
            }
            if delta < KMEANS_EPS as u128 {
                settled = true;
                proof {
                    assert(kmeans_iterate(ks, fm, old_cents, (itters + 1 - count) as nat) == cs2);
                }
            } else {
                if count >= itters {
                    settled = true;
                    proof {
                        assert(kmeans_iterate(ks, fm, old_cents, 1) == kmeans_iterate(ks, fm, cs2, 0));
                    }
                } else {
                    count += 1;
                    proof {
                        assert(kmeans_iterate(ks, fm, old_cents, (itters + 2 - count) as nat)
                            == kmeans_iterate(ks, fm, cs2, (itters + 1 - count) as nat));
                    }
                }
            }
        }
        proof {
            if !settled {
                assert(count == itters + 1);
                assert(kmeans_iterate(ks, fm, int_view(cents@), 0) == int_view(cents@));
            }
            assert(int_view(cents@) == target);
        }
        let mut groups: Vec<Vec<String>> = Vec::new();
        let mut g: usize = 0;
        while g < k
            invariant
                g <= k,
                groups@.len() == g,
                forall|j: int| 0 <= j < g ==> (#[trigger] groups@[j])@.len() == 0,
            decreases k - g,
        {
            groups.push(Vec::new());
            g += 1;
        }
        proof {
            assert forall|j: int| 0 <= j < k implies group_of(ks.take(0), fm, target, j)
                =~= Seq::<Seq<char>>::empty() by {
                assert(ks.take(0) =~= Seq::<Seq<char>>::empty());
                reveal(Seq::filter);
            }
        }
        let mut n: usize = 0;
        while n < keys.len()
            invariant
                n <= keys@.len(),
                feats@.len() == keys@.len(),
                ks == Seq::new(keys@.len(), |n2: int| keys@[n2]@),
                1 <= k,
                cents@.len() == k,
                int_view(cents@) == target,
                forall|j: int|
                    0 <= j < feats@.len() ==> (#[trigger] feats@[j]) as int == fm[ks[j]],
                groups@.len() == k,
                forall|j: int|
                    0 <= j < k ==> ((#[trigger] groups@[j])@.map_values(|a: String| a@)
                        == group_of(ks.take(n as int), fm, target, j)),
            decreases keys@.len() - n,
        {
            let ai = Self::assign_exec(feats[n], &cents);
            let name: String = keys[n].clone();
            groups[ai].push(name);
            proof {
                reveal(Seq::filter);
                let t1 = ks.take(n + 1 as int);
                assert(t1.drop_last() =~= ks.take(n as int));
                assert(t1.last() == ks[n as int]);
                assert(assign_index(fm[ks[n as int]], target) == ai as int);
                assert forall|j: int| 0 <= j < k implies ((#[trigger] groups@[j])@.map_values(
                    |a: String| a@,
                ) == group_of(t1, fm, target, j)) by {
                    if j == ai as int {
                        assert(group_of(t1, fm, target, j) =~= group_of(
                            ks.take(n as int),
                            fm,
                            target,
                            j,
                        ).push(ks[n as int]));
                        assert(groups@[j]@.map_values(|a: String| a@) =~= group_of(
                            ks.take(n as int),
                            fm,
                            target,
                            j,
                        ).push(ks[n as int]));
                    } else {
                        assert(group_of(t1, fm, target, j) =~= group_of(
                            ks.take(n as int),
                            fm,
                            target,
                            j,
                        ));
                    }
                }
            }
            n += 1;
        }
        proof {
            assert(ks.take(ks.len() as int) =~= ks);
            assert(groups@.map_values(|gr: Vec<String>| gr@.map_values(|a: String| a@))
                =~= kmeans_groups(ks, fm, k as nat, itters as nat));
        }
        Ok(groups)
    }

    /// The most similar other author, by the cosine-style comparison over the
    /// clamped integer sums: candidates with zero similarity and the probe
    /// itself are skipped, and the first-seen maximum is kept (a later tie
    /// does not replace it). The result depends on the store's enumeration
    /// order.
    pub fn closest_key(&self, s: &String) -> (r: Result<String, CorpusError>)
        requires
            self.wf(),
        ensures
            match r {
                Ok(name) => {
                    &&& self.corpus().dom().len() >= 2
                    &&& self.corpus().dom().contains(s@)
                    &&& exists|ks: Seq<Seq<char>>|
                        #![auto]
                        valid_order(ks, self.corpus().dom()) && name@ == closest_spec(
                            self.corpus(),
                            s@,
                            ks,
                        )
                },
                Err(e) => {
                    &&& !(self.corpus().dom().len() >= 2 && self.corpus().dom().contains(s@))
                    &&& e == (if self.corpus().dom().len() == 0 {
                        CorpusError::EmptyCorpus
                    } else if !self.corpus().dom().contains(s@) {
                        CorpusError::UnknownAuthor
                    } else {
                        CorpusError::NoOtherAuthor
                    })
                },
            },
    {
        proof {
            self.map.lemma_wf_facts();
            assert(self.corpus().dom() =~= self.map@.dom());
        }
        let keys = self.map.keys();
        if keys.len() == 0 {
            return Err(CorpusError::EmptyCorpus);
        }
        let s_ft = match self.map.get(s) {
            Some(f) => f,
            None => {
                return Err(CorpusError::UnknownAuthor);
            },
        };
        if keys.len() == 1 {
            return Err(CorpusError::NoOtherAuthor);
        }
        let ghost ks = Seq::new(keys@.len(), |n: int| keys@[n]@);
        let ghost c = self.corpus();
        proof {
            assert forall|k2: Seq<char>| #[trigger]
                self.corpus().dom().contains(k2) implies exists|n: int|
                0 <= n < ks.len() && ks[n] == k2 by {
                let n = choose|n: int| 0 <= n < keys@.len() && (#[trigger] keys@[n])@ == k2;
                assert(ks[n] == k2);
            }
            assert(valid_order(ks, self.corpus().dom()));
        }
        let ns = s_ft.norm_sq();
        let first_is_s = *keys[0] == *s;
        let mut cur: usize = if first_is_s {
            1
        } else {
            0
        };
        let cur_ft = self.map.get(keys[cur]).unwrap();
        let mut cd = cur_ft.dot_counts(s_ft);
        let mut cn = cur_ft.norm_sq();
        proof {
            assert(ks[cur as int] == if ks[0] == s@ {
                ks[1]
            } else {
                ks[0]
            });
        }
        let mut i: usize = 0;
        while i < keys.len()
            invariant
                self.wf(),
                c == self.corpus(),
                c.dom() =~= self.map@.dom(),
                ks == Seq::new(keys@.len(), |n2: int| keys@[n2]@),
                forall|j: int|
                    0 <= j < keys@.len() ==> self.map@.dom().contains((#[trigger] keys@[j])@),
                keys@.len() >= 2,
                i <= keys@.len(),
                cur < keys@.len(),
                c.dom().contains(s@),
                s_ft.wf(),
                s_ft@ == c[s@],
                ns == sat_nsq(c, s@),
                cd == sat_dot(c, ks[cur as int], s@),
                cn == sat_nsq(c, ks[cur as int]),
                cd <= SIM_CAP,
                cn <= SIM_CAP,
                ns <= SIM_CAP,
                closest_from(c, s@, ks, i as int, ks[cur as int]) == closest_spec(c, s@, ks),
            decreases keys@.len() - i,
        {
            let is_self = *keys[i] == *s;
            if !is_self {
                let ft_i = self.map.get(keys[i]).unwrap();
                let d = ft_i.dot_counts(s_ft);
                let ni = ft_i.norm_sq();
                proof {
                    assert(ft_i@ == c[ks[i as int]]);
                    assert(d == sat_dot(c, ks[i as int], s@));
                    assert(ni == sat_nsq(c, ks[i as int]));
                }
                if d == 0 || ni == 0 || ns == 0 {
                    proof {
                        assert(sim_zero(c, s@, ks[i as int]));
                    }
                } else {
                    let gt = if cd == 0 || cn == 0 {
                        true
                    } else {
                        mul3(d, d, cn) > mul3(cd, cd, ni)
                    };
                    proof {
                        assert(gt == sim_gt(c, s@, ks[i as int], ks[cur as int]));
                    }
                    if gt {
                        cur = i;
                        cd = d;
                        cn = ni;
                    }
                }
            } else {
                proof {
                    assert(ks[i as int] == s@);
                }
            }
            i += 1;
        }
        Ok(keys[cur].clone())
    }

}


/// Refinement passes do not change the number of centroids.
proof fn lemma_iterate_len(ks: Seq<Seq<char>>, fm: Map<Seq<char>, int>, cs: Seq<int>, n: nat)
    ensures
        kmeans_iterate(ks, fm, cs, n).len() == cs.len(),
    decreases n,
{
    if n > 0 {
        let cs2 = update_centroids(ks, fm, cs);
        lemma_iterate_len(ks, fm, cs2, (n - 1) as nat);
    }
}

/// With a single centroid, every author lands in its group.
proof fn lemma_group_all(ks: Seq<Seq<char>>, fm: Map<Seq<char>, int>, cs: Seq<int>)
    requires
        cs.len() == 1,
    ensures
        group_of(ks, fm, cs, 0) == ks,
    decreases ks.len(),
{
    reveal(Seq::filter);
    if ks.len() == 0 {
        assert(group_of(ks, fm, cs, 0) =~= ks);
    } else {
        lemma_group_all(ks.drop_last(), fm, cs);
        assert(assign_index(fm[ks.last()], cs) == 0);
        assert(group_of(ks, fm, cs, 0) =~= ks);
    }
}

/// Clustering into one group returns exactly one group holding every author
/// of the corpus, for any iteration bound: with a single centroid the
/// assignment is always index 0.
pub proof fn lemma_single_group(ks: Seq<Seq<char>>, fm: Map<Seq<char>, int>, iters: nat)
    ensures
        kmeans_groups(ks, fm, 1, iters).len() == 1,
        kmeans_groups(ks, fm, 1, iters)[0] == ks,
{
    let cs0 = seed_centroids(ks, fm, 1);
    lemma_iterate_len(ks, fm, cs0, iters + 1);
    let cs = kmeans_final(ks, fm, 1, iters);
    lemma_group_all(ks, fm, cs);
}

/// On a corpus of exactly two authors, the nearest author to one of them is
/// the other, whatever enumeration order the scan used: the other author is
/// the scan's initial best and is never replaced, since the only candidates
/// are the probe (skipped) and the best itself (never strictly better).
pub proof fn lemma_two_author_closest(
    c: Map<Seq<char>, Map<Seq<char>, u64>>,
    s: Seq<char>,
    other: Seq<char>,
    ks: Seq<Seq<char>>,
)
    requires
        s != other,
        valid_order(ks, set![s, other]),
    ensures
        ks.len() == 2,
        closest_spec(c, s, ks) == other,
{
    let dom = set![s, other];
    assert(dom.contains(s) && dom.contains(other));
    let n1 = choose|n: int| 0 <= n < ks.len() && ks[n] == s;
    let n2 = choose|n: int| 0 <= n < ks.len() && ks[n] == other;
    assert(n1 != n2);
    assert(ks.len() >= 2);
    assert forall|n: int| 0 <= n < ks.len() implies #[trigger] ks[n] == ks[n] && (n == n1 || n
        == n2) by {
        assert(dom.contains(ks[n]));
        if ks[n] == s {
            if n != n1 {
                if n < n1 {
                    assert(ks[n] != ks[n1]);
                } else {
                    assert(ks[n1] != ks[n]);
                }
            }
        } else {
            assert(ks[n] == other);
            if n != n2 {
                if n < n2 {
                    assert(ks[n] != ks[n2]);
                } else {
                    assert(ks[n2] != ks[n]);
                }
            }
        }
    }
    assert(ks.len() == 2) by {
        if ks.len() > 2 {
            assert(ks[0] == ks[0] && ks[1] == ks[1] && ks[2] == ks[2]);
            assert(0 == n1 || 0 == n2);
            assert(1 == n1 || 1 == n2);
            assert(2 == n1 || 2 == n2);
        }
    }
    let c0 = if ks[0] == s {
        ks[1]
    } else {
        ks[0]
    };
    assert(c0 == other);
    assert(closest_from(c, s, ks, 2, other) == other);
    assert(closest_from(c, s, ks, 1, other) == other) by {
        if !(ks[1] == s || sim_zero(c, s, ks[1])) {
            assert(ks[1] == other);
            assert(!sim_gt(c, s, other, other));
        }
    }
    assert(closest_from(c, s, ks, 0, other) == other) by {
        if !(ks[0] == s || sim_zero(c, s, ks[0])) {
            assert(ks[0] == other);
            assert(!sim_gt(c, s, other, other));
        }
    }
}

} // verus!
