//! The per-author bag-of-words model: a word-to-count store plus a total word
//! count. Ingestion splits a normalized text on spaces and increments each
//! token's count. The vector algebra (dot product, squared norm, sum of
//! counts) is exact integer arithmetic, saturated at a fixed cap so that
//! similarity comparisons stay within 128 bits.
use crate::codec::{
    decode_str_at, decode_u64_at, encode_str, encode_u64, lemma_str_round_trip,
    lemma_u64_round_trip, put_str, put_u64, read_string, read_u64, DecodeError,
};
use crate::summation::{
    enumerates, insert_all, lemma_insert_all_rebuilds, lemma_map_sum_congruence,
    lemma_map_sum_zero, lemma_seq_sum_is_map_sum, map_sum, seq_sum,
};
use crate::tweet::Tweet;
use crate::twithash::TwitHash;
use vstd::prelude::*;

verus! {

/// The saturation cap of the vector algebra: sums of products of counts are
/// clamped here, so that a product of three such sums fits in 128 bits.
pub const SIM_CAP: u64 = 0x3FF_FFFF_FFFF;

/// A sum clamped at the cap.
pub open spec fn sat_cap(n: nat) -> u64 {
    if n > SIM_CAP {
        SIM_CAP
    } else {
        n as u64
    }
}

/// The word-frequency model of one author.
pub struct FrequencyTable {
    table: TwitHash<String, u64>,
    word_count: u64,
}

/// A maximal run of non-space characters, split off a text: `tokens_acc`
/// walks the text with the pending partial token, and `tokens_of` starts with
/// an empty one.
pub open spec fn tokens_acc(s: Seq<char>, cur: Seq<char>) -> Seq<Seq<char>>
    decreases s.len(),
{
    if s.len() == 0 {
        if cur.len() == 0 {
            Seq::empty()
        } else {
            seq![cur]
        }
    } else if s[0] == ' ' {
        if cur.len() == 0 {
            tokens_acc(s.drop_first(), Seq::empty())
        } else {
            seq![cur] + tokens_acc(s.drop_first(), Seq::empty())
        }
    } else {
        tokens_acc(s.drop_first(), cur.push(s[0]))
    }
}

/// The tokens of a text: its maximal space-free runs, in order. Normalized
/// text contains no whitespace other than the space character.
pub open spec fn tokens_of(s: Seq<char>) -> Seq<Seq<char>> {
    tokens_acc(s, Seq::empty())
}

/// One token counted: an absent word enters at 1, a present word's count
/// grows by one, saturating at the largest 64-bit value.
pub open spec fn bump(m: Map<Seq<char>, u64>, w: Seq<char>) -> Map<Seq<char>, u64> {
    if m.dom().contains(w) {
        m.insert(
            w,
            if m[w] == u64::MAX {
                u64::MAX
            } else {
                (m[w] + 1) as u64
            },
        )
    } else {
        m.insert(w, 1)
    }
}

/// A token sequence counted into a model, front to back.
pub open spec fn ingest_tokens(m: Map<Seq<char>, u64>, ts: Seq<Seq<char>>) -> Map<Seq<char>, u64>
    decreases ts.len(),
{
    if ts.len() == 0 {
        m
    } else {
        ingest_tokens(bump(m, ts[0]), ts.drop_first())
    }
}

/// The term one word contributes to a dot product against the model `mb`.
pub open spec fn dot_term_fn(mb: Map<Seq<char>, u64>) -> spec_fn(Seq<char>, u64) -> nat {
    |w: Seq<char>, c: u64|
        if mb.dom().contains(w) {
            (c * mb[w]) as nat
        } else {
            0nat
        }
}

/// The term one word contributes to a squared norm.
pub open spec fn norm_term_fn() -> spec_fn(Seq<char>, u64) -> nat {
    |w: Seq<char>, c: u64| (c * c) as nat
}

/// The term one word contributes to the total of all counts.
pub open spec fn count_term_fn() -> spec_fn(Seq<char>, u64) -> nat {
    |w: Seq<char>, c: u64| c as nat
}

/// The exact dot product of two models: the sum, over the words both know,
/// of the product of their counts.
pub open spec fn dot_model(ma: Map<Seq<char>, u64>, mb: Map<Seq<char>, u64>) -> nat {
    map_sum(ma, dot_term_fn(mb))
}

/// The exact squared Euclidean norm of a model: the sum of the squared
/// counts.
pub open spec fn norm_sq_model(m: Map<Seq<char>, u64>) -> nat {
    map_sum(m, norm_term_fn())
}

/// The exact sum of all counts of a model.
pub open spec fn counts_total_model(m: Map<Seq<char>, u64>) -> nat {
    map_sum(m, count_term_fn())
}

impl View for FrequencyTable {
    type V = Map<Seq<char>, u64>;

    /// The model viewed as its word-to-count mapping.
    closed spec fn view(&self) -> Map<Seq<char>, u64> {
        self.table@
    }
}

impl FrequencyTable {
    /// The structural invariant of the model.
    pub closed spec fn wf(self) -> bool {
        self.table.wf()
    }

    /// The total number of words the model was told it holds. Deserialization
    /// sets it; `add_tweet` deliberately does not update it (a preserved
    /// asymmetry of the model's provenance).
    pub closed spec fn spec_word_count(self) -> u64 {
        self.word_count
    }

    /// The number of distinct words.
    pub closed spec fn spec_vocab_len(self) -> nat {
        self.table.spec_count()
    }

    /// Facts every well-formed model provides.
    pub proof fn lemma_wf_facts(self)
        requires
            self.wf(),
        ensures
            self@.dom().finite(),
            self.spec_vocab_len() == self@.dom().len(),
    {
        self.table.lemma_wf_facts();
    }

    /// Creates an empty model.
    pub fn new() -> (r: FrequencyTable)
        ensures
            r.wf(),
            r@ == Map::<Seq<char>, u64>::empty(),
            r.spec_word_count() == 0,
    {
        FrequencyTable { table: TwitHash::new(), word_count: 0 }
    }

    /// Counts one word.
    fn bump_word(&mut self, w: String)
        requires
            old(self).wf(),
            old(self)@.dom().len() < usize::MAX / 4,
        ensures
            final(self).wf(),
            final(self)@ == bump(old(self)@, w@),
            final(self).spec_word_count() == old(self).spec_word_count(),
            final(self)@.dom().len() <= old(self)@.dom().len() + 1,
    {
        proof {
            self.table.lemma_wf_facts();
        }
        let r = self.table.get_mut(&w);
        match r {
            Some(c) => {
                if *c < u64::MAX {
                    *c = *c + 1;
                }
                proof {
                    assert(final(self)@.dom() =~= old(self)@.dom());
                }
            },
            None => {
                self.table.insert(w, 1);
            },
        }
    }

    /// Adds the words of a post to the model: the normalized text is split on
    /// spaces and each token's count is incremented (an absent token enters
    /// at 1). The total word count is deliberately not updated: only
    /// deserialization sets it.
    pub fn add_tweet(&mut self, t: &Tweet)
        requires
            old(self).wf(),
            old(self)@.dom().len() + t.stripped_text@.len() < usize::MAX / 4,
        ensures
            final(self).wf(),
            final(self)@ == ingest_tokens(old(self)@, tokens_of(t.stripped_text@)),
            final(self).spec_word_count() == old(self).spec_word_count(),
    {
        let s = t.stripped_text.as_str();
        let n = s.unicode_len();
        let mut cur = String::new();
        let mut i: usize = 0;
        proof {
            assert(s@.skip(0) =~= s@);
        }
        while i < n
            invariant
                i <= n,
                n == s@.len(),
                s@ == t.stripped_text@,
                old(self)@.dom().len() + n < usize::MAX / 4,
                self.wf(),
                self.spec_word_count() == old(self).spec_word_count(),
                self@.dom().len() <= old(self)@.dom().len() + i,
                ingest_tokens(self@, tokens_acc(s@.skip(i as int), cur@)) == ingest_tokens(
                    old(self)@,
                    tokens_of(s@),
                ),
            decreases n - i,
        {
            let c = s.get_char(i);
            proof {
                assert(s@.skip(i as int)[0] == c);
                assert(s@.skip(i as int).drop_first() =~= s@.skip(i + 1 as int));
            }
            if c == ' ' {
                if cur.unicode_len() > 0 {
                    let ghost pre = self@;
                    let ghost curv = cur@;
                    self.bump_word(cur);
                    cur = String::new();
                    proof {
                        let rest = tokens_acc(s@.skip(i + 1 as int), Seq::empty());
                        assert(tokens_acc(s@.skip(i as int), curv) == seq![curv] + rest);
                        assert((seq![curv] + rest)[0] == curv);
                        assert((seq![curv] + rest).drop_first() =~= rest);
                        assert(ingest_tokens(pre, seq![curv] + rest) == ingest_tokens(
                            bump(pre, curv),
                            rest,
                        ));
                    }
                } else {
                    proof {
                        assert(cur@ =~= Seq::<char>::empty());
                    }
                }
            } else {
                crate::text::push_char(&mut cur, c);
            }
            i += 1;
        }
        proof {
            assert(s@.skip(n as int) =~= Seq::<char>::empty());
        }
        if cur.unicode_len() > 0 {
            let ghost pre = self@;
            let ghost curv = cur@;
            self.bump_word(cur);
            proof {
                assert(tokens_acc(Seq::<char>::empty(), curv) == seq![curv]);
                assert(seq![curv][0] == curv);
                assert(seq![curv].drop_first() =~= Seq::<Seq<char>>::empty());
                assert(ingest_tokens(pre, seq![curv]) == ingest_tokens(bump(pre, curv), Seq::empty()));
            }
        } else {
            proof {
                assert(cur@ =~= Seq::<char>::empty());
            }
        }
    }

    /// The number of distinct words in the model.
    pub fn vocab_len(&self) -> (r: usize)
        requires
            self.wf(),
        ensures
            r as nat == self@.dom().len(),
    {
        proof {
            self.table.lemma_wf_facts();
        }
        self.table.num_entries()
    }

    /// The stored count of a word, or 1 when absent: the guard that keeps
    /// downstream ratios away from division by zero.
    pub fn freq(&self, word: &String) -> (r: u64)
        requires
            self.wf(),
        ensures
            r == if self@.dom().contains(word@) {
                self@[word@]
            } else {
                1u64
            },
    {
        match self.table.get(word) {
            Some(x) => *x,
            None => 1,
        }
    }

    /// The stored count of a word, or 0 when absent: the value that the
    /// logarithmic term weight of a word is taken from.
    pub fn count_of(&self, word: &String) -> (r: u64)
        requires
            self.wf(),
        ensures
            r == if self@.dom().contains(word@) {
                self@[word@]
            } else {
                0u64
            },
    {
        match self.table.get(word) {
            Some(x) => *x,
            None => 0,
        }
    }

    /// Appends the model's encoding to the sink: the total word count, the
    /// pair count, then each (word, count) pair in the store's enumeration
    /// order.
    pub fn serialize(&self, out: &mut Vec<u8>)
        requires
            self.wf(),
        ensures
            exists|ps: Seq<(Seq<char>, u64)>|
                #![auto]
                enumerates(ps, self@) && final(out)@ == old(out)@ + encode_table(
                    self.spec_word_count(),
                    ps,
                ),
    {
        put_u64(out, self.word_count);
        let (prs, psv) = self.snapshot_pairs();
        put_u64(out, prs.len() as u64);
        let ghost base = out@;
        let mut n: usize = 0;
        while n < prs.len()
            invariant
                self.wf(),
                prs@.len() == psv@.len(),
                forall|n2: int|
                    0 <= n2 < prs@.len() ==> ((#[trigger] prs@[n2]).0@, *prs@[n2].1) == psv@[n2],
                n <= prs@.len(),
                out@ == base + encode_pairs(psv@.take(n as int)),
            decreases prs@.len() - n,
        {
            put_str(out, prs[n].0.as_str());
            put_u64(out, *prs[n].1);
            proof {
                let t1 = psv@.take(n + 1 as int);
                assert(t1.drop_last() =~= psv@.take(n as int));
                assert(t1.last() == psv@[n as int]);
                assert(out@ =~= base + encode_pairs(t1));
            }
            n += 1;
        }
        proof {
            assert(psv@.take(psv@.len() as int) =~= psv@);
            assert(final(out)@ =~= old(out)@ + encode_table(self.spec_word_count(), psv@));
        }
    }

    /// Reads a model from `data` at `pos`: the total word count, the pair
    /// count, then that many pairs, inserted in order into a fresh store.
    /// Fails exactly when the bytes do not decode.
    pub fn deserialize(data: &[u8], pos: usize) -> (r: Result<
        (FrequencyTable, usize),
        DecodeError,
    >)
        ensures
            match r {
                Ok(v) => {
                    &&& pos + 16 <= data@.len()
                    &&& v.0.wf()
                    &&& v.0.spec_word_count() == decode_u64_at(data@, pos as int)
                    &&& exists|ps: Seq<(Seq<char>, u64)>|
                        #![auto]
                        decode_pairs_at(
                            data@,
                            pos + 16,
                            decode_u64_at(data@, pos + 8) as nat,
                        ) == Some((ps, v.1 as int)) && v.0@ == insert_all(
                            Map::<Seq<char>, u64>::empty(),
                            ps,
                        )
                },
                Err(_) => pos + 16 > data@.len() || decode_pairs_at(
                    data@,
                    pos + 16,
                    decode_u64_at(data@, pos + 8) as nat,
                ) is None,
            },
    {
        let (wc, p0) = match read_u64(data, pos) {
            Ok(x) => x,
            Err(e) => {
                return Err(e);
            },
        };
        let (pc, p1) = match read_u64(data, p0) {
            Ok(x) => x,
            Err(e) => {
                return Err(e);
            },
        };
        let mut table: TwitHash<String, u64> = TwitHash::new();
        let ghost mut built: Seq<(Seq<char>, u64)> = Seq::empty();
        let mut i: u64 = 0;
        let mut p = p1;
        while i < pc
            invariant
                i <= pc,
                pos + 16 <= data@.len(),
                p1 == pos + 16,
                pc == decode_u64_at(data@, pos + 8),
                p1 + 16 * i <= p <= data@.len(),
                table.wf(),
                table@ == insert_all(Map::<Seq<char>, u64>::empty(), built),
                built.len() == i,
                table.spec_count() <= i,
                decode_pairs_at(data@, p1 as int, pc as nat) == (match decode_pairs_at(
                    data@,
                    p as int,
                    (pc - i) as nat,
                ) {
                    None => None::<(Seq<(Seq<char>, u64)>, int)>,
                    Some((rest, end)) => Some((built + rest, end)),
                }),
            decreases pc - i,
        {
            let (w, p2) = match read_string(data, p) {
                Ok(x) => x,
                Err(e) => {
                    return Err(e);
                },
            };
            let (c, p3) = match read_u64(data, p2) {
                Ok(x) => x,
                Err(e) => {
                    return Err(e);
                },
            };
            let ghost pre = built;
            proof {
                table.lemma_wf_facts();
                assert(16 * (i + 1) <= 16 * i + (p3 - p)) by {
                    assert(p2 >= p + 8);
                };
                assert(table.spec_count() < usize::MAX / 4) by {
                    assert(16 * i <= p - p1);
                };
            }
            let ghost wv = w@;
            table.insert(w, c);
            proof {
                built = built.push((wv, c));
                assert(built.drop_last() =~= pre);
                assert(insert_all(Map::<Seq<char>, u64>::empty(), built) == insert_all(
                    Map::<Seq<char>, u64>::empty(),
                    pre,
                ).insert(wv, c));
                assert forall|rest: Seq<(Seq<char>, u64)>|
                    true implies #[trigger] (pre + (seq![(wv, c)] + rest)) =~= built + rest by {}
            }
            p = p3;
            i += 1;
        }
        proof {
            assert(built + Seq::<(Seq<char>, u64)>::empty() =~= built);
        }
        Ok((FrequencyTable { table, word_count: wc }, p))
    }

    /// The reported serialized size: 16 fixed bytes plus `16 + len(word)` per
    /// pair, saturated at the largest 64-bit value. This deliberately
    /// over-counts the true per-pair size (8 + len + 8), preserving how the
    /// model's size was always reported; stores use it as an upper bound.
    pub fn serialized_len(&self) -> (r: u64)
        requires
            self.wf(),
        ensures
            r as nat == sat64(16 + map_sum(self@, size_term_fn())),
    {
        let (prs, psv) = self.snapshot_pairs();
        let ghost f = size_term_fn();
        let mut acc: u64 = 16;
        let mut n: usize = 0;
        while n < prs.len()
            invariant
                self.wf(),
                prs@.len() == psv@.len(),
                forall|n2: int|
                    0 <= n2 < prs@.len() ==> ((#[trigger] prs@[n2]).0@, *prs@[n2].1) == psv@[n2],
                n <= prs@.len(),
                f == size_term_fn(),
                acc as nat == sat64(16 + seq_sum(psv@.take(n as int), f)) as nat,
            decreases prs@.len() - n,
        {
            let klen = prs[n].0.as_str().len() as u64;
            let term: u64 = if klen > u64::MAX - 16 {
                u64::MAX
            } else {
                16 + klen
            };
            proof {
                assert(term as nat == sat64(f(psv@[n as int].0, psv@[n as int].1)) as nat);
            }
            acc = if acc > u64::MAX - term {
                u64::MAX
            } else {
                acc + term
            };
            proof {
                let t1 = psv@.take(n + 1 as int);
                assert(t1.drop_last() =~= psv@.take(n as int));
                assert(t1.last() == psv@[n as int]);
            }
            n += 1;
        }
        proof {
            assert(psv@.take(psv@.len() as int) =~= psv@);
            self.lemma_wf_facts();
            lemma_seq_sum_is_map_sum(psv@, self@, f);
        }
        acc
    }

    /// The display lines of the ten most frequent words (fewer when the
    /// vocabulary is smaller), each `"<count>x - <word>"` with one extra
    /// padding space when the count is below 10. Words are ordered by
    /// descending count; the order among equal counts is unspecified.
    pub fn display(&self) -> (r: Vec<String>)
        requires
            self.wf(),
        ensures
            exists|ps: Seq<(Seq<char>, u64)>|
                #![auto]
                {
                    &&& enumerates(ps, self@)
                    &&& r@.len() == if ps.len() < 10 {
                        ps.len()
                    } else {
                        10nat
                    }
                    &&& forall|n1: int, n2: int|
                        0 <= n1 < n2 < ps.len() && n1 < r@.len() ==> ps[n1].1 >= ps[n2].1
                    &&& forall|n: int| 0 <= n < r@.len() ==> r@[n]@ == line_of(ps[n].1, ps[n].0)
                },
    {
        let (prs, psv) = self.snapshot_pairs();
        let mut work: Vec<(u64, String)> = Vec::new();
        let mut n: usize = 0;
        while n < prs.len()
            invariant
                prs@.len() == psv@.len(),
                forall|n2: int|
                    0 <= n2 < prs@.len() ==> ((#[trigger] prs@[n2]).0@, *prs@[n2].1) == psv@[n2],
                n <= prs@.len(),
                work@.len() == n,
                forall|k: int|
                    0 <= k < n ==> ((#[trigger] work@[k]).1@, work@[k].0) == psv@[k],
            decreases prs@.len() - n,
        {
            let c: u64 = *prs[n].1;
            let w: String = prs[n].0.clone();
            work.push((c, w));
            n += 1;
        }
        let ghost m = self@;
        let ghost mut remv: Seq<(Seq<char>, u64)> = psv@;
        let ghost mut sel: Seq<(Seq<char>, u64)> = Seq::empty();
        proof {
            assert(sel + remv =~= psv@);
        }
        let total = work.len();
        let size = if total < 10 {
            total
        } else {
            10
        };
        let mut ret: Vec<String> = Vec::new();
        let mut k: usize = 0;
        while k < size
            invariant
                k <= size,
                size == if total < 10 {
                    total as int
                } else {
                    10int
                },
                total == sel.len() + remv.len(),
                ret@.len() == k,
                sel.len() == k,
                work@.len() == remv.len(),
                forall|j: int|
                    0 <= j < work@.len() ==> ((#[trigger] work@[j]).1@, work@[j].0) == remv[j],
                enumerates(sel + remv, m),
                forall|n1: int, n2: int|
                    0 <= n1 < sel.len() && 0 <= n2 < remv.len() ==> (#[trigger] sel[n1]).1
                        >= (#[trigger] remv[n2]).1,
                forall|n1: int, n2: int| 0 <= n1 < n2 < sel.len() ==> sel[n1].1 >= sel[n2].1,
                forall|j: int| 0 <= j < k ==> ret@[j]@ == line_of(sel[j].1, sel[j].0),
            decreases size - k,
        {
            let mut best: usize = 0;
            let mut bc: u64 = work[0].0;
            let mut j: usize = 1;
            while j < work.len()
                invariant
                    work@.len() > 0,
                    j <= work@.len(),
                    best < work@.len(),
                    bc == work@[best as int].0,
                    forall|jj: int| 0 <= jj < j ==> (#[trigger] work@[jj]).0 <= bc,
                decreases work@.len() - j,
            {
                if work[j].0 > bc {
                    best = j;
                    bc = work[j].0;
                }
                j += 1;
            }
            let ghost old_workv = work@;
            let (c, w) = work.swap_remove(best);
            let mut line = u64_to_string(c);
            if c >= 10 {
                line.append("x - ");
            } else {
                line.append("x  - ");
            }
            line.append(w.as_str());
            ret.push(line);
            proof {
                let old_sel = sel;
                let old_remv = remv;
                sel = sel.push((w@, c));
                remv = remv.update(best as int, remv.last()).drop_last();
                assert((w@, c) == old_remv[best as int]);
                crate::summation::lemma_select_step(old_sel, old_remv, best as int, m);
                assert forall|n1: int, n2: int|
                    0 <= n1 < sel.len() && 0 <= n2 < remv.len() implies (#[trigger] sel[n1]).1
                    >= (#[trigger] remv[n2]).1 by {
                    let src = if n2 == best as int {
                        old_remv.len() - 1
                    } else {
                        n2
                    };
                    assert(remv[n2] == old_remv[src]);
                    assert(old_remv[src].1 == old_workv[src].0);
                    assert(old_workv[src].0 <= c);
                    if n1 < old_sel.len() {
                        assert(sel[n1] == old_sel[n1]);
                        assert(old_sel[n1].1 >= old_remv[best as int].1);
                    } else {
                        assert(sel[n1] == old_remv[best as int]);
                    }
                }
            }
            k += 1;
        }
        proof {
            let ps = sel + remv;
            assert(enumerates(ps, m));
            assert forall|n1: int, n2: int|
                0 <= n1 < n2 < ps.len() && n1 < ret@.len() implies ps[n1].1 >= ps[n2].1 by {
                assert(ps[n1] == sel[n1]);
                if n2 < sel.len() {
                    assert(ps[n2] == sel[n2]);
                } else {
                    assert(ps[n2] == remv[n2 - sel.len()]);
                }
            }
            assert forall|n: int| 0 <= n < ret@.len() implies ret@[n]@ == line_of(
                ps[n].1,
                ps[n].0,
            ) by {
                assert(ps[n] == sel[n]);
            }
        }
        ret
    }

    /// The (word, count) pairs of the model as one ghost sequence, with the
    /// proof that the sequence enumerates the model.
    fn snapshot_pairs(&self) -> (r: (Vec<(&String, &u64)>, Ghost<Seq<(Seq<char>, u64)>>))
        requires
            self.wf(),
        ensures
            enumerates(r.1@, self@),
            r.0@.len() == r.1@.len(),
            forall|n: int|
                0 <= n < r.0@.len() ==> ((#[trigger] r.0@[n]).0@, *r.0@[n].1) == r.1@[n],
    {
        let prs = self.table.pairs();
        let ghost psv = Seq::new(prs@.len(), |n: int| (prs@[n].0@, *prs@[n].1));
        proof {
            assert forall|k: Seq<char>| #[trigger] self@.dom().contains(k) implies exists|n: int|
                0 <= n < psv.len() && (#[trigger] psv[n]).0 == k by {
                let n = choose|n: int| 0 <= n < prs@.len() && (#[trigger] prs@[n]).0@ == k;
                assert(psv[n].0 == k);
            }
        }
        (prs, Ghost(psv))
    }

    /// The exact dot product with another model over the shared vocabulary,
    /// clamped at the cap.
    pub fn dot_counts(&self, other: &FrequencyTable) -> (r: u64)
        requires
            self.wf(),
            other.wf(),
        ensures
            r == sat_cap(dot_model(self@, other@)),
    {
        let (prs, psv) = self.snapshot_pairs();
        let ghost f = dot_term_fn(other@);
        let mut acc: u64 = 0;
        let mut n: usize = 0;
        while n < prs.len()
            invariant
                self.wf(),
                other.wf(),
                n <= prs@.len(),
                enumerates(psv@, self@),
                prs@.len() == psv@.len(),
                forall|n2: int|
                    0 <= n2 < prs@.len() ==> ((#[trigger] prs@[n2]).0@, *prs@[n2].1) == psv@[n2],
                f == dot_term_fn(other@),
                acc as nat == sat_cap(seq_sum(psv@.take(n as int), f)) as nat,
            decreases prs@.len() - n,
        {
            let ghost prefix = psv@.take(n as int);
            let c: u64 = *prs[n].1;
            let term: u128 = match other.table_get(prs[n].0) {
                Some(oc) => mul_u64(c, *oc),
                None => 0,
            };
            proof {
                assert(term == f(psv@[n as int].0, psv@[n as int].1));
            }
            acc = add_capped(acc, term);
            proof {
                let t1 = psv@.take(n + 1 as int);
                assert(t1.drop_last() =~= prefix);
                assert(t1.last() == psv@[n as int]);
                assert(seq_sum(t1, f) == seq_sum(prefix, f) + f(psv@[n as int].0, psv@[n as int].1));
            }
            n += 1;
        }
        proof {
            assert(psv@.take(psv@.len() as int) =~= psv@);
            self.lemma_wf_facts();
            lemma_seq_sum_is_map_sum(psv@, self@, f);
        }
        acc
    }

    /// Looks a word up in the model's store.
    fn table_get(&self, word: &String) -> (r: Option<&u64>)
        requires
            self.wf(),
        ensures
            match r {
                Some(v) => self@.dom().contains(word@) && *v == self@[word@],
                None => !self@.dom().contains(word@),
            },
    {
        self.table.get(word)
    }

    /// The exact squared Euclidean norm of the model, clamped at the cap.
    pub fn norm_sq(&self) -> (r: u64)
        requires
            self.wf(),
        ensures
            r == sat_cap(norm_sq_model(self@)),
    {
        let (prs, psv) = self.snapshot_pairs();
        let ghost f = norm_term_fn();
        let mut acc: u64 = 0;
        let mut n: usize = 0;
        while n < prs.len()
            invariant
                n <= prs@.len(),
                prs@.len() == psv@.len(),
                forall|n2: int|
                    0 <= n2 < prs@.len() ==> ((#[trigger] prs@[n2]).0@, *prs@[n2].1) == psv@[n2],
                f == norm_term_fn(),
                acc as nat == sat_cap(seq_sum(psv@.take(n as int), f)) as nat,
            decreases prs@.len() - n,
        {
            let ghost prefix = psv@.take(n as int);
            let c: u64 = *prs[n].1;
            let term: u128 = mul_u64(c, c);
            proof {
                assert(term == f(psv@[n as int].0, psv@[n as int].1));
            }
            acc = add_capped(acc, term);
            proof {
                let t1 = psv@.take(n + 1 as int);
                assert(t1.drop_last() =~= prefix);
                assert(t1.last() == psv@[n as int]);
                assert(seq_sum(t1, f) == seq_sum(prefix, f) + f(psv@[n as int].0, psv@[n as int].1));
            }
            n += 1;
        }
        proof {
            assert(psv@.take(psv@.len() as int) =~= psv@);
            self.lemma_wf_facts();
            lemma_seq_sum_is_map_sum(psv@, self@, f);
        }
        acc
    }

    /// The exact sum of all counts of the model, clamped at the cap.
    pub fn count_total(&self) -> (r: u64)
        requires
            self.wf(),
        ensures
            r == sat_cap(counts_total_model(self@)),
    {
        let (prs, psv) = self.snapshot_pairs();
        let ghost f = count_term_fn();
        let mut acc: u64 = 0;
        let mut n: usize = 0;
        while n < prs.len()
            invariant
                n <= prs@.len(),
                prs@.len() == psv@.len(),
                forall|n2: int|
                    0 <= n2 < prs@.len() ==> ((#[trigger] prs@[n2]).0@, *prs@[n2].1) == psv@[n2],
                f == count_term_fn(),
                acc as nat == sat_cap(seq_sum(psv@.take(n as int), f)) as nat,
            decreases prs@.len() - n,
        {
            let ghost prefix = psv@.take(n as int);
            let c: u64 = *prs[n].1;
            let term: u128 = c as u128;
            proof {
                assert(term == f(psv@[n as int].0, psv@[n as int].1));
            }
            acc = add_capped(acc, term);
            proof {
                let t1 = psv@.take(n + 1 as int);
                assert(t1.drop_last() =~= prefix);
                assert(t1.last() == psv@[n as int]);
                assert(seq_sum(t1, f) == seq_sum(prefix, f) + f(psv@[n as int].0, psv@[n as int].1));
            }
            n += 1;
        }
        proof {
            assert(psv@.take(psv@.len() as int) =~= psv@);
            self.lemma_wf_facts();
            lemma_seq_sum_is_map_sum(psv@, self@, f);
        }
        acc
    }
}


/// The encoding of one (word, count) pair: the word, then its 8-byte count.
pub open spec fn encode_pair(p: (Seq<char>, u64)) -> Seq<u8> {
    encode_str(p.0) + encode_u64(p.1)
}

/// The concatenated encodings of a pair sequence.
pub open spec fn encode_pairs(ps: Seq<(Seq<char>, u64)>) -> Seq<u8>
    decreases ps.len(),
{
    if ps.len() == 0 {
        Seq::empty()
    } else {
        encode_pairs(ps.drop_last()) + encode_pair(ps.last())
    }
}

/// The encoding of a whole model: `[total_word_count:8][pair_count:8]`, then
/// the pairs.
pub open spec fn encode_table(wc: u64, ps: Seq<(Seq<char>, u64)>) -> Seq<u8> {
    encode_u64(wc) + encode_u64(ps.len() as u64) + encode_pairs(ps)
}

/// The `n` pairs decoded in sequence from `pos`.
pub open spec fn decode_pairs_at(bytes: Seq<u8>, pos: int, n: nat) -> Option<
    (Seq<(Seq<char>, u64)>, int),
>
    decreases n,
{
    if n == 0 {
        Some((Seq::empty(), pos))
    } else {
        match decode_str_at(bytes, pos) {
            None => None,
            Some((w, p1)) => if p1 + 8 <= bytes.len() {
                let c = decode_u64_at(bytes, p1);
                match decode_pairs_at(bytes, p1 + 8, (n - 1) as nat) {
                    None => None,
                    Some((rest, end)) => Some((seq![(w, c)] + rest, end)),
                }
            } else {
                None
            },
        }
    }
}

/// A pair sequence's encoding splits at its first pair.
proof fn lemma_encode_pairs_first(ps: Seq<(Seq<char>, u64)>)
    requires
        ps.len() > 0,
    ensures
        encode_pairs(ps) == encode_pair(ps[0]) + encode_pairs(ps.drop_first()),
    decreases ps.len(),
{
    if ps.len() == 1 {
        assert(ps.drop_last() =~= Seq::<(Seq<char>, u64)>::empty());
        assert(ps.drop_first() =~= Seq::<(Seq<char>, u64)>::empty());
        assert(ps.last() == ps[0]);
        assert(encode_pairs(ps) =~= encode_pair(ps[0]) + encode_pairs(ps.drop_first()));
    } else {
        lemma_encode_pairs_first(ps.drop_last());
        assert(ps.drop_last()[0] == ps[0]);
        assert(ps.drop_first().drop_last() =~= ps.drop_last().drop_first());
        assert(ps.drop_first().last() == ps.last());
        assert(encode_pairs(ps.drop_first()) == encode_pairs(ps.drop_first().drop_last())
            + encode_pair(ps.last()));
        assert(encode_pairs(ps) =~= encode_pair(ps[0]) + encode_pairs(ps.drop_first()));
    }
}

/// Decoding a pair sequence from where one was written returns the written
/// pairs, provided each word's byte length fits its 8-byte length field.
proof fn lemma_pairs_round_trip(a: Seq<u8>, ps: Seq<(Seq<char>, u64)>, b: Seq<u8>)
    requires
        forall|n: int|
            0 <= n < ps.len() ==> vstd::utf8::encode_utf8((#[trigger] ps[n]).0).len()
                < 0x1_0000_0000_0000_0000,
    ensures
        decode_pairs_at(a + encode_pairs(ps) + b, a.len() as int, ps.len() as nat) == Some(
            (ps, a.len() as int + encode_pairs(ps).len()),
        ),
    decreases ps.len(),
{
    let bytes = a + encode_pairs(ps) + b;
    let pos = a.len() as int;
    vstd::bytes::lemma_auto_spec_u64_to_from_le_bytes();
    if ps.len() == 0 {
        assert(encode_pairs(ps) =~= Seq::<u8>::empty());
    } else {
        lemma_encode_pairs_first(ps);
        let e0 = encode_str(ps[0].0);
        let e1 = encode_u64(ps[0].1);
        let rest = encode_pairs(ps.drop_first());
        assert(a + e0 + (e1 + rest + b) =~= bytes);
        lemma_str_round_trip(a, ps[0].0, e1 + rest + b);
        let p1 = pos + e0.len() as int;
        assert(decode_str_at(bytes, pos) == Some((ps[0].0, p1)));
        lemma_u64_round_trip(a + e0, ps[0].1, rest + b);
        assert(a + e0 + e1 + (rest + b) =~= bytes);
        assert((a + e0).len() == p1);
        assert(decode_u64_at(bytes, p1) == ps[0].1);
        lemma_pairs_round_trip(a + e0 + e1, ps.drop_first(), b);
        assert(a + e0 + e1 + rest + b =~= bytes);
        assert((a + e0 + e1).len() == p1 + 8);
        assert(decode_pairs_at(bytes, p1 + 8, ps.drop_first().len() as nat) == Some(
            (ps.drop_first(), p1 + 8 + rest.len()),
        ));
        assert(seq![(ps[0].0, ps[0].1)] + ps.drop_first() =~= ps);
        assert(pos + encode_pairs(ps).len() == p1 + 8 + rest.len());
    }
}

/// Round trip: what `serialize` wrote, `deserialize` reads back with the
/// same word-to-count pairs and the same total word count, whatever order
/// the pairs were written in.
pub proof fn lemma_table_round_trip(a: Seq<u8>, wc: u64, ps: Seq<(Seq<char>, u64)>, b: Seq<u8>)
    requires
        forall|n: int|
            0 <= n < ps.len() ==> vstd::utf8::encode_utf8((#[trigger] ps[n]).0).len()
                < 0x1_0000_0000_0000_0000,
        ps.len() < 0x1_0000_0000_0000_0000,
    ensures
        decode_u64_at(a + encode_table(wc, ps) + b, a.len() as int) == wc,
        decode_u64_at(a + encode_table(wc, ps) + b, a.len() as int + 8) == ps.len() as u64,
        decode_pairs_at(a + encode_table(wc, ps) + b, a.len() as int + 16, ps.len() as nat)
            == Some((ps, a.len() as int + encode_table(wc, ps).len())),
{
    let bytes = a + encode_table(wc, ps) + b;
    let pos = a.len() as int;
    vstd::bytes::lemma_auto_spec_u64_to_from_le_bytes();
    let e0 = encode_u64(wc);
    let e1 = encode_u64(ps.len() as u64);
    let rest = encode_pairs(ps);
    lemma_u64_round_trip(a, wc, e1 + rest + b);
    assert(a + e0 + (e1 + rest + b) =~= bytes);
    lemma_u64_round_trip(a + e0, ps.len() as u64, rest + b);
    assert(a + e0 + e1 + (rest + b) =~= bytes);
    assert((a + e0).len() == pos + 8);
    lemma_pairs_round_trip(a + e0 + e1, ps, b);
    assert(a + e0 + e1 + rest + b =~= bytes);
    assert((a + e0 + e1).len() == pos + 16);
}

/// A value clamped at the largest 64-bit value.
pub open spec fn sat64(n: nat) -> nat {
    if n > u64::MAX {
        u64::MAX as nat
    } else {
        n
    }
}

/// The bytes one pair contributes to the reported serialized size.
pub open spec fn size_term_fn() -> spec_fn(Seq<char>, u64) -> nat {
    |w: Seq<char>, c: u64| 16 + (vstd::utf8::encode_utf8(w).len() as usize) as nat
}

/// The decimal digit characters.
pub open spec fn digit_char(d: nat) -> char {
    if d == 0 {
        '0'
    } else if d == 1 {
        '1'
    } else if d == 2 {
        '2'
    } else if d == 3 {
        '3'
    } else if d == 4 {
        '4'
    } else if d == 5 {
        '5'
    } else if d == 6 {
        '6'
    } else if d == 7 {
        '7'
    } else if d == 8 {
        '8'
    } else {
        '9'
    }
}

/// The decimal digits of a number, most significant first.
pub open spec fn dec_str(n: nat) -> Seq<char>
    decreases n,
{
    if n < 10 {
        seq![digit_char(n)]
    } else {
        dec_str(n / 10).push(digit_char(n % 10))
    }
}

/// One decimal digit as a character.
fn digit_of(d: u64) -> (c: char)
    requires
        d < 10,
    ensures
        c == digit_char(d as nat),
{
    if d == 0 {
        '0'
    } else if d == 1 {
        '1'
    } else if d == 2 {
        '2'
    } else if d == 3 {
        '3'
    } else if d == 4 {
        '4'
    } else if d == 5 {
        '5'
    } else if d == 6 {
        '6'
    } else if d == 7 {
        '7'
    } else if d == 8 {
        '8'
    } else {
        '9'
    }
}

/// The decimal rendering of a number.
pub fn u64_to_string(n: u64) -> (r: String)
    ensures
        r@ == dec_str(n as nat),
    decreases n,
{
    if n < 10 {
        let mut s = String::new();
        crate::text::push_char(&mut s, digit_of(n));
        proof {
            assert(s@ =~= dec_str(n as nat));
        }
        s
    } else {
        let mut s = u64_to_string(n / 10);
        crate::text::push_char(&mut s, digit_of(n % 10));
        s
    }
}

/// One line of the ranking: the count, an `x`, a dash (with one extra
/// padding space for counts below 10, for visual alignment), and the word.
pub open spec fn line_of(c: u64, w: Seq<char>) -> Seq<char> {
    dec_str(c as nat) + (if c >= 10 {
        "x - "@
    } else {
        "x  - "@
    }) + w
}

/// Round trip: deserializing what `serialize` wrote yields a model with the
/// same key set and the same per-key count for every key — in fact the same
/// mapping — and the same total word count, whatever order the pairs were
/// written in.
pub proof fn lemma_model_round_trip(
    a: Seq<u8>,
    wc: u64,
    ps: Seq<(Seq<char>, u64)>,
    b: Seq<u8>,
    m: Map<Seq<char>, u64>,
)
    requires
        enumerates(ps, m),
        forall|n: int|
            0 <= n < ps.len() ==> vstd::utf8::encode_utf8((#[trigger] ps[n]).0).len()
                < 0x1_0000_0000_0000_0000,
        ps.len() < 0x1_0000_0000_0000_0000,
    ensures
        decode_u64_at(a + encode_table(wc, ps) + b, a.len() as int) == wc,
        decode_u64_at(a + encode_table(wc, ps) + b, a.len() as int + 8) == ps.len() as u64,
        decode_pairs_at(a + encode_table(wc, ps) + b, a.len() as int + 16, ps.len() as nat)
            == Some((ps, a.len() as int + encode_table(wc, ps).len())),
        insert_all(Map::<Seq<char>, u64>::empty(), ps) == m,
{
    lemma_table_round_trip(a, wc, ps, b);
    lemma_insert_all_rebuilds(ps, m);
}

/// The exact product of two 64-bit counts, which always fits in 128 bits.
fn mul_u64(a: u64, b: u64) -> (r: u128)
    ensures
        r == a * b,
{
    proof {
        assert((a as u128) * (b as u128) <= u128::MAX) by (nonlinear_arith)
            requires a <= u64::MAX, b <= u64::MAX,;
    }
    (a as u128) * (b as u128)
}

/// Adds a term to a clamped accumulator, staying clamped.
fn add_capped(acc: u64, term: u128) -> (r: u64)
    requires
        acc <= SIM_CAP,
    ensures
        r as nat == sat_cap(acc as nat + term as nat) as nat,
        r <= SIM_CAP,
{
    if term > (SIM_CAP - acc) as u128 {
        SIM_CAP
    } else {
        acc + (term as u64)
    }
}

/// A model's dot product with itself is exactly its squared norm; so the
/// cosine similarity of a model with itself, `dot / (norm * norm)`, is 1
/// whenever the norm is not 0.
pub proof fn lemma_self_dot_is_norm_sq(m: Map<Seq<char>, u64>)
    requires
        m.dom().finite(),
    ensures
        dot_model(m, m) == norm_sq_model(m),
{
    lemma_map_sum_congruence(m, dot_term_fn(m), norm_term_fn());
}

/// Models with no shared vocabulary have dot product 0; so their cosine
/// similarity is 0.
pub proof fn lemma_disjoint_dot_zero(ma: Map<Seq<char>, u64>, mb: Map<Seq<char>, u64>)
    requires
        ma.dom().finite(),
        ma.dom().disjoint(mb.dom()),
    ensures
        dot_model(ma, mb) == 0,
{
    assert(forall|w: Seq<char>| #[trigger] ma.dom().contains(w) ==> !mb.dom().contains(w));
    lemma_map_sum_zero(ma, dot_term_fn(mb));
}


} // verus!
