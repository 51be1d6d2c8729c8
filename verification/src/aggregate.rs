//! Grouping of directed sentiment observations into undirected pair statistics.
//!
//! Each observation carries a sender, a receiver and a sentiment value in
//! milli-units (thousandths). Observations are grouped by their canonical
//! address pair; for every pair seen at least once the aggregator keeps the
//! number of observations and their sentiment total, and reports the
//! truncated mean on demand.

use vstd::prelude::*;

verus! {

use vstd::pervasive::VecAdditionalExecFns;
use crate::pairkey::{pair_key, PairKey};
use crate::strcmp::lex_le;

/// Largest sentiment magnitude, in milli-units, that one observation may carry.
pub const MAX_ABS_SENTIMENT_MILLI: i64 = 100_000;

/// The mathematical content of one observation.
pub struct ObsView {
    pub sender: Seq<char>,
    pub receiver: Seq<char>,
    pub sentiment_milli: int,
}

/// The canonical pair key of an observation.
pub open spec fn obs_key(o: ObsView) -> (Seq<char>, Seq<char>) {
    pair_key(o.sender, o.receiver)
}

/// Folds one observation into a per-key (count, sentiment total) map.
pub open spec fn agg_step(
    m: Map<(Seq<char>, Seq<char>), (nat, int)>,
    o: ObsView,
) -> Map<(Seq<char>, Seq<char>), (nat, int)> {
    let k = obs_key(o);
    if m.dom().contains(k) {
        m.insert(k, ((m[k].0 + 1) as nat, m[k].1 + o.sentiment_milli))
    } else {
        m.insert(k, (1nat, o.sentiment_milli))
    }
}

/// The per-key (count, sentiment total) map of a whole observation sequence.
pub open spec fn agg_map(obs: Seq<ObsView>) -> Map<(Seq<char>, Seq<char>), (nat, int)>
    decreases obs.len(),
{
    if obs.len() == 0 {
        Map::empty()
    } else {
        agg_step(agg_map(obs.drop_last()), obs.last())
    }
}

/// How many observations of `obs` fall under the key `k`.
pub open spec fn key_count(obs: Seq<ObsView>, k: (Seq<char>, Seq<char>)) -> nat
    decreases obs.len(),
{
    if obs.len() == 0 {
        0
    } else {
        key_count(obs.drop_last(), k) + if obs_key(obs.last()) == k {
            1nat
        } else {
            0nat
        }
    }
}

/// The sentiment total of the observations of `obs` under the key `k`.
pub open spec fn key_total(obs: Seq<ObsView>, k: (Seq<char>, Seq<char>)) -> int
    decreases obs.len(),
{
    if obs.len() == 0 {
        0
    } else {
        key_total(obs.drop_last(), k) + if obs_key(obs.last()) == k {
            obs.last().sentiment_milli
        } else {
            0
        }
    }
}

/// Folding two observations into the map commutes.
proof fn lemma_agg_step_commutes(m: Map<(Seq<char>, Seq<char>), (nat, int)>, a: ObsView, b: ObsView)
    ensures
        agg_step(agg_step(m, a), b) == agg_step(agg_step(m, b), a),
{
    if obs_key(a) == obs_key(b) {
        assert(agg_step(agg_step(m, a), b) =~= agg_step(agg_step(m, b), a));
    } else {
        assert(agg_step(agg_step(m, a), b) =~= agg_step(agg_step(m, b), a));
    }
}

/// The map of a sequence folds any chosen element last.
proof fn lemma_agg_map_remove(obs: Seq<ObsView>, i: int)
    requires
        0 <= i < obs.len(),
    ensures
        agg_map(obs) == agg_step(agg_map(obs.remove(i)), obs[i]),
    decreases obs.len(),
{
    if i == obs.len() - 1 {
        assert(obs.remove(i) =~= obs.drop_last());
    } else {
        let t = obs.drop_last();
        lemma_agg_map_remove(t, i);
        lemma_agg_step_commutes(agg_map(t.remove(i)), t[i], obs.last());
        assert(obs.remove(i).drop_last() =~= t.remove(i));
        assert(obs.remove(i).last() == obs.last());
    }
}

/// Aggregation is order-independent: two observation sequences with the same
/// multiset of observations produce the same per-key statistics.
pub proof fn lemma_aggregation_commutes(s1: Seq<ObsView>, s2: Seq<ObsView>)
    requires
        s1.to_multiset() == s2.to_multiset(),
    ensures
        agg_map(s1) == agg_map(s2),
    decreases s1.len(),
{
    s1.to_multiset_ensures();
    s2.to_multiset_ensures();
    if s1.len() == 0 {
        assert(s2.to_multiset().len() == 0);
        assert(s2.len() == 0);
    } else {
        let o = s1.last();
        assert(s1.contains(o));
        assert(s1.to_multiset().count(o) > 0);
        assert(s2.to_multiset().count(o) > 0);
        assert(s2.contains(o));
        let j = choose|j: int| 0 <= j < s2.len() && s2[j] == o;
        lemma_agg_map_remove(s1, s1.len() - 1);
        lemma_agg_map_remove(s2, j);
        assert(s1.remove(s1.len() - 1).to_multiset() =~= s1.to_multiset().remove(o));
        assert(s2.remove(j).to_multiset() =~= s2.to_multiset().remove(o));
        lemma_aggregation_commutes(s1.remove(s1.len() - 1), s2.remove(j));
        assert(s1.remove(s1.len() - 1) =~= s1.drop_last());
    }
}

/// The per-key map records, for every key it holds, exactly the number of
/// matching observations and their sentiment total, and holds a key exactly
/// when some observation falls under it.
pub proof fn lemma_agg_map_counts(obs: Seq<ObsView>, k: (Seq<char>, Seq<char>))
    ensures
        agg_map(obs).dom().contains(k) <==> key_count(obs, k) > 0,
        agg_map(obs).dom().contains(k) ==> agg_map(obs)[k] == (key_count(obs, k), key_total(
            obs,
            k,
        )),
        key_count(obs, k) == 0 ==> key_total(obs, k) == 0,
    decreases obs.len(),
{
    if obs.len() > 0 {
        lemma_agg_map_counts(obs.drop_last(), k);
    }
}

/// Running statistics of one canonical pair.
pub struct PairStat {
    pub from: String,
    pub to: String,
    pub count: u32,
    pub total_milli: i64,
}

/// The key under which a statistics entry stands.
pub open spec fn stat_key(s: PairStat) -> (Seq<char>, Seq<char>) {
    (s.from@, s.to@)
}

/// The counts of a statistics sequence, summed.
pub open spec fn sum_counts(ss: Seq<PairStat>) -> nat
    decreases ss.len(),
{
    if ss.len() == 0 {
        0
    } else {
        sum_counts(ss.drop_last()) + ss.last().count as nat
    }
}

proof fn lemma_sum_counts_update(ss: Seq<PairStat>, i: int, e: PairStat)
    requires
        0 <= i < ss.len(),
    ensures
        sum_counts(ss.update(i, e)) == sum_counts(ss) - ss[i].count + e.count,
    decreases ss.len(),
{
    let upd = ss.update(i, e);
    if i == ss.len() - 1 {
        assert(upd.drop_last() =~= ss.drop_last());
        assert(upd.last() == e);
    } else {
        assert(upd.drop_last() =~= ss.drop_last().update(i, e));
        lemma_sum_counts_update(ss.drop_last(), i, e);
        assert(upd.last() == ss.last());
    }
}

proof fn lemma_sum_counts_push(ss: Seq<PairStat>, e: PairStat)
    ensures
        sum_counts(ss.push(e)) == sum_counts(ss) + e.count,
{
    assert(ss.push(e).drop_last() =~= ss);
}

/// Truncated mean of a sentiment total over a count, in milli-units.
pub open spec fn mean_milli(total: int, count: nat) -> int {
    if count == 0 {
        0
    } else if total >= 0 {
        total / count as int
    } else {
        -((-total) / count as int)
    }
}

/// One aggregated record: a canonical pair with its observation count,
/// sentiment total and truncated mean sentiment, all in milli-units.
pub struct AggregateRecord {
    pub from: String,
    pub to: String,
    pub email_count: u32,
    pub total_sentiment_milli: i64,
    pub mean_sentiment_milli: i64,
}

/// The mathematical content of an aggregated record.
pub struct RecView {
    pub from: Seq<char>,
    pub to: Seq<char>,
    pub email_count: nat,
    pub total_sentiment_milli: int,
    pub mean_sentiment_milli: int,
}

impl View for AggregateRecord {
    type V = RecView;

    open spec fn view(&self) -> RecView {
        RecView {
            from: self.from@,
            to: self.to@,
            email_count: self.email_count as nat,
            total_sentiment_milli: self.total_sentiment_milli as int,
            mean_sentiment_milli: self.mean_sentiment_milli as int,
        }
    }
}

/// The record a statistics entry freezes into.
pub open spec fn rec_of_stat(s: PairStat) -> RecView {
    RecView {
        from: s.from@,
        to: s.to@,
        email_count: s.count as nat,
        total_sentiment_milli: s.total_milli as int,
        mean_sentiment_milli: mean_milli(s.total_milli as int, s.count as nat),
    }
}

/// The records that finalizing a statistics sequence produces, in order.
pub open spec fn spec_finalize(ss: Seq<PairStat>) -> Seq<RecView> {
    Seq::new(ss.len(), |i: int| rec_of_stat(ss[i]))
}

/// Groups observations by canonical pair and keeps running statistics.
///
/// The ghost `hist` field carries every observation recorded so far; the
/// well-formedness invariant ties the executable statistics to the
/// mathematical aggregation of that history.
pub struct Aggregator {
    pub stats: Vec<PairStat>,
    pub hist: Ghost<Seq<ObsView>>,
    pub frozen: bool,
}

impl Aggregator {
    /// The statistics agree with the aggregation of the recorded history.
    pub open spec fn wf(&self) -> bool {
        let m = agg_map(self.hist@);
        &&& forall|i: int|
            0 <= i < self.stats@.len() ==> lex_le(
                #[trigger] self.stats@[i].from@,
                self.stats@[i].to@,
            )
        &&& forall|i: int, j: int|
            0 <= i < self.stats@.len() && 0 <= j < self.stats@.len() && i != j ==> stat_key(
                #[trigger] self.stats@[i],
            ) != stat_key(#[trigger] self.stats@[j])
        &&& forall|i: int|
            0 <= i < self.stats@.len() ==> m.dom().contains(stat_key(#[trigger] self.stats@[i]))
                && m[stat_key(self.stats@[i])] == (
            self.stats@[i].count as nat,
            self.stats@[i].total_milli as int,
            )
        &&& forall|k: (Seq<char>, Seq<char>)|
            m.dom().contains(k) ==> exists|i: int|
                0 <= i < self.stats@.len() && stat_key(#[trigger] self.stats@[i]) == k
        &&& sum_counts(self.stats@) == self.hist@.len()
        &&& forall|i: int|
            0 <= i < self.stats@.len() ==> 1 <= #[trigger] self.stats@[i].count
                <= self.hist@.len()
        &&& forall|i: int|
            0 <= i < self.stats@.len() ==> -(self.stats@[i].count as int)
                * MAX_ABS_SENTIMENT_MILLI <= #[trigger] self.stats@[i].total_milli as int <= (
            self.stats@[i].count as int) * MAX_ABS_SENTIMENT_MILLI
    }

    /// An aggregator with no observations.
    pub fn new() -> (r: Aggregator)
        ensures
            r.wf(),
            r.hist@.len() == 0,
            !r.frozen,
    {
        Aggregator { stats: Vec::new(), hist: Ghost(Seq::empty()), frozen: false }
    }

    /// Records one observation under its canonical pair key.
    ///
    /// The sentiment must lie within the supported milli-unit range, and the
    /// aggregator must not have been finalized yet.
    #[verifier::loop_isolation(false)]
    pub fn add_observation(
        &mut self,
        sender: String,
        receiver: String,
        sentiment_milli: i64,
    )
        requires
            old(self).wf(),
            !old(self).frozen,
            old(self).hist@.len() < u32::MAX,
            -MAX_ABS_SENTIMENT_MILLI <= sentiment_milli <= MAX_ABS_SENTIMENT_MILLI,
        ensures
            final(self).wf(),
            !final(self).frozen,
            final(self).hist@ == old(self).hist@.push(
                ObsView {
                    sender: sender@,
                    receiver: receiver@,
                    sentiment_milli: sentiment_milli as int,
                },
            ),
    {
        let ghost o = ObsView {
            sender: sender@,
            receiver: receiver@,
            sentiment_milli: sentiment_milli as int,
        };
        let key = PairKey::new(sender, receiver);
        let ghost prev = self.hist@;
        let ghost m = agg_map(prev);
        proof {
            assert(prev.push(o).drop_last() =~= prev);
            assert(agg_map(prev.push(o)) == agg_step(m, o));
            assert(obs_key(o) == (key.lo@, key.hi@));
        }
        self.hist = Ghost(prev.push(o));

        let n = self.stats.len();
        let mut i: usize = 0;
        while i < n
            invariant
                n == self.stats@.len(),
                i <= n,
                self.stats@ == old(self).stats@,
                self.hist@ == prev.push(o),
                self.frozen == old(self).frozen,
                forall|j: int| 0 <= j < i ==> stat_key(#[trigger] self.stats@[j]) != (key.lo@, key.hi@),
            decreases n - i,
        {
            if self.stats[i].from == key.lo && self.stats[i].to == key.hi {
                proof {
                    let s = old(self).stats@;
                    assert(stat_key(s[i as int]) == (key.lo@, key.hi@));
                    assert(m.dom().contains(stat_key(s[i as int])));
                    assert(s[i as int].count < u32::MAX);
                }
                let e = PairStat {
                    from: key.lo,
                    to: key.hi,
                    count: self.stats[i].count + 1,
                    total_milli: self.stats[i].total_milli + sentiment_milli,
                };
                self.stats.set(i, e);
                proof {
                    let s = old(self).stats@;
                    let s2 = self.stats@;
                    lemma_sum_counts_update(s, i as int, s2[i as int]);
                    assert forall|k: (Seq<char>, Seq<char>)|
                        agg_map(self.hist@).dom().contains(k) implies exists|j: int|
                        0 <= j < s2.len() && stat_key(#[trigger] s2[j]) == k by {
                        if k == (key.lo@, key.hi@) {
                            assert(stat_key(s2[i as int]) == k);
                        } else {
                            assert(m.dom().contains(k));
                            let j = choose|j: int| 0 <= j < s.len() && stat_key(s[j]) == k;
                            assert(stat_key(s2[j]) == k);
                        }
                    }
                }
                return ;
            }
            i = i + 1;
        }
        let e = PairStat {
            from: key.lo,
            to: key.hi,
            count: 1,
            total_milli: sentiment_milli,
        };
        proof {
            let s = old(self).stats@;
            assert(!m.dom().contains((key.lo@, key.hi@))) by {
                if m.dom().contains((key.lo@, key.hi@)) {
                    let j = choose|j: int| 0 <= j < s.len() && stat_key(s[j]) == (key.lo@, key.hi@);
                }
            }
        }
        self.stats.push(e);
        proof {
            let s = old(self).stats@;
            let s2 = self.stats@;
            lemma_sum_counts_push(s, s2[s.len() as int]);
            assert forall|k: (Seq<char>, Seq<char>)|
                agg_map(self.hist@).dom().contains(k) implies exists|j: int|
                0 <= j < s2.len() && stat_key(#[trigger] s2[j]) == k by {
                if k == (key.lo@, key.hi@) {
                    assert(stat_key(s2[s.len() as int]) == k);
                } else {
                    assert(m.dom().contains(k));
                    let j = choose|j: int| 0 <= j < s.len() && stat_key(s[j]) == k;
                    assert(stat_key(s2[j]) == k);
                }
            }
        }
    }

    /// Freezes the aggregation and reports one record per observed pair.
    ///
    /// The statistics are left untouched, so repeated calls return identical
    /// records; after the first call no further observation can be recorded.
    pub fn finalize(&mut self) -> (r: Vec<AggregateRecord>)
        requires
            old(self).wf(),
        ensures
            final(self).wf(),
            final(self).stats@ == old(self).stats@,
            final(self).hist@ == old(self).hist@,
            final(self).frozen,
            r@.len() == old(self).stats@.len(),
            forall|i: int| 0 <= i < r@.len() ==> #[trigger] r@[i]@ == spec_finalize(old(self).stats@)[i],
    {
        self.frozen = true;
        let mut out: Vec<AggregateRecord> = Vec::new();
        let n = self.stats.len();
        let mut i: usize = 0;
        while i < n
            invariant
                n == self.stats@.len(),
                self.stats@ == old(self).stats@,
                i <= n,
                out@.len() == i,
                forall|j: int|
                    0 <= j < i ==> #[trigger] out@[j]@ == spec_finalize(self.stats@)[j],
                forall|j: int|
                    0 <= j < self.stats@.len() ==> 1 <= #[trigger] self.stats@[j].count,
                forall|j: int|
                    0 <= j < self.stats@.len() ==> -(self.stats@[j].count as int)
                        * MAX_ABS_SENTIMENT_MILLI <= #[trigger] self.stats@[j].total_milli as int
                        <= (self.stats@[j].count as int) * MAX_ABS_SENTIMENT_MILLI,
            decreases n - i,
        {
            let s = &self.stats[i];
            let mean = mean_of(s.total_milli, s.count);
            let rec = AggregateRecord {
                from: s.from.clone(),
                to: s.to.clone(),
                email_count: s.count,
                total_sentiment_milli: s.total_milli,
                mean_sentiment_milli: mean,
            };
            out.push(rec);
            i = i + 1;
        }
        out
    }
}

/// Computes the truncated mean of a sentiment total, in milli-units.
fn mean_of(total: i64, count: u32) -> (r: i64)
    requires
        count >= 1,
        -(count as int) * MAX_ABS_SENTIMENT_MILLI <= total as int <= (count as int)
            * MAX_ABS_SENTIMENT_MILLI,
    ensures
        r == mean_milli(total as int, count as nat),
{
    if total >= 0 {
        let q = (total as u64) / (count as u64);
        proof {
            vstd::arithmetic::div_mod::lemma_div_nonincreasing(total as int, count as int);
        }
        q as i64
    } else {
        let mag = (-total) as u64;
        let q = mag / (count as u64);
        proof {
            vstd::arithmetic::div_mod::lemma_div_nonincreasing(mag as int, count as int);
        }
        -(q as i64)
    }
}

/// Finalizing does not change the statistics it reads, so a second call
/// returns the same records as the first.
pub proof fn lemma_finalize_idempotent(first: Aggregator, second: Aggregator)
    requires
        second.stats@ == first.stats@,
    ensures
        spec_finalize(second.stats@) == spec_finalize(first.stats@),
{
}

/// The observation counts of a record sequence, summed.
pub open spec fn sum_record_counts(rs: Seq<RecView>) -> nat
    decreases rs.len(),
{
    if rs.len() == 0 {
        0
    } else {
        sum_record_counts(rs.drop_last()) + rs.last().email_count
    }
}

proof fn lemma_sum_record_counts_finalize(ss: Seq<PairStat>)
    ensures
        sum_record_counts(spec_finalize(ss)) == sum_counts(ss),
    decreases ss.len(),
{
    if ss.len() > 0 {
        assert(spec_finalize(ss).drop_last() =~= spec_finalize(ss.drop_last()));
        lemma_sum_record_counts_finalize(ss.drop_last());
        assert(spec_finalize(ss).last() == rec_of_stat(ss.last()));
    }
}

/// Every pair's statistics count exactly its observations and total exactly
/// their sentiments, and the counts over all finalized records sum to the
/// number of observations recorded.
pub proof fn lemma_aggregate_totals(a: Aggregator, k: (Seq<char>, Seq<char>))
    requires
        a.wf(),
    ensures
        sum_counts(a.stats@) == a.hist@.len(),
        sum_record_counts(spec_finalize(a.stats@)) == a.hist@.len(),
        forall|i: int|
            0 <= i < a.stats@.len() && stat_key(#[trigger] a.stats@[i]) == k ==> a.stats@[i].count
                == key_count(a.hist@, k) && a.stats@[i].total_milli == key_total(a.hist@, k),
        key_count(a.hist@, k) > 0 ==> exists|i: int|
            0 <= i < a.stats@.len() && stat_key(#[trigger] a.stats@[i]) == k,
{
    lemma_agg_map_counts(a.hist@, k);
    lemma_sum_record_counts_finalize(a.stats@);
}

/// Aggregators fed the same observations in any order report, for every pair
/// either of them knows, the identical record; with the roles of the two
/// swapped this covers both directions, so the sets of records agree.
pub proof fn lemma_permutation_same_records(a: Aggregator, b: Aggregator)
    requires
        a.wf(),
        b.wf(),
        a.hist@.to_multiset() == b.hist@.to_multiset(),
    ensures
        forall|i: int|
            0 <= i < a.stats@.len() ==> exists|j: int|
                0 <= j < b.stats@.len() && rec_of_stat(#[trigger] b.stats@[j]) == rec_of_stat(
                    #[trigger] a.stats@[i],
                ),
{
    lemma_aggregation_commutes(a.hist@, b.hist@);
    let ma = agg_map(a.hist@);
    assert forall|i: int| 0 <= i < a.stats@.len() implies exists|j: int|
        0 <= j < b.stats@.len() && rec_of_stat(#[trigger] b.stats@[j]) == rec_of_stat(
            #[trigger] a.stats@[i],
        ) by {
        let k = stat_key(a.stats@[i]);
        assert(ma.dom().contains(k));
        let j = choose|j: int| 0 <= j < b.stats@.len() && stat_key(#[trigger] b.stats@[j]) == k;
        assert(agg_map(b.hist@)[k] == (b.stats@[j].count as nat, b.stats@[j].total_milli as int));
        assert(rec_of_stat(b.stats@[j]) == rec_of_stat(a.stats@[i]));
    }
}

} // verus!
