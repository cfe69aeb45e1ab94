//! The transposition table: playout statistics filed under position keys,
//! combined by addition.

use crate::stats::Stats;
use crate::strategies::playout::Snapshot;
use std::collections::HashMap;
use vstd::prelude::*;

verus! {

broadcast use vstd::std_specs::hash::group_hash_axioms;

/// The counters filed under `key`, zero where nothing is filed.
pub open spec fn counts_of(m: Map<u128, Stats>, key: u128) -> (int, int, int) {
    if m.dom().contains(key) {
        m[key].counts()
    } else {
        (0, 0, 0)
    }
}

/// The sum of the deltas that `batch` holds for `key`.
pub open spec fn tally(batch: Seq<(u128, Stats)>, key: u128) -> (int, int, int)
    decreases batch.len(),
{
    if batch.len() == 0 {
        (0, 0, 0)
    } else {
        let rest = tally(batch.drop_last(), key);
        if batch.last().0 == key {
            (
                rest.0 + batch.last().1.wins,
                rest.1 + batch.last().1.losses,
                rest.2 + batch.last().1.visits,
            )
        } else {
            rest
        }
    }
}

/// The visits that `batch` holds, over all keys.
pub open spec fn total_visits(batch: Seq<(u128, Stats)>) -> int
    decreases batch.len(),
{
    if batch.len() == 0 {
        0
    } else {
        total_visits(batch.drop_last()) + batch.last().1.visits
    }
}

/// Every delta of the batch is well-formed.
pub open spec fn batch_wf(batch: Seq<(u128, Stats)>) -> bool {
    forall|i: int| 0 <= i < batch.len() ==> (#[trigger] batch[i]).1.wf()
}

/// `key` occurs in the batch.
pub open spec fn mentions(batch: Seq<(u128, Stats)>, key: u128) -> bool {
    exists|i: int| 0 <= i < batch.len() && (#[trigger] batch[i]).0 == key
}

/// The counters of `key` in `after` are those in `before` plus what the
/// batch holds for the key.
pub open spec fn grown_by(
    before: Map<u128, Stats>,
    batch: Seq<(u128, Stats)>,
    after: Map<u128, Stats>,
    key: u128,
) -> bool {
    counts_of(after, key) == (
        counts_of(before, key).0 + tally(batch, key).0,
        counts_of(before, key).1 + tally(batch, key).1,
        counts_of(before, key).2 + tally(batch, key).2,
    )
}

/// The keys of `after` are those of `before` and of the batch.
pub open spec fn keys_joined(
    before: Map<u128, Stats>,
    batch: Seq<(u128, Stats)>,
    after: Map<u128, Stats>,
    key: u128,
) -> bool {
    after.dom().contains(key) <==> before.dom().contains(key) || mentions(batch, key)
}

/// `after` is `before` with `batch` added: per key the counters grew by the
/// tally of the batch, and the keys are those of `before` and of the batch.
pub open spec fn is_merge(
    before: Map<u128, Stats>,
    batch: Seq<(u128, Stats)>,
    after: Map<u128, Stats>,
) -> bool {
    &&& forall|key: u128| #[trigger] keys_joined(before, batch, after, key)
    &&& forall|key: u128| #[trigger] grown_by(before, batch, after, key)
}

/// What `merge` does to a table: it takes the whole batch in where the
/// visits still fit the count of the table, and leaves the table as it is
/// where they do not.
pub open spec fn merged_or_refused(
    before: StatsTable,
    batch: Seq<(u128, Stats)>,
    after: StatsTable,
) -> bool {
    if before.absorbed() + total_visits(batch) <= usize::MAX {
        is_merge(before@, batch, after@) && after.absorbed() == before.absorbed() + total_visits(
            batch,
        )
    } else {
        after@ == before@ && after.absorbed() == before.absorbed()
    }
}

/// Two tables hold the same records and have taken in as many visits.
pub open spec fn same_table(a: StatsTable, b: StatsTable) -> bool {
    a@ == b@ && a.absorbed() == b.absorbed()
}

/// What a table is after a batch was offered to it is determined by the
/// table and the batch.
pub proof fn lemma_merge_is_determined(
    before_a: StatsTable,
    before_b: StatsTable,
    batch: Seq<(u128, Stats)>,
    after_a: StatsTable,
    after_b: StatsTable,
)
    requires
        merged_or_refused(before_a, batch, after_a),
        merged_or_refused(before_b, batch, after_b),
        same_table(before_a, before_b),
    ensures
        same_table(after_a, after_b),
{
    if before_a.absorbed() + total_visits(batch) <= usize::MAX {
        assert forall|k: u128| after_a@.dom().contains(k) == after_b@.dom().contains(k) by {
            assert(keys_joined(before_a@, batch, after_a@, k));
            assert(keys_joined(before_b@, batch, after_b@, k));
        }
        assert forall|k: u128| after_a@.dom().contains(k) implies after_a@[k] == after_b@[k] by {
            assert(grown_by(before_a@, batch, after_a@, k));
            assert(grown_by(before_b@, batch, after_b@, k));
            assert(after_a@[k].counts() == after_b@[k].counts());
        }
        assert(after_a@ =~= after_b@);
    }
}

/// Table `k + 1` is table `k` after batch `k` was offered to it.
pub open spec fn is_link(
    tables: Seq<StatsTable>,
    batches: Seq<Seq<(u128, Stats)>>,
    k: int,
) -> bool {
    merged_or_refused(tables[k], batches[k], tables[k + 1])
}

/// `tables` are the states of a table that was offered `batches` one by
/// one: one state more than there are batches, each got from the one
/// before by merging the batch between them, or equal to it where the
/// batch did not fit.
pub open spec fn is_chain(tables: Seq<StatsTable>, batches: Seq<Seq<(u128, Stats)>>) -> bool {
    &&& tables.len() == batches.len() + 1
    &&& forall|k: int| 0 <= k < batches.len() ==> #[trigger] is_link(tables, batches, k)
}

/// The tally of two batches, one after the other, is the sum of their
/// tallies, and so is the number of their visits.
pub proof fn lemma_tally_concat(a: Seq<(u128, Stats)>, b: Seq<(u128, Stats)>, key: u128)
    ensures
        tally(a + b, key) == (
            tally(a, key).0 + tally(b, key).0,
            tally(a, key).1 + tally(b, key).1,
            tally(a, key).2 + tally(b, key).2,
        ),
        total_visits(a + b) == total_visits(a) + total_visits(b),
    decreases b.len(),
{
    if b.len() == 0 {
        assert(a + b =~= a);
    } else {
        lemma_tally_concat(a, b.drop_last(), key);
        assert((a + b).drop_last() =~= a + b.drop_last());
    }
}

/// A key that the batch does not mention has a tally of zero; no tally is
/// negative, and the visits of one key are among the visits of all.
pub proof fn lemma_tally_bounds(batch: Seq<(u128, Stats)>, key: u128)
    ensures
        !mentions(batch, key) ==> tally(batch, key) == (0int, 0int, 0int),
        tally(batch, key).0 >= 0,
        tally(batch, key).1 >= 0,
        0 <= tally(batch, key).2 <= total_visits(batch),
    decreases batch.len(),
{
    if batch.len() > 0 {
        lemma_tally_bounds(batch.drop_last(), key);
        if !mentions(batch, key) {
            assert(batch[batch.len() - 1].0 != key);
            assert forall|i: int| 0 <= i < batch.drop_last().len() implies (
            #[trigger] batch.drop_last()[i]).0 != key by {
                assert(batch[i].0 != key);
            }
        }
    }
}

/// The statistics of every position that a playout has passed, with a count
/// of all the visits taken in. The count keeps the counters within the
/// machine word: a delta that would take it beyond is refused.
pub struct StatsTable {
    map: HashMap<u128, Stats>,
    absorbed: usize,
}

impl View for StatsTable {
    type V = Map<u128, Stats>;

    closed spec fn view(&self) -> Map<u128, Stats> {
        self.map@
    }
}

impl StatsTable {
    /// The visits taken in so far.
    pub closed spec fn absorbed(&self) -> nat {
        self.absorbed as nat
    }

    /// Every record is well-formed and holds no more visits than the table
    /// has taken in, and that count fits a machine word.
    pub open spec fn wf(&self) -> bool {
        &&& self.absorbed() <= usize::MAX
        &&& forall|key: u128| #[trigger]
            self@.dom().contains(key) ==> self@[key].wf() && self@[key].visits <= self.absorbed()
    }

    pub fn new() -> (t: StatsTable)
        ensures
            t@ == Map::<u128, Stats>::empty(),
            t.absorbed() == 0,
            t.wf(),
    {
        StatsTable { map: HashMap::new(), absorbed: 0 }
    }

    /// The record filed under `key`.
    pub fn get(&self, key: u128) -> (s: Option<Stats>)
        ensures
            s == (if self@.dom().contains(key) {
                Some(self@[key])
            } else {
                None::<Stats>
            }),
    {
        match self.map.get(&key) {
            Some(s) => Some(*s),
            None => None,
        }
    }

    /// The number of positions on file.
    pub fn len(&self) -> (n: usize)
        ensures
            n == self@.len(),
    {
        self.map.len()
    }

    /// The visits taken in so far.
    pub fn visits_absorbed(&self) -> (n: usize)
        ensures
            n == self.absorbed(),
    {
        self.absorbed
    }

    /// Adds `delta` to the record of `key`, filing a new record where there
    /// is none. The delta is refused, and nothing changes, when the visits
    /// taken in would no longer fit a machine word.
    pub fn absorb(&mut self, key: u128, delta: Stats) -> (taken: bool)
        requires
            old(self).wf(),
            delta.wf(),
        ensures
            final(self).wf(),
            taken == (old(self).absorbed() + delta.visits <= usize::MAX),
            !taken ==> final(self)@ == old(self)@ && final(self).absorbed() == old(self).absorbed(),
            taken ==> final(self).absorbed() == old(self).absorbed() + delta.visits,
            taken ==> final(self)@.dom() == old(self)@.dom().insert(key),
            taken ==> forall|other: u128|
                other != key && old(self)@.dom().contains(other) ==> #[trigger] final(self)@[other]
                    == old(self)@[other],
            taken ==> final(self)@[key].counts() == (
                counts_of(old(self)@, key).0 + delta.wins,
                counts_of(old(self)@, key).1 + delta.losses,
                counts_of(old(self)@, key).2 + delta.visits,
            ),
    {
        if delta.visits > usize::MAX - self.absorbed {
            return false;
        }
        let current: Stats = match self.map.get(&key) {
            Some(s) => *s,
            None => Stats::zero(),
        };
        proof {
            if self@.dom().contains(key) {
                assert(current == self@[key]);
            }
            assert(current.wf() && current.visits <= self.absorbed());
        }
        let sum: Stats = current.add(delta);
        self.map.insert(key, sum);
        self.absorbed = self.absorbed + delta.visits;
        proof {
            assert forall|other: u128| #[trigger] self@.dom().contains(other) implies self@[other].wf()
                && self@[other].visits <= self.absorbed() by {
                if other != key {
                    assert(old(self)@.dom().contains(other));
                }
            }
        }
        true
    }

    /// Adds every delta of `batch`, in order. The whole batch is refused,
    /// and nothing changes, when its visits would take the count of the
    /// table beyond a machine word.
    pub fn merge(&mut self, batch: &Vec<(u128, Stats)>) -> (taken: bool)
        requires
            old(self).wf(),
            batch_wf(batch@),
        ensures
            final(self).wf(),
            taken == (old(self).absorbed() + total_visits(batch@) <= usize::MAX),
            !taken ==> final(self)@ == old(self)@ && final(self).absorbed() == old(self).absorbed(),
            taken ==> final(self).absorbed() == old(self).absorbed() + total_visits(batch@),
            taken ==> is_merge(old(self)@, batch@, final(self)@),
    {
        let mut total: usize = 0;
        let mut k: usize = 0;
        while k < batch.len()
            invariant
                k <= batch@.len(),
                total == total_visits(batch@.take(k as int)),
                old(self).absorbed() + total <= usize::MAX,
                *self == *old(self),
                self.wf(),
            decreases batch@.len() - k,
        {
            proof {
                assert(batch@.take(k + 1).drop_last() =~= batch@.take(k as int));
                lemma_visits_prefix(batch@, k + 1);
            }
            let visits: usize = batch[k].1.visits;
            if visits > usize::MAX - self.absorbed || total > usize::MAX - self.absorbed - visits {
                return false;
            }
            total = total + visits;
            k += 1;
        }
        proof {
            assert(batch@.take(k as int) =~= batch@);
        }
        let ghost start = self@;
        let mut j: usize = 0;
        while j < batch.len()
            invariant
                j <= batch@.len(),
                self.wf(),
                batch_wf(batch@),
                start == old(self)@,
                old(self).absorbed() + total_visits(batch@) <= usize::MAX,
                self.absorbed() == old(self).absorbed() + total_visits(batch@.take(j as int)),
                is_merge(start, batch@.take(j as int), self@),
            decreases batch@.len() - j,
        {
            let ghost before = self@;
            let ghost done = batch@.take(j as int);
            let ghost next = batch@.take(j + 1);
            proof {
                assert(next.drop_last() =~= done);
                assert(next.last() == batch@[j as int]);
                lemma_visits_prefix(batch@, j + 1);
            }
            let (key, delta) = batch[j];
            let taken = self.absorb(key, delta);
            proof {
                assert(taken);
                assert forall|other: u128| #[trigger] keys_joined(start, next, self@, other) by {
                    assert(keys_joined(start, done, before, other));
                    if mentions(done, other) {
                        let i = choose|i: int| 0 <= i < done.len() && (#[trigger] done[i]).0 == other;
                        assert(next[i].0 == other);
                    }
                    if other == key {
                        assert(next[j as int].0 == other);
                    }
                    if mentions(next, other) {
                        let i = choose|i: int| 0 <= i < next.len() && (#[trigger] next[i]).0 == other;
                        if i < j {
                            assert(done[i].0 == other);
                        }
                    }
                }
                assert forall|other: u128| #[trigger] grown_by(start, next, self@, other) by {
                    let t = tally(done, other);
                    assert(grown_by(start, done, before, other));
                    assert(keys_joined(start, done, before, other));
                    if other == key {
                        assert(tally(next, other) == (
                            t.0 + delta.wins,
                            t.1 + delta.losses,
                            t.2 + delta.visits,
                        ));
                    } else {
                        assert(tally(next, other) == t);
                        if before.dom().contains(other) {
                            assert(self@[other] == before[other]);
                        } else {
                            assert(!self@.dom().contains(other));
                        }
                    }
                }
                assert(is_merge(start, next, self@));
            }
            j += 1;
        }
        proof {
            assert(batch@.take(j as int) =~= batch@);
        }
        true
    }

    /// A copy of the table as it stands.
    pub fn snapshot(&self) -> (copy: StatsTable)
        ensures
            copy@ == self@,
            copy.absorbed() == self.absorbed(),
            copy.wf() == self.wf(),
    {
        let copy = StatsTable { map: self.map.clone(), absorbed: self.absorbed };
        proof {
            assert(copy@ == self@);
            assert(copy.absorbed() == self.absorbed());
            if self.wf() {
                assert forall|key: u128| #[trigger] copy@.dom().contains(key) implies copy@[key].wf()
                    && copy@[key].visits <= copy.absorbed() by {
                    assert(self@.dom().contains(key));
                }
            }
            if copy.wf() {
                assert forall|key: u128| #[trigger] self@.dom().contains(key) implies self@[key].wf()
                    && self@[key].visits <= self.absorbed() by {
                    assert(copy@.dom().contains(key));
                }
            }
        }
        copy
    }
}

impl Snapshot for StatsTable {
    /// A table in hand is read exactly.
    open spec fn exact(&self) -> bool {
        true
    }

    open spec fn view_stats(&self, key: u128) -> Option<Stats> {
        if self@.dom().contains(key) {
            Some(self@[key])
        } else {
            None
        }
    }

    fn stats(&self, key: u128) -> (s: Option<Stats>) {
        self.get(key)
    }
}

/// The visits of a prefix are among the visits of the whole batch.
pub proof fn lemma_visits_prefix(batch: Seq<(u128, Stats)>, n: int)
    requires
        0 <= n <= batch.len(),
    ensures
        0 <= total_visits(batch.take(n)) <= total_visits(batch),
    decreases batch.len() - n,
{
    if n < batch.len() {
        lemma_visits_prefix(batch, n + 1);
        lemma_visits_nonnegative(batch.take(n));
        assert(batch.take(n + 1).drop_last() =~= batch.take(n));
        assert(total_visits(batch.take(n + 1)) == total_visits(batch.take(n)) + batch.take(
            n + 1,
        ).last().1.visits);
    } else {
        assert(batch.take(n) =~= batch);
        lemma_visits_nonnegative(batch);
    }
}

pub proof fn lemma_visits_nonnegative(batch: Seq<(u128, Stats)>)
    ensures
        total_visits(batch) >= 0,
    decreases batch.len(),
{
    if batch.len() > 0 {
        lemma_visits_nonnegative(batch.drop_last());
    }
}

/// Once filed, a record never shrinks: after a merge every counter of every
/// key is at least what it was, and every record is still well-formed.
pub proof fn lemma_merge_monotone(
    before: Map<u128, Stats>,
    batch: Seq<(u128, Stats)>,
    after: Map<u128, Stats>,
    key: u128,
)
    requires
        is_merge(before, batch, after),
        before.dom().contains(key),
    ensures
        after.dom().contains(key),
        before[key].le(after[key]),
{
    lemma_tally_bounds(batch, key);
    assert(grown_by(before, batch, after, key));
    assert(keys_joined(before, batch, after, key));
}

/// The record of `k` is still there in `after` and has not shrunk.
pub open spec fn grew(before: Map<u128, Stats>, after: Map<u128, Stats>, k: u128) -> bool {
    after.dom().contains(k) && before[k].le(after[k])
}

/// No record of `before` is missing from `after` or smaller there.
pub open spec fn all_grew(before: Map<u128, Stats>, after: Map<u128, Stats>) -> bool {
    forall|k: u128| #[trigger] before.dom().contains(k) ==> grew(before, after, k)
}

/// Whether a table takes a batch in or refuses it, none of its records
/// shrinks.
pub proof fn lemma_merge_grows(before: StatsTable, batch: Seq<(u128, Stats)>, after: StatsTable)
    requires
        merged_or_refused(before, batch, after),
    ensures
        all_grew(before@, after@),
{
    assert forall|k: u128| #[trigger] before@.dom().contains(k) implies grew(before@, after@, k) by {
        if before.absorbed() + total_visits(batch) <= usize::MAX {
            lemma_merge_monotone(before@, batch, after@, k);
        }
    }
}

/// Two merges in a row are one merge of the two batches in a row.
pub proof fn lemma_merge_twice(
    before: Map<u128, Stats>,
    first: Seq<(u128, Stats)>,
    middle: Map<u128, Stats>,
    second: Seq<(u128, Stats)>,
    last: Map<u128, Stats>,
)
    requires
        is_merge(before, first, middle),
        is_merge(middle, second, last),
    ensures
        is_merge(before, first + second, last),
{
    let both = first + second;
    assert forall|k: u128| #[trigger] grown_by(before, both, last, k) by {
        lemma_tally_concat(first, second, k);
        assert(grown_by(before, first, middle, k));
        assert(grown_by(middle, second, last, k));
    }
    assert forall|k: u128| #[trigger] keys_joined(before, both, last, k) by {
        if mentions(first, k) {
            let i = choose|i: int| 0 <= i < first.len() && (#[trigger] first[i]).0 == k;
            assert(both[i].0 == k);
        }
        if mentions(second, k) {
            let i = choose|i: int| 0 <= i < second.len() && (#[trigger] second[i]).0 == k;
            assert(both[first.len() + i].0 == k);
        }
        if mentions(both, k) {
            let i = choose|i: int| 0 <= i < both.len() && (#[trigger] both[i]).0 == k;
            if i < first.len() {
                assert(first[i].0 == k);
            } else {
                assert(second[i - first.len()].0 == k);
            }
        }
        assert(keys_joined(before, first, middle, k));
        assert(keys_joined(middle, second, last, k));
    }
}

/// The batches one after the other, as one batch.
pub open spec fn flatten(batches: Seq<Seq<(u128, Stats)>>) -> Seq<(u128, Stats)>
    decreases batches.len(),
{
    if batches.len() == 0 {
        Seq::empty()
    } else {
        flatten(batches.drop_last()) + batches.last()
    }
}

/// `tables` are the states of a table that took in `batches` one by one:
/// one state more than there are batches, each got from the one before by
/// merging the batch between them.
pub open spec fn is_history(
    batches: Seq<Seq<(u128, Stats)>>,
    tables: Seq<Map<u128, Stats>>,
) -> bool {
    &&& tables.len() == batches.len() + 1
    &&& forall|i: int| 0 <= i < batches.len() ==> #[trigger] is_step(batches, tables, i)
}

/// State `i + 1` is state `i` with batch `i` merged.
pub open spec fn is_step(
    batches: Seq<Seq<(u128, Stats)>>,
    tables: Seq<Map<u128, Stats>>,
    i: int,
) -> bool {
    is_merge(tables[i], batches[i], tables[i + 1])
}

/// Conservation: a table that started empty and has taken in a number of
/// batches holds for every key exactly the sum of the deltas that the
/// batches hold for it, and holds a key exactly when a batch mentions it.
#[verifier::spinoff_prover]
pub proof fn lemma_merge_conserves(
    batches: Seq<Seq<(u128, Stats)>>,
    tables: Seq<Map<u128, Stats>>,
    key: u128,
)
    requires
        is_history(batches, tables),
        tables[0] == Map::<u128, Stats>::empty(),
    ensures
        is_merge(Map::<u128, Stats>::empty(), flatten(batches), tables.last()),
        counts_of(tables.last(), key) == tally(flatten(batches), key),
        tables.last().dom().contains(key) <==> mentions(flatten(batches), key),
    decreases batches.len(),
{
    let empty = Map::<u128, Stats>::empty();
    if batches.len() == 0 {
        assert(flatten(batches) =~= Seq::<(u128, Stats)>::empty());
        assert(tables.last() == empty);
        assert forall|k: u128| #[trigger] grown_by(empty, flatten(batches), empty, k) by {}
        assert forall|k: u128| #[trigger] keys_joined(empty, flatten(batches), empty, k) by {}
    } else {
        let n = batches.len() as int;
        let earlier = batches.drop_last();
        let before = tables.drop_last();
        assert forall|i: int| 0 <= i < earlier.len() implies #[trigger] is_step(
            earlier,
            before,
            i,
        ) by {
            assert(is_step(batches, tables, i));
        }
        lemma_merge_conserves(earlier, before, key);
        assert(is_step(batches, tables, n - 1));
        lemma_merge_twice(empty, flatten(earlier), before.last(), batches.last(), tables.last());
    }
    lemma_merge_reads(empty, flatten(batches), tables.last(), key);
}

/// What a merge says of one key.
pub proof fn lemma_merge_reads(
    before: Map<u128, Stats>,
    batch: Seq<(u128, Stats)>,
    after: Map<u128, Stats>,
    key: u128,
)
    requires
        is_merge(before, batch, after),
    ensures
        grown_by(before, batch, after, key),
        keys_joined(before, batch, after, key),
{
}

} // verus!
