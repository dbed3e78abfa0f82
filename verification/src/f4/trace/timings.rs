//! Timing buckets of the F4 main loop.

use vstd::prelude::*;

use crate::trace::MAX_DURATION_NANOS;

verus! {

/// Fine-grained timing buckets of the F4 main loop.
#[derive(Debug, Clone, Copy, PartialEq, Eq, Structural)]
pub enum WhileKind {
    /// Pair selection.
    BatchSelect,
    /// Seed row construction.
    SeedRows,
    /// Symbolic preprocessing.
    Symbolic,
    /// Matrix construction.
    MatrixBuild,
    /// Row reduction.
    RowReduce,
    /// Row extraction.
    Extract,
    /// Pair update.
    PairUpdate,
}

/// Accumulated times, in nanoseconds, of the work in the F4 main loop.
#[derive(Debug, Clone, Copy, PartialEq, Eq, Structural)]
pub struct WhileTimes {
    /// Pair selection.
    pub batch_select: u128,
    /// Seed row construction.
    pub seed_rows: u128,
    /// Symbolic preprocessing.
    pub symbolic: u128,
    /// Matrix construction.
    pub matrix_build: u128,
    /// Row reduction.
    pub row_reduce: u128,
    /// Row extraction.
    pub extract: u128,
    /// Pair update.
    pub pair_update: u128,
}

impl Default for WhileTimes {
    fn default() -> (r: WhileTimes)
        ensures
            r.batch_select == 0 && r.seed_rows == 0 && r.symbolic == 0 && r.matrix_build == 0,
            r.row_reduce == 0 && r.extract == 0 && r.pair_update == 0,
    {
        WhileTimes { batch_select: 0, seed_rows: 0, symbolic: 0, matrix_build: 0, row_reduce: 0, extract: 0, pair_update: 0 }
    }
}

impl WhileTimes {
    /// The bucket of `kind`.
    pub open spec fn get(self, kind: WhileKind) -> u128 {
        match kind {
            WhileKind::BatchSelect => self.batch_select,
            WhileKind::SeedRows => self.seed_rows,
            WhileKind::Symbolic => self.symbolic,
            WhileKind::MatrixBuild => self.matrix_build,
            WhileKind::RowReduce => self.row_reduce,
            WhileKind::Extract => self.extract,
            WhileKind::PairUpdate => self.pair_update,
        }
    }

    /// The sum of all buckets.
    pub open spec fn spec_total(self) -> int {
        self.batch_select + self.seed_rows + self.symbolic + self.matrix_build + self.row_reduce + self.extract + self.pair_update
    }

    /// Adds `dt` to the bucket of `kind`; the others are unchanged.
    pub fn add(&mut self, kind: WhileKind, dt: u128)
        requires
            old(self).get(kind) + dt <= MAX_DURATION_NANOS,
        ensures
            final(self).get(kind) == old(self).get(kind) + dt,
            forall|k: WhileKind| k != kind ==> final(self).get(k) == old(self).get(k),
    {
        match kind {
            WhileKind::BatchSelect => self.batch_select = self.batch_select + dt,
            WhileKind::SeedRows => self.seed_rows = self.seed_rows + dt,
            WhileKind::Symbolic => self.symbolic = self.symbolic + dt,
            WhileKind::MatrixBuild => self.matrix_build = self.matrix_build + dt,
            WhileKind::RowReduce => self.row_reduce = self.row_reduce + dt,
            WhileKind::Extract => self.extract = self.extract + dt,
            WhileKind::PairUpdate => self.pair_update = self.pair_update + dt,
        }
    }

    /// The sum of all buckets.
    pub fn total(&self) -> (r: u128)
        requires
            self.spec_total() <= MAX_DURATION_NANOS,
        ensures
            r == self.spec_total(),
    {
        self.batch_select + self.seed_rows + self.symbolic + self.matrix_build + self.row_reduce + self.extract + self.pair_update
    }
}

/// `after` is `before` with `dt` added to the bucket of `kind`, as [`WhileTimes::add`] leaves it.
pub open spec fn added_to(before: WhileTimes, after: WhileTimes, kind: WhileKind, dt: u128) -> bool {
    &&& after.get(kind) == before.get(kind) + dt
    &&& forall|k: WhileKind| k != kind ==> after.get(k) == before.get(k)
}

/// Sum of the durations of `adds` whose kind is `kind`.
pub open spec fn kind_sum(adds: Seq<(WhileKind, u128)>, kind: WhileKind) -> int
    decreases adds.len(),
{
    if adds.len() == 0 {
        0
    } else {
        kind_sum(adds.drop_last(), kind) + (if adds.last().0 == kind { adds.last().1 as int } else { 0int })
    }
}

/// Sum of the durations of `adds`.
pub open spec fn duration_sum(adds: Seq<(WhileKind, u128)>) -> int
    decreases adds.len(),
{
    if adds.len() == 0 {
        0
    } else {
        duration_sum(adds.drop_last()) + adds.last().1
    }
}

/// After a sequence of adds, each bucket has grown by the durations added to it and the
/// total by the sum of all durations.
pub proof fn lemma_adds_accumulate(states: Seq<WhileTimes>, adds: Seq<(WhileKind, u128)>)
    requires
        states.len() == adds.len() + 1,
        forall|i: int| 0 <= i < adds.len() ==> added_to(states[i], #[trigger] states[i + 1], adds[i].0, adds[i].1),
    ensures
        forall|k: WhileKind| #[trigger] states.last().get(k) == states[0].get(k) + kind_sum(adds, k),
        states.last().spec_total() == states[0].spec_total() + duration_sum(adds),
    decreases adds.len(),
{
    if adds.len() > 0 {
        let n = adds.len() - 1;
        let s0 = states.drop_last();
        let a0 = adds.drop_last();
        assert forall|i: int| 0 <= i < a0.len() implies added_to(s0[i], #[trigger] s0[i + 1], a0[i].0, a0[i].1) by {
            assert(s0[i] == states[i] && s0[i + 1] == states[i + 1] && a0[i] == adds[i]);
            assert(added_to(states[i], states[i + 1], adds[i].0, adds[i].1));
        }
        lemma_adds_accumulate(s0, a0);
        assert(added_to(states[n], states[n + 1], adds[n].0, adds[n].1));
        assert(s0.last() == states[n]);
        assert(s0[0] == states[0]);
        let before = states[n];
        let after = states.last();
        assert forall|k: WhileKind| #[trigger] after.get(k) == states[0].get(k) + kind_sum(adds, k) by {
            assert(before.get(k) == states[0].get(k) + kind_sum(a0, k));
        }
        assert(after.get(WhileKind::BatchSelect) == before.get(WhileKind::BatchSelect) + (if adds[n].0 == WhileKind::BatchSelect { adds[n].1 as int } else { 0int }));
        assert(after.get(WhileKind::SeedRows) == before.get(WhileKind::SeedRows) + (if adds[n].0 == WhileKind::SeedRows { adds[n].1 as int } else { 0int }));
        assert(after.get(WhileKind::Symbolic) == before.get(WhileKind::Symbolic) + (if adds[n].0 == WhileKind::Symbolic { adds[n].1 as int } else { 0int }));
        assert(after.get(WhileKind::MatrixBuild) == before.get(WhileKind::MatrixBuild) + (if adds[n].0 == WhileKind::MatrixBuild { adds[n].1 as int } else { 0int }));
        assert(after.get(WhileKind::RowReduce) == before.get(WhileKind::RowReduce) + (if adds[n].0 == WhileKind::RowReduce { adds[n].1 as int } else { 0int }));
        assert(after.get(WhileKind::Extract) == before.get(WhileKind::Extract) + (if adds[n].0 == WhileKind::Extract { adds[n].1 as int } else { 0int }));
        assert(after.get(WhileKind::PairUpdate) == before.get(WhileKind::PairUpdate) + (if adds[n].0 == WhileKind::PairUpdate { adds[n].1 as int } else { 0int }));
    }
}

} // verus!
