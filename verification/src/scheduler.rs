//! Driving aggregated records into the graph store.
//!
//! The strategy is sequential fail-fast: after creating the project, records
//! are written one at a time in order, and the first failure aborts the run,
//! leaving earlier writes in place (no rollback). `sync_records` performs the
//! whole run against a store model; `SyncPlan` carries the same decision
//! logic step by step for a driver whose writes happen elsewhere.

use vstd::prelude::*;

verus! {

use crate::aggregate::{AggregateRecord, RecView};
use crate::graph::{empty_project, spec_upsert, store_wf, GraphError, GraphStore, ProjectView};

/// The store after the records up to the end of `recs` have been upserted
/// into `sv` under `project`, in order.
pub open spec fn spec_sync_from(
    sv: Seq<ProjectView>,
    project: Seq<char>,
    recs: Seq<RecView>,
) -> Seq<ProjectView>
    decreases recs.len(),
{
    if recs.len() == 0 {
        sv
    } else {
        spec_upsert(
            spec_sync_from(sv, project, recs.drop_last()),
            project,
            recs.last().from,
            recs.last().to,
            recs.last().mean_sentiment_milli,
            recs.last().email_count as int,
        )
    }
}

/// The store after a full run: the project is created, then every record is
/// upserted in order.
pub open spec fn spec_sync(
    sv: Seq<ProjectView>,
    project: Seq<char>,
    recs: Seq<RecView>,
) -> Seq<ProjectView> {
    spec_sync_from(sv.push(empty_project(project)), project, recs)
}

/// Creates the project, then writes every aggregated record in order,
/// reporting how many records were written; a well-formed store stays
/// well-formed.
#[verifier::loop_isolation(false)]
pub fn sync_records(
    store: &mut GraphStore,
    project: &String,
    records: &Vec<AggregateRecord>,
) -> (r: Result<usize, GraphError>)
    ensures
        r is Ok,
        r->Ok_0 == records@.len(),
        final(store)@ == spec_sync(
            old(store)@,
            project@,
            records@.map_values(|a: AggregateRecord| a@),
        ),
        store_wf(old(store)@) ==> store_wf(final(store)@),
{
    let ghost recs = records@.map_values(|a: AggregateRecord| a@);
    let ghost base = old(store)@.push(empty_project(project@));
    match store.create_project(project.clone()) {
        Ok(_) => {},
        Err(e) => {
            return Err(e);
        },
    }
    let n = records.len();
    let mut i: usize = 0;
    while i < n
        invariant
            i <= n,
            n == records@.len(),
            store@ == spec_sync_from(base, project@, recs.take(i as int)),
            store_wf(old(store)@) ==> store_wf(store@),
        decreases n - i,
    {
        let rec = &records[i];
        match store.upsert_relationship(
            project,
            &rec.from,
            &rec.to,
            rec.mean_sentiment_milli,
            rec.email_count,
        ) {
            Ok(_) => {},
            Err(e) => {
                return Err(e);
            },
        }
        proof {
            assert(recs.take(i + 1).drop_last() =~= recs.take(i as int));
            assert(recs.take(i + 1).last() == recs[i as int]);
        }
        i = i + 1;
    }
    proof {
        assert(recs.take(n as int) =~= recs);
    }
    Ok(n)
}

/// The stepwise decision state of a sequential fail-fast run over a fixed
/// number of records: writes are requested in order, and after the first
/// reported failure no further write is requested.
pub struct SyncPlan {
    pub total: usize,
    pub next: usize,
    pub failed: bool,
}

impl SyncPlan {
    /// The cursor never passes the number of records.
    pub open spec fn wf(&self) -> bool {
        self.next <= self.total
    }

    /// A plan over `total` records, with nothing written yet.
    pub fn new(total: usize) -> (r: SyncPlan)
        ensures
            r.wf(),
            r.total == total,
            r.next == 0,
            !r.failed,
    {
        SyncPlan { total, next: 0, failed: false }
    }

    /// The index of the record to write next, or nothing if the run is over,
    /// because every record was written or because a write failed.
    pub fn next_index(&self) -> (r: Option<usize>)
        requires
            self.wf(),
        ensures
            (self.failed || self.next == self.total) ==> r is None,
            (!self.failed && self.next < self.total) ==> r == Some(self.next),
    {
        if self.failed || self.next == self.total {
            None
        } else {
            Some(self.next)
        }
    }

    /// Records that the requested write succeeded, advancing the cursor.
    pub fn record_success(&mut self)
        requires
            old(self).wf(),
            !old(self).failed,
            old(self).next < old(self).total,
        ensures
            final(self).wf(),
            final(self).total == old(self).total,
            final(self).next == old(self).next + 1,
            !final(self).failed,
    {
        self.next = self.next + 1;
    }

    /// Records that the requested write failed; no further write is requested.
    pub fn record_failure(&mut self)
        ensures
            final(self).total == old(self).total,
            final(self).next == old(self).next,
            final(self).failed,
    {
        self.failed = true;
    }

    /// How many records have been written successfully so far.
    pub fn completed(&self) -> (r: usize)
        ensures
            r == self.next,
    {
        self.next
    }
}

} // verus!
