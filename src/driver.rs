use vstd::prelude::*;

use crate::record::SecretView;
use crate::walk::{plan, plan_migration, upserts_view, Group, Upsert};

verus! {

/// The progress of a migration, as seen by contracts.
pub struct MigrationView {
    pub upserts: Seq<(Seq<char>, SecretView)>,
    pub next: nat,
    pub failed: Seq<Seq<char>>,
}

impl MigrationView {
    /// The state after the upsert at `next` went as `succeeded` says.
    pub open spec fn step(self, succeeded: bool) -> MigrationView {
        MigrationView {
            upserts: self.upserts,
            next: self.next + 1,
            failed: if succeeded {
                self.failed
            } else {
                self.failed.push(self.upserts[self.next as int].0)
            },
        }
    }

    /// The state after the upserts from `next` on went as `outcomes` says,
    /// one outcome each.
    pub open spec fn run(self, outcomes: Seq<bool>) -> MigrationView
        decreases outcomes.len(),
    {
        if outcomes.len() == 0 {
            self
        } else {
            self.step(outcomes[0]).run(outcomes.drop_first())
        }
    }
}

/// Whatever the earlier upserts' outcomes, failures included, the upsert
/// issued next is the next one of the walk: after `k` outcomes the
/// migration stands at upsert `next + k` of the same list, and it has kept
/// exactly the paths of the failed ones, in order.
pub proof fn lemma_failures_do_not_stop(m: MigrationView, outcomes: Seq<bool>)
    requires
        m.next + outcomes.len() <= m.upserts.len(),
    ensures
        m.run(outcomes).upserts == m.upserts,
        m.run(outcomes).next == m.next + outcomes.len(),
        m.run(outcomes).failed == m.failed + failed_paths(m.upserts, m.next, outcomes),
    decreases outcomes.len(),
{
    if outcomes.len() > 0 {
        let s = m.step(outcomes[0]);
        lemma_failures_do_not_stop(s, outcomes.drop_first());
        assert(m.run(outcomes).failed =~= m.failed + failed_paths(m.upserts, m.next, outcomes));
    }
}

/// The paths of the upserts from `start` on whose outcome was a failure.
pub open spec fn failed_paths(
    upserts: Seq<(Seq<char>, SecretView)>,
    start: nat,
    outcomes: Seq<bool>,
) -> Seq<Seq<char>>
    decreases outcomes.len(),
{
    if outcomes.len() == 0 {
        seq![]
    } else {
        let rest = failed_paths(upserts, start + 1, outcomes.drop_first());
        if outcomes[0] {
            rest
        } else {
            seq![upserts[start as int].0] + rest
        }
    }
}

/// The progress of a migration: the upserts to issue, in order, how many
/// have been issued, and the paths whose upsert failed.
pub struct Migration {
    pub upserts: Vec<Upsert>,
    pub next: usize,
    pub failed: Vec<String>,
}

impl View for Migration {
    type V = MigrationView;

    open spec fn view(&self) -> MigrationView {
        MigrationView {
            upserts: upserts_view(self.upserts@),
            next: self.next as nat,
            failed: self.failed@.map_values(|p: String| p@),
        }
    }
}

impl Migration {
    pub open spec fn wf(&self) -> bool {
        self.next <= self.upserts@.len()
    }

    /// A migration of every entry below `root`, under `prefix`, with nothing
    /// issued yet.
    pub fn new(prefix: &str, root: &Group) -> (r: Migration)
        ensures
            r.wf(),
            upserts_view(r.upserts@) == plan(prefix@, root.children@),
            r.next == 0,
            r.failed@.len() == 0,
    {
        Migration { upserts: plan_migration(prefix, root), next: 0, failed: Vec::new() }
    }

    /// The upsert to issue next, or `None` once all have been issued.
    pub fn next_upsert(&self) -> (r: Option<&Upsert>)
        requires
            self.wf(),
        ensures
            self.next < self.upserts@.len() ==> r == Some(&self.upserts@[self.next as int]),
            self.next == self.upserts@.len() ==> r is None,
    {
        if self.next < self.upserts.len() {
            Some(&self.upserts[self.next])
        } else {
            None
        }
    }

    /// Takes note of how the upsert just issued went and moves on to the
    /// next one, whether it succeeded or not; a failed one's path is kept.
    pub fn record_outcome(&mut self, succeeded: bool)
        requires
            old(self).wf(),
            old(self).next < old(self).upserts@.len(),
        ensures
            final(self).wf(),
            final(self)@ == old(self)@.step(succeeded),
            final(self).upserts@ == old(self).upserts@,
            final(self).next == old(self).next + 1,
            succeeded ==> final(self).failed@ == old(self).failed@,
            !succeeded ==> final(self).failed@.len() == old(self).failed@.len() + 1
                && final(self).failed@.drop_last() == old(self).failed@
                && final(self).failed@.last()@ == old(self).upserts@[old(self).next as int].path@,
    {
        let k = self.next;
        let n = self.upserts.len();
        assert(k < n);
        if !succeeded {
            let path = self.upserts[k].path.clone();
            self.failed.push(path);
            assert(self.failed@.drop_last() =~= old(self).failed@);
        }
        self.next = k + 1;
        assert(self@.failed =~= old(self)@.step(succeeded).failed);
    }

    /// Whether every upsert has been issued.
    pub fn is_done(&self) -> (r: bool)
        ensures
            r == (self.next >= self.upserts@.len()),
    {
        self.next >= self.upserts.len()
    }
}

} // verus!
