//! The orchestrator's health gate.
//!
//! Before any membership is pushed, every configured node must answer its
//! health endpoint. The health gate polls all nodes once per retry interval, keeps
//! the set of nodes already seen healthy, and finishes when that set is full
//! — or fails once the global deadline has elapsed first. Time is counted in
//! whole retry intervals.

use vstd::prelude::*;

verus! {

/// How long the health gate waits for all nodes, in retry intervals, by default.
pub const DEFAULT_GATE_DEADLINE: u64 = 10;

/// How long one distribution round may take, in time units, by default.
pub const DEFAULT_DISTRIBUTION_DEADLINE: u64 = 1;

/// How often the orchestrator heartbeats each node once it is running.
pub const ORCHESTRATOR_HEARTBEAT_INTERVAL: u64 = 3;

/// How often a node heartbeats each of its peers.
pub const NODE_HEARTBEAT_INTERVAL: u64 = 10;

/// Why orchestrator startup failed; each carries the deadline that elapsed.
#[derive(Debug, Clone, Copy, PartialEq, Eq, Structural)]
pub enum OrchError {
    /// Not every node reported healthy before the health gate deadline.
    HealthCheckTimeout(u64),
    /// Not every node acknowledged the membership push before the deadline.
    DistributionTimeout(u64),
}

/// How one tick of the health gate ends.
#[derive(Debug, Clone, Copy, PartialEq, Eq, Structural)]
pub enum GateStep {
    /// Some node is still unhealthy and the deadline has not elapsed.
    Continue,
    /// Every node has reported healthy.
    Ready,
    /// The deadline elapsed with some node still unhealthy.
    TimedOut,
}

/// How a whole gate run ends: ready or timed out, at the given tick.
#[derive(Debug, Clone, Copy, PartialEq, Eq, Structural)]
pub enum GateOutcome {
    Ready(u64),
    TimedOut(u64),
}

/// The healthy set after one round of polls: a node is healthy once it has
/// answered any poll, this round or an earlier one.
pub open spec fn step_healthy(h: Seq<bool>, polls: Seq<bool>) -> Seq<bool> {
    Seq::new(h.len(), |i: int| h[i] || polls[i])
}

pub open spec fn all_healthy(h: Seq<bool>) -> bool {
    forall|i: int| 0 <= i < h.len() ==> #[trigger] h[i]
}

/// A poll schedule: for each node, the first tick at which its health
/// endpoint answers success, or nothing if it never does.
pub open spec fn poll_results(sched: Seq<Option<u64>>, t: u64) -> Seq<bool> {
    Seq::new(sched.len(), |i: int| sched[i] matches Some(t0) && t0 <= t)
}

/// The whole gate, run over a poll schedule from tick `t` with healthy set
/// `h`: poll everyone, finish if all are healthy, fail once `t` has reached
/// the deadline, otherwise tick on.
pub open spec fn gate_run(sched: Seq<Option<u64>>, deadline: u64, t: u64, h: Seq<bool>) -> GateOutcome
    decreases deadline - t,
{
    let h2 = step_healthy(h, poll_results(sched, t));
    if all_healthy(h2) {
        GateOutcome::Ready(t)
    } else if t >= deadline {
        GateOutcome::TimedOut(t)
    } else {
        gate_run(sched, deadline, (t + 1) as u64, h2)
    }
}

/// The health gate over a whole schedule, from startup.
pub open spec fn gate_outcome(sched: Seq<Option<u64>>, deadline: u64) -> GateOutcome {
    gate_run(sched, deadline, 0, Seq::new(sched.len(), |i: int| false))
}

proof fn lemma_gate_liveness_aux(
    sched: Seq<Option<u64>>,
    deadline: u64,
    t0: u64,
    h: Seq<bool>,
    tmax: u64,
)
    requires
        h.len() == sched.len(),
        forall|i: int| 0 <= i < sched.len() ==> (#[trigger] sched[i] matches Some(ti) && ti <= tmax),
        tmax < deadline,
        t0 <= tmax,
    ensures
        gate_run(sched, deadline, t0, h) matches GateOutcome::Ready(t) && t <= tmax,
    decreases tmax - t0,
{
    let h2 = step_healthy(h, poll_results(sched, t0));
    if all_healthy(h2) {
    } else {
        if t0 == tmax {
            assert forall|i: int| 0 <= i < h2.len() implies #[trigger] h2[i] by {
                assert(sched[i] matches Some(ti) && ti <= tmax);
                assert(poll_results(sched, t0)[i]);
            }
            assert(false);
        }
        lemma_gate_liveness_aux(sched, deadline, (t0 + 1) as u64, h2, tmax);
    }
}

/// Health-gate liveness: if every node's health endpoint starts answering by
/// some tick before the deadline, the health gate finishes successfully no later
/// than the latest such tick — one retry interval after the last node came
/// up, at worst.
pub proof fn lemma_gate_liveness(sched: Seq<Option<u64>>, deadline: u64, tmax: u64)
    requires
        forall|i: int| 0 <= i < sched.len() ==> (#[trigger] sched[i] matches Some(ti) && ti <= tmax),
        tmax < deadline,
    ensures
        gate_outcome(sched, deadline) matches GateOutcome::Ready(t) && t <= tmax,
{
    lemma_gate_liveness_aux(sched, deadline, 0, Seq::new(sched.len(), |i: int| false), tmax);
}

proof fn lemma_gate_timeout_aux(
    sched: Seq<Option<u64>>,
    deadline: u64,
    t0: u64,
    h: Seq<bool>,
    bad: int,
)
    requires
        h.len() == sched.len(),
        0 <= bad < sched.len(),
        sched[bad] is None,
        !h[bad],
        t0 <= deadline,
    ensures
        gate_run(sched, deadline, t0, h) == GateOutcome::TimedOut(deadline),
    decreases deadline - t0,
{
    let h2 = step_healthy(h, poll_results(sched, t0));
    assert(!poll_results(sched, t0)[bad]);
    assert(!h2[bad]);
    assert(!all_healthy(h2));
    if t0 >= deadline {
        assert(t0 == deadline);
    } else {
        lemma_gate_timeout_aux(sched, deadline, (t0 + 1) as u64, h2, bad);
    }
}

/// Health-gate timeout: if some node's health endpoint never answers, the
/// gate fails with a timeout exactly when the deadline elapses — no earlier,
/// and no more than one retry interval after it.
pub proof fn lemma_gate_timeout(sched: Seq<Option<u64>>, deadline: u64, bad: int)
    requires
        0 <= bad < sched.len(),
        sched[bad] is None,
    ensures
        gate_outcome(sched, deadline) == GateOutcome::TimedOut(deadline),
{
    lemma_gate_timeout_aux(sched, deadline, 0, Seq::new(sched.len(), |i: int| false), bad);
}

/// The health gate's running state: how many ticks have passed and which nodes have
/// already answered a poll.
pub struct GateState {
    pub deadline: u64,
    pub now: u64,
    pub healthy: Vec<bool>,
}

impl GateState {
    /// A fresh gate over `n` nodes: nothing healthy yet, clock at zero.
    pub fn new(n: usize, deadline: u64) -> (s: Self)
        ensures
            s.deadline == deadline,
            s.now == 0,
            s.healthy@ == Seq::new(n as nat, |i: int| false),
    {
        let mut healthy: Vec<bool> = Vec::new();
        let mut i: usize = 0;
        while i < n
            invariant
                i <= n,
                healthy@ =~= Seq::new(i as nat, |j: int| false),
            decreases n - i,
        {
            healthy.push(false);
            assert(healthy@ =~= Seq::new(i as nat + 1, |j: int| false));
            i = i + 1;
        }
        GateState { deadline, now: 0, healthy }
    }

    /// One tick of the health gate: fold this round's poll results into the healthy
    /// set, finish if everyone has answered, fail if the deadline has
    /// elapsed, otherwise advance the clock and keep waiting. This is the
    /// unfolding step of `gate_run`.
    pub fn step(&mut self, polls: &Vec<bool>) -> (r: GateStep)
        requires
            polls@.len() == old(self).healthy@.len(),
            old(self).now < u64::MAX,
        ensures
            final(self).deadline == old(self).deadline,
            final(self).healthy@ == step_healthy(old(self).healthy@, polls@),
            r == GateStep::Ready <==> all_healthy(final(self).healthy@),
            r == GateStep::TimedOut <==> !all_healthy(final(self).healthy@) && old(self).now
                >= old(self).deadline,
            r == GateStep::Continue ==> final(self).now == old(self).now + 1,
            r != GateStep::Continue ==> final(self).now == old(self).now,
            forall|sched: Seq<Option<u64>>|
                poll_results(sched, old(self).now) == polls@ ==> gate_run(
                    sched,
                    old(self).deadline,
                    old(self).now,
                    old(self).healthy@,
                ) == (match r {
                    GateStep::Ready => GateOutcome::Ready(old(self).now),
                    GateStep::TimedOut => GateOutcome::TimedOut(old(self).now),
                    GateStep::Continue => gate_run(
                        sched,
                        old(self).deadline,
                        (old(self).now + 1) as u64,
                        final(self).healthy@,
                    ),
                }),
    {
        let mut i: usize = 0;
        let n = self.healthy.len();
        while i < n
            invariant
                n == self.healthy@.len(),
                polls@.len() == n,
                i <= n,
                self.deadline == old(self).deadline,
                self.now == old(self).now,
                self.healthy@.len() == old(self).healthy@.len(),
                forall|j: int|
                    0 <= j < i ==> #[trigger] self.healthy@[j] == (old(self).healthy@[j]
                        || polls@[j]),
                forall|j: int| i <= j < n ==> #[trigger] self.healthy@[j] == old(self).healthy@[j],
            decreases n - i,
        {
            let merged = self.healthy[i] || polls[i];
            self.healthy.set(i, merged);
            i = i + 1;
        }
        proof {
            assert(self.healthy@ =~= step_healthy(old(self).healthy@, polls@));
        }
        let mut all = true;
        let mut k: usize = 0;
        while k < n
            invariant
                n == self.healthy@.len(),
                k <= n,
                self.deadline == old(self).deadline,
                self.now == old(self).now,
                self.healthy@ == step_healthy(old(self).healthy@, polls@),
                all <==> (forall|j: int| 0 <= j < k ==> #[trigger] self.healthy@[j]),
            decreases n - k,
        {
            all = all && self.healthy[k];
            k = k + 1;
        }
        if all {
            GateStep::Ready
        } else if self.now >= self.deadline {
            GateStep::TimedOut
        } else {
            self.now = self.now + 1;
            GateStep::Continue
        }
    }
}

} // verus!
