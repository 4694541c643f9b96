//! Latency estimation for a single mirror.
//!
//! A mirror is probed a fixed number of times; each probe either reports the
//! elapsed time in nanoseconds or fails. The estimator stops at the first
//! failure and classifies the mirror as failed; only a full run of successful
//! probes yields a mean latency.

use vstd::prelude::*;

verus! {

/// Number of timed probes made against one mirror.
pub const PING_TIMES: usize = 5;

/// Upper bound of the byte range requested by one probe.
pub const LEN_BENCH_CHUNK: u64 = 64;

/// Outcome of a single timed probe: elapsed nanoseconds, or failure.
#[derive(Clone, Copy, PartialEq, Eq, Structural, Debug)]
pub enum ProbeOutcome {
    Elapsed(u32),
    Failed,
}

/// Latency estimate for one mirror: the mean over all probes, or failure.
#[derive(Clone, Copy, PartialEq, Eq, Structural, Debug)]
pub enum LatencyEstimate {
    Mean(u32),
    Failure,
}

/// Sum of a sequence of probe durations.
pub open spec fn sum_of(s: Seq<u32>) -> int
    decreases s.len(),
{
    if s.len() == 0 {
        0
    } else {
        sum_of(s.drop_last()) + s.last()
    }
}

/// The durations of the successful probes of a script, in order.
pub open spec fn durations(s: Seq<ProbeOutcome>) -> Seq<u32>
    decreases s.len(),
{
    if s.len() == 0 {
        Seq::empty()
    } else {
        match s.last() {
            ProbeOutcome::Elapsed(d) => durations(s.drop_last()).push(d),
            ProbeOutcome::Failed => durations(s.drop_last()),
        }
    }
}

/// What a full run of probes amounts to: failure as soon as any probe
/// failed, otherwise the truncated mean of the elapsed times.
pub open spec fn estimate_of(s: Seq<ProbeOutcome>) -> LatencyEstimate {
    if exists|k: int| 0 <= k < s.len() && s[k] is Failed {
        LatencyEstimate::Failure
    } else {
        LatencyEstimate::Mean(((sum_of(durations(s)) / PING_TIMES as int)) as u32)
    }
}

/// Sequentially aggregates the probes of one mirror, stopping at the first
/// failure; a full run of `PING_TIMES` successes yields the mean duration.
pub struct Estimator {
    samples: Vec<u32>,
    failed: bool,
}

impl Estimator {
    /// Durations of the successful probes recorded so far.
    pub closed spec fn recorded(self) -> Seq<u32> {
        self.samples@
    }

    /// Whether some probe has already failed.
    pub closed spec fn has_failed(self) -> bool {
        self.failed
    }

    pub open spec fn wf(self) -> bool {
        &&& self.recorded().len() <= PING_TIMES
        &&& (self.has_failed() ==> self.recorded().len() < PING_TIMES)
    }

    /// The estimator asks for another probe until it has either seen a
    /// failure or collected a full run of samples.
    pub open spec fn wants_probe_spec(self) -> bool {
        !self.has_failed() && self.recorded().len() < PING_TIMES
    }

    pub open spec fn estimate_spec(self) -> LatencyEstimate {
        if self.has_failed() {
            LatencyEstimate::Failure
        } else {
            LatencyEstimate::Mean(((sum_of(self.recorded()) / PING_TIMES as int)) as u32)
        }
    }

    pub fn new() -> (r: Estimator)
        ensures
            r.wf(),
            r.recorded() == Seq::<u32>::empty(),
            !r.has_failed(),
    {
        Estimator { samples: Vec::new(), failed: false }
    }

    pub fn wants_probe(&self) -> (b: bool)
        ensures
            b == self.wants_probe_spec(),
    {
        !self.failed && self.samples.len() < PING_TIMES
    }

    /// Feed the outcome of the probe the estimator asked for. A failure is
    /// final: the estimator never asks for another probe afterwards.
    pub fn record(&mut self, outcome: ProbeOutcome)
        requires
            old(self).wf(),
            old(self).wants_probe_spec(),
        ensures
            final(self).wf(),
            outcome matches ProbeOutcome::Elapsed(d) ==> {
                &&& final(self).recorded() == old(self).recorded().push(d)
                &&& !final(self).has_failed()
            },
            outcome is Failed ==> {
                &&& final(self).has_failed()
                &&& final(self).recorded() == old(self).recorded()
            },
    {
        match outcome {
            ProbeOutcome::Elapsed(d) => self.samples.push(d),
            ProbeOutcome::Failed => self.failed = true,
        }
    }

    /// The aggregate once no further probe is wanted: failure if any probe
    /// failed, else the truncated mean of the full run.
    pub fn estimate(&self) -> (r: LatencyEstimate)
        requires
            self.wf(),
            !self.wants_probe_spec(),
        ensures
            r == self.estimate_spec(),
    {
        if self.failed {
            LatencyEstimate::Failure
        } else {
            let mut total: u64 = 0;
            let mut i: usize = 0;
            while i < self.samples.len()
                invariant
                    i <= self.samples@.len(),
                    self.samples@.len() <= PING_TIMES,
                    total == sum_of(self.samples@.take(i as int)),
                    total <= i as int * 0xffff_ffff,
                decreases self.samples@.len() - i,
            {
                proof {
                    assert(self.samples@.take(i as int + 1).drop_last() =~= self.samples@.take(
                        i as int,
                    ));
                    assert(self.samples@.take(i as int + 1).last() == self.samples@[i as int]);
                }
                total = total + self.samples[i] as u64;
                i = i + 1;
            }
            proof {
                assert(self.samples@.take(self.samples@.len() as int) =~= self.samples@);
            }
            let mean = total / (PING_TIMES as u64);
            LatencyEstimate::Mean(mean as u32)
        }
    }
}

/// Runs the estimator over a full script of `PING_TIMES` probe outcomes,
/// honouring the short-circuit: outcomes after the first failure are never
/// consulted. A mirror that fails on any probe is classified as failed
/// regardless of its earlier successful samples.
pub fn run_estimator(outcomes: &Vec<ProbeOutcome>) -> (r: LatencyEstimate)
    requires
        outcomes@.len() == PING_TIMES,
    ensures
        r == estimate_of(outcomes@),
        r is Failure <==> exists|k: int| 0 <= k < outcomes@.len() && outcomes@[k] is Failed,
{
    let mut est = Estimator::new();
    let mut i: usize = 0;
    let mut more = est.wants_probe();
    while more
        invariant
            est.wf(),
            outcomes@.len() == PING_TIMES,
            i <= outcomes@.len(),
            more == est.wants_probe_spec(),
            !est.has_failed() ==> {
                &&& i == est.recorded().len()
                &&& (forall|k: int| 0 <= k < i ==> outcomes@[k] is Elapsed)
                &&& est.recorded() == durations(outcomes@.take(i as int))
            },
            est.has_failed() ==> {
                &&& 1 <= i <= outcomes@.len()
                &&& outcomes@[i - 1] is Failed
            },
        decreases outcomes@.len() - i,
    {
        let o = outcomes[i];
        proof {
            assert(outcomes@.take(i as int + 1).drop_last() =~= outcomes@.take(i as int));
            assert(outcomes@.take(i as int + 1).last() == outcomes@[i as int]);
        }
        est.record(o);
        i = i + 1;
        more = est.wants_probe();
    }
    proof {
        if !est.has_failed() {
            assert(outcomes@.take(outcomes@.len() as int) =~= outcomes@);
        }
    }
    est.estimate()
}

} // verus!
