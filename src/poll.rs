use vstd::prelude::*;
use crate::pool::{pass_reports, PortRead};
use crate::{MAINTENANCE_INTERVAL_MS, MINIMAL_PAUSE_MS};

verus! {

/// Whether maintenance is due at `now_ms`, given when it last ran: always when
/// it never ran or the clock went backwards, else once the interval has passed.
pub fn maintenance_due(last_ms: Option<u64>, now_ms: u64) -> (r: bool)
    ensures
        r == match last_ms {
            None => true,
            Some(t) => now_ms < t || now_ms - t >= MAINTENANCE_INTERVAL_MS,
        },
{
    match last_ms {
        None => true,
        Some(t) => now_ms < t || now_ms - t >= MAINTENANCE_INTERVAL_MS,
    }
}

/// How long the poll loop waits after a read pass.
#[derive(Debug, PartialEq, Eq, Structural)]
pub enum Pacing {
    /// Data is flowing: loop again at once.
    Immediate,
    /// Ports are open but none yielded bytes: a short pause.
    MinimalPause,
    /// No port is open: wait a whole maintenance interval.
    FullInterval,
}

impl Pacing {
    /// The sleep this pacing calls for, in milliseconds.
    pub fn sleep_ms(&self) -> (r: u64)
        ensures
            r == match self {
                Pacing::Immediate => 0,
                Pacing::MinimalPause => MINIMAL_PAUSE_MS,
                Pacing::FullInterval => MAINTENANCE_INTERVAL_MS,
            },
    {
        match self {
            Pacing::Immediate => 0,
            Pacing::MinimalPause => MINIMAL_PAUSE_MS,
            Pacing::FullInterval => MAINTENANCE_INTERVAL_MS,
        }
    }
}

/// Whether some read of the pass yielded bytes.
pub open spec fn any_bytes(reads: Seq<(Seq<u8>, nat)>) -> bool {
    exists|k: int| 0 <= k < reads.len() && reads[k].0.len() > 0
}

/// The pacing after a read pass with these reads, one per open port: the
/// full interval with no port open, a short pause when no read yielded
/// bytes, and none otherwise.
pub open spec fn pacing_of(reads: Seq<(Seq<u8>, nat)>) -> Pacing {
    if reads.len() == 0 {
        Pacing::FullInterval
    } else if !any_bytes(reads) {
        Pacing::MinimalPause
    } else {
        Pacing::Immediate
    }
}

/// The pacing after a read pass with these reads, one per open port.
pub fn pacing_after_pass(reads: &Vec<PortRead>) -> (r: Pacing)
    ensures
        r == pacing_of(reads@.map_values(|p: PortRead| p@)),
{
    if reads.len() == 0 {
        return Pacing::FullInterval;
    }
    let ghost rv = reads@.map_values(|p: PortRead| p@);
    let mut i: usize = 0;
    while i < reads.len()
        invariant
            i <= reads@.len(),
            rv == reads@.map_values(|p: PortRead| p@),
            forall|k: int| 0 <= k < i ==> rv[k].0.len() == 0,
        decreases reads@.len() - i,
    {
        if reads[i].bytes.len() > 0 {
            assert(rv[i as int].0.len() > 0);
            return Pacing::Immediate;
        }
        i += 1;
    }
    Pacing::MinimalPause
}

proof fn lemma_reports_iff_bytes(ports: Seq<(Seq<char>, Seq<char>)>, reads: Seq<(Seq<u8>, nat)>)
    requires
        reads.len() == ports.len(),
    ensures
        pass_reports(ports, reads).len() > 0 <==> any_bytes(reads),
    decreases reads.len(),
{
    if reads.len() > 0 {
        let init = reads.drop_last();
        lemma_reports_iff_bytes(ports.drop_last(), init);
        if any_bytes(init) {
            let k = choose|k: int| 0 <= k < init.len() && init[k].0.len() > 0;
            assert(reads[k] == init[k]);
        }
        if any_bytes(reads) && !any_bytes(init) {
            let k = choose|k: int| 0 <= k < reads.len() && reads[k].0.len() > 0;
            if k < init.len() {
                assert(init[k] == reads[k]);
            }
            assert(reads.last() == reads[k]);
        }
        if reads.last().0.len() > 0 {
            assert(reads[reads.len() - 1] == reads.last());
        }
    }
}

/// What a read pass over a pool leads to, with one read per open port: with
/// no port open nothing is queued and the loop waits the full maintenance
/// interval; when every read came back empty nothing is queued and the loop
/// pauses briefly; when some read yielded bytes at least one record is queued
/// and the loop goes on without sleeping.
pub proof fn pass_pacing(ports: Seq<(Seq<char>, Seq<char>)>, reads: Seq<(Seq<u8>, nat)>)
    requires
        reads.len() == ports.len(),
    ensures
        ports.len() == 0 ==> pacing_of(reads) == Pacing::FullInterval && pass_reports(
            ports,
            reads,
        ).len() == 0,
        ports.len() > 0 && !any_bytes(reads) ==> pacing_of(reads) == Pacing::MinimalPause
            && pass_reports(ports, reads).len() == 0,
        any_bytes(reads) ==> pacing_of(reads) == Pacing::Immediate && pass_reports(
            ports,
            reads,
        ).len() > 0,
{
    lemma_reports_iff_bytes(ports, reads);
}

} // verus!
