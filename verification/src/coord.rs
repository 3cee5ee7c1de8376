//! Lifecycle coordination: the scrape loop and the read API run as sibling
//! tasks under one coordinator holding a broadcastable cancellation.
//!
//! The decisions are modeled here and proved; the runtime that carries
//! them out (signal handling, task joins) is an external collaborator.
use vstd::prelude::*;

verus! {

/// The three triggers that end the process: an external termination
/// signal, or either task finishing on its own (with or without an error).
#[derive(Debug, Clone, Copy, PartialEq, Eq, Structural)]
pub enum CoordEvent {
    ShutdownSignal,
    ScraperFinished,
    ServerFinished,
}

/// The coordinator's state: whether cancellation has been broadcast, and
/// which tasks are known to have finished.
#[derive(Debug, Clone, Copy, PartialEq, Eq, Structural)]
pub struct Coordinator {
    pub cancel_broadcast: bool,
    pub scraper_done: bool,
    pub server_done: bool,
}

/// One coordinator step: any trigger broadcasts cancellation, and a task's
/// completion is recorded; nothing is ever un-broadcast or un-finished.
pub open spec fn spec_step(s: Coordinator, e: CoordEvent) -> Coordinator {
    Coordinator {
        cancel_broadcast: true,
        scraper_done: s.scraper_done || e is ScraperFinished,
        server_done: s.server_done || e is ServerFinished,
    }
}

impl Coordinator {
    /// Both tasks running, nothing cancelled yet.
    pub fn new() -> (r: Coordinator)
        ensures
            r == (Coordinator { cancel_broadcast: false, scraper_done: false, server_done: false }),
    {
        Coordinator { cancel_broadcast: false, scraper_done: false, server_done: false }
    }

    /// Takes whichever trigger fired first and broadcasts cancellation.
    pub fn on_event(&mut self, e: CoordEvent)
        ensures
            *final(self) == spec_step(*old(self), e),
    {
        self.cancel_broadcast = true;
        match e {
            CoordEvent::ScraperFinished => {
                self.scraper_done = true;
            },
            CoordEvent::ServerFinished => {
                self.server_done = true;
            },
            CoordEvent::ShutdownSignal => {},
        }
    }

    /// What a task polls at its cancellation points.
    pub fn is_cancelled(&self) -> (r: bool)
        ensures
            r == self.cancel_broadcast,
    {
        self.cancel_broadcast
    }
}

/// The coordinator after a whole history of events, first to last.
pub open spec fn spec_run(s: Coordinator, events: Seq<CoordEvent>) -> Coordinator
    decreases events.len(),
{
    if events.len() == 0 {
        s
    } else {
        spec_run(spec_step(s, events.first()), events.drop_first())
    }
}

/// Cancellation propagation: after any single trigger, cancellation is
/// broadcast, and it stays broadcast under every later event, so both
/// tasks observe it at their next cancellation point. Broadcasting is
/// idempotent: a second trigger changes nothing a task observes.
pub proof fn lemma_cancellation_propagates(s: Coordinator, e: CoordEvent, later: CoordEvent)
    ensures
        spec_step(s, e).cancel_broadcast,
        spec_step(spec_step(s, e), later).cancel_broadcast,
        s.cancel_broadcast ==> spec_step(s, e).cancel_broadcast == s.cancel_broadcast,
{
}

/// Once cancellation is broadcast, no later history revokes it: every run
/// from a cancelled state stays cancelled.
pub proof fn lemma_cancellation_stable(s: Coordinator, events: Seq<CoordEvent>)
    requires
        s.cancel_broadcast,
    ensures
        spec_run(s, events).cancel_broadcast,
    decreases events.len(),
{
    if events.len() > 0 {
        lemma_cancellation_stable(spec_step(s, events.first()), events.drop_first());
    }
}

/// Any one trigger, followed by any events at all, leaves the coordinator
/// cancelled: whichever of the three triggers fires first wins.
pub proof fn lemma_any_trigger_cancels(s: Coordinator, e: CoordEvent, later: Seq<CoordEvent>)
    ensures
        spec_run(spec_step(s, e), later).cancel_broadcast,
{
    lemma_cancellation_stable(spec_step(s, e), later);
}

/// The process result once both tasks have returned: the scraper's error
/// wins, then the server's, and success only when both succeeded.
pub fn aggregate_outcome(scraper: Result<(), String>, server: Result<(), String>) -> (r: Result<
    (),
    String,
>)
    ensures
        scraper is Err ==> r == scraper,
        scraper is Ok && server is Err ==> r == server,
        scraper is Ok && server is Ok ==> r is Ok,
        r is Ok <==> (scraper is Ok && server is Ok),
{
    match scraper {
        Err(e) => Err(e),
        Ok(()) => match server {
            Err(e) => Err(e),
            Ok(()) => Ok(()),
        },
    }
}

} // verus!
