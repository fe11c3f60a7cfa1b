use vstd::prelude::*;

verus! {

/// Seconds between two iterations of the scheduling loop.
pub const SAMPLE_INTERVAL_SECS: u64 = 5;

/// How many top processes a report lists.
pub const TOP_PROCESS_COUNT: usize = 10;

/// Transport state, decided once at startup: connected to a supervisor,
/// or standalone with delivery suppressed. There is no reconnect.
#[derive(Clone, Copy, PartialEq, Eq, Structural, Debug)]
pub enum ChannelMode {
    Connected,
    Standalone,
}

/// Why the startup connect failed: the endpoint and the cause, kept for
/// the log line. Never fatal: the loop degrades to standalone mode.
pub struct ConnectFault {
    pub endpoint: Vec<u8>,
    pub cause: Vec<u8>,
}

/// Why a connected send failed. Never fatal: the iteration's delivery
/// is skipped and the loop continues.
pub struct SendFault {
    pub cause: Vec<u8>,
}

/// What the loop's driver has to do at an iteration boundary.
#[derive(Clone, Copy, PartialEq, Eq, Structural, Debug)]
pub enum BoundaryAction {
    RunTick,
    CloseChannel,
}

/// The scheduling loop's phase.
#[derive(Clone, Copy, PartialEq, Eq, Structural, Debug)]
pub enum Status {
    Running,
    Stopping,
    Stopped,
}

/// How one iteration's delivery went; every variant is absorbed.
#[derive(Clone, Copy, PartialEq, Eq, Structural, Debug)]
pub enum DeliveryOutcome {
    Delivered,
    SkippedStandalone,
    SerializeFailed,
    SendFailed,
}

/// What to do with one serialized report.
#[derive(Clone, Copy, PartialEq, Eq, Structural, Debug)]
pub enum DeliveryPlan {
    TransportSend,
    NoOp,
}

/// Startup resolution of the transport: a successful connect gives the
/// connected mode, a failed one degrades to standalone.
pub fn resolve_mode(connect_result: &Result<(), ConnectFault>) -> (m: ChannelMode)
    ensures
        m == (match connect_result {
            Ok(_) => ChannelMode::Connected,
            Err(_) => ChannelMode::Standalone,
        }),
{
    match connect_result {
        Ok(_) => ChannelMode::Connected,
        Err(_) => ChannelMode::Standalone,
    }
}

/// The delivery decision for one serialized report: only a connected
/// channel sends; standalone mode plans a no-op.
pub fn plan_delivery(mode: &ChannelMode) -> (p: DeliveryPlan)
    ensures
        p == (match mode {
            ChannelMode::Connected => DeliveryPlan::TransportSend,
            ChannelMode::Standalone => DeliveryPlan::NoOp,
        }),
{
    match mode {
        ChannelMode::Connected => DeliveryPlan::TransportSend,
        ChannelMode::Standalone => DeliveryPlan::NoOp,
    }
}

/// The standalone send: a total no-op that always succeeds.
pub fn send_standalone(payload: &Vec<u8>) -> (r: Result<(), SendFault>)
    ensures
        r is Ok,
{
    let _ = payload;
    Ok(())
}

/// The scheduling loop's state between iteration boundaries.
#[derive(Clone, Copy, PartialEq, Eq, Structural, Debug)]
pub struct Scheduler {
    pub status: Status,
    pub mode: ChannelMode,
    pub iteration: u64,
}

impl Scheduler {
    /// A fresh loop: running, transport resolved once, counter zero.
    pub fn new(mode: ChannelMode) -> (s: Scheduler)
        ensures
            s == (Scheduler { status: Status::Running, mode, iteration: 0 }),
    {
        Scheduler { status: Status::Running, mode, iteration: 0 }
    }

    /// The transition at an iteration boundary, the only place where
    /// cancellation is observed: an uncancelled running loop starts its
    /// next tick; a cancelled one stops ticking and, one step later,
    /// closes the channel and is stopped for good.
    pub open spec fn boundary_spec(self, cancelled: bool) -> (Scheduler, Option<BoundaryAction>) {
        match self.status {
            Status::Running => {
                if cancelled {
                    ((Scheduler { status: Status::Stopping, ..self }), None)
                } else {
                    (
                        (Scheduler { iteration: (self.iteration + 1) as u64, ..self }),
                        Some(BoundaryAction::RunTick),
                    )
                }
            },
            Status::Stopping => (
                (Scheduler { status: Status::Stopped, ..self }),
                Some(BoundaryAction::CloseChannel),
            ),
            Status::Stopped => (self, None),
        }
    }

    /// One iteration boundary.
    pub fn on_boundary(&self, cancelled: bool) -> (r: (Scheduler, Option<BoundaryAction>))
        requires
            self.status is Running && !cancelled ==> self.iteration < u64::MAX,
        ensures
            r == self.boundary_spec(cancelled),
    {
        match self.status {
            Status::Running => {
                if cancelled {
                    (Scheduler { status: Status::Stopping, ..*self }, None)
                } else {
                    (
                        Scheduler { iteration: self.iteration + 1, ..*self },
                        Some(BoundaryAction::RunTick),
                    )
                }
            },
            Status::Stopping => (
                Scheduler { status: Status::Stopped, ..*self },
                Some(BoundaryAction::CloseChannel),
            ),
            Status::Stopped => (*self, None),
        }
    }

    /// Per-iteration failures are absorbed: whatever the tick's
    /// delivery outcome, the state is unchanged. Only the external
    /// signal ever stops the loop.
    pub fn absorb_tick(&self, outcome: DeliveryOutcome) -> (r: Scheduler)
        ensures
            r == *self,
    {
        match outcome {
            DeliveryOutcome::Delivered => *self,
            DeliveryOutcome::SkippedStandalone => *self,
            DeliveryOutcome::SerializeFailed => *self,
            DeliveryOutcome::SendFailed => *self,
        }
    }
}

/// The state after `k` further uncancelled iteration boundaries.
pub open spec fn run_ticks(s: Scheduler, k: nat) -> Scheduler
    decreases k,
{
    if k == 0 {
        s
    } else {
        run_ticks(s.boundary_spec(false).0, (k - 1) as nat)
    }
}

/// Progress: while no cancellation is observed, a running loop is still
/// running after any number of boundaries and has taken a tick at each
/// one. In particular a loop in standalone mode, after a failed
/// connect, completes any number of iterations, each send a trivial
/// success.
pub proof fn lemma_uncancelled_progress(s: Scheduler, k: nat)
    requires
        s.status is Running,
        s.iteration + k <= u64::MAX,
    ensures
        run_ticks(s, k).status is Running,
        run_ticks(s, k).mode == s.mode,
        run_ticks(s, k).iteration == s.iteration + k,
        forall|j: nat|
            j < k ==> #[trigger] run_ticks(s, j).boundary_spec(false).1 == Some(
                BoundaryAction::RunTick,
            ),
    decreases k,
{
    if k > 0 {
        let s1 = s.boundary_spec(false).0;
        lemma_uncancelled_progress(s1, (k - 1) as nat);
        assert forall|j: nat|
            j < k implies #[trigger] run_ticks(s, j).boundary_spec(false).1 == Some(
            BoundaryAction::RunTick,
        ) by {
            if j > 0 {
                assert(run_ticks(s, j) == run_ticks(s1, (j - 1) as nat));
            }
        }
    }
}

/// Shutdown bound: once cancellation is observed at a boundary, no
/// further tick starts, and within two boundary steps the loop is
/// stopped, closing the channel on the way out.
pub proof fn lemma_shutdown_bound(s: Scheduler, later: bool)
    requires
        s.status is Running,
    ensures
        s.boundary_spec(true).0.status is Stopping,
        s.boundary_spec(true).1 is None,
        s.boundary_spec(true).0.boundary_spec(later).0.status is Stopped,
        s.boundary_spec(true).0.boundary_spec(later).1 == Some(BoundaryAction::CloseChannel),
        s.boundary_spec(true).0.iteration == s.iteration,
{
}

/// A stopped loop stays stopped and asks for nothing more.
pub proof fn lemma_stopped_terminal(s: Scheduler, cancelled: bool)
    requires
        s.status is Stopped,
    ensures
        s.boundary_spec(cancelled) == (s, Option::<BoundaryAction>::None),
{
}

} // verus!
