use process_monitor::sched::{
    plan_delivery, resolve_mode, send_standalone, BoundaryAction, ChannelMode, ConnectFault,
    DeliveryOutcome, DeliveryPlan, Scheduler, Status,
};

#[test]
fn new_scheduler_is_running_at_zero() {
    let s = Scheduler::new(ChannelMode::Connected);
    assert_eq!(s.status, Status::Running);
    assert_eq!(s.mode, ChannelMode::Connected);
    assert_eq!(s.iteration, 0);
}

#[test]
fn connect_success_gives_connected_mode() {
    let mode = resolve_mode(&Ok(()));
    assert_eq!(mode, ChannelMode::Connected);
    assert_eq!(plan_delivery(&mode), DeliveryPlan::TransportSend);
}

#[test]
fn connect_failure_gives_standalone_mode() {
    let fault = ConnectFault {
        endpoint: b"\\\\.\\pipe\\AegisPipe_process_monitor".to_vec(),
        cause: b"no supervisor".to_vec(),
    };
    let mode = resolve_mode(&Err(fault));
    assert_eq!(mode, ChannelMode::Standalone);
    assert_eq!(plan_delivery(&mode), DeliveryPlan::NoOp);
}

#[test]
fn scenario_standalone_loop_keeps_running() {
    // connect failed; the loop runs at least 3 iterations, each tick a
    // trivial-success delivery.
    let mode = resolve_mode(&Err(ConnectFault { endpoint: b"p".to_vec(), cause: b"c".to_vec() }));
    let mut s = Scheduler::new(mode);
    for expected in 1..=3u64 {
        let (next, action) = s.on_boundary(false);
        assert_eq!(action, Some(BoundaryAction::RunTick));
        assert_eq!(next.status, Status::Running);
        assert_eq!(next.iteration, expected);
        assert_eq!(plan_delivery(&next.mode), DeliveryPlan::NoOp);
        assert!(send_standalone(&b"payload".to_vec()).is_ok());
        s = next.absorb_tick(DeliveryOutcome::SkippedStandalone);
        assert_eq!(s, next);
    }
    assert_eq!(s.iteration, 3);
}

#[test]
fn scenario_cancel_after_third_iteration() {
    // the flag is set during iteration 3: the loop stops after that
    // tick completes and no fourth tick starts.
    let mut s = Scheduler::new(ChannelMode::Connected);
    for _ in 0..3 {
        let (next, action) = s.on_boundary(false);
        assert_eq!(action, Some(BoundaryAction::RunTick));
        s = next.absorb_tick(DeliveryOutcome::Delivered);
    }
    assert_eq!(s.iteration, 3);
    let (stopping, action) = s.on_boundary(true);
    assert_eq!(action, None);
    assert_eq!(stopping.status, Status::Stopping);
    assert_eq!(stopping.iteration, 3);
    let (stopped, close) = stopping.on_boundary(true);
    assert_eq!(close, Some(BoundaryAction::CloseChannel));
    assert_eq!(stopped.status, Status::Stopped);
    let (still, nothing) = stopped.on_boundary(false);
    assert_eq!(still, stopped);
    assert_eq!(nothing, None);
}

#[test]
fn tick_failures_never_stop_the_loop() {
    let s = Scheduler::new(ChannelMode::Connected);
    let (s, _) = s.on_boundary(false);
    assert_eq!(s.absorb_tick(DeliveryOutcome::SendFailed), s);
    assert_eq!(s.absorb_tick(DeliveryOutcome::SerializeFailed), s);
    assert_eq!(s.absorb_tick(DeliveryOutcome::Delivered), s);
    assert_eq!(s.status, Status::Running);
}
