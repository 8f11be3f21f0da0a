use mqttd::auth::MakeOpaAuthorizer;
use mqttd::clock::{filename, pointer_name, Timestamp};
use mqttd::dir::Directory;
use mqttd::persist::FilePersistor;
use mqttd::snapshot::{
    next_tick_deadline, LifecycleStage, Persistor, SnapshotterEvent, Snapshotter, StepOutcome,
};
use mqttd::state::BrokerState;

fn ts(minute: u8) -> Timestamp {
    Timestamp { year: 2024, month: 1, day: 1, hour: 0, minute, second: 0, millis: 0 }
}

#[test]
fn two_requests_store_sequentially_and_shutdown_hands_back() {
    let persistor = Persistor::File(FilePersistor::new(Directory::new()));
    let sn = Snapshotter::new(persistor);
    // first request: stored to completion before the next event is taken
    let sn = match sn.step(SnapshotterEvent::Snapshot(BrokerState::new(vec![1], vec![])), ts(0)) {
        StepOutcome::Continue(next) => next,
        StepOutcome::HandBack(_) => panic!("a snapshot request must not stop the snapshotter"),
    };
    // second request
    let sn = match sn.step(SnapshotterEvent::Snapshot(BrokerState::new(vec![2], vec![])), ts(5)) {
        StepOutcome::Continue(next) => next,
        StepOutcome::HandBack(_) => panic!("a snapshot request must not stop the snapshotter"),
    };
    // shutdown: ownership of the persistor comes back, after the stores
    let mut handed_back = match sn.step(SnapshotterEvent::Shutdown, ts(6)) {
        StepOutcome::Continue(_) => panic!("shutdown must hand the persistor back"),
        StepOutcome::HandBack(p) => p,
    };
    let back = handed_back.load().expect("load succeeds");
    assert_eq!(back.sessions, vec![2]);
    match handed_back {
        Persistor::File(f) => {
            let d = f.into_directory();
            // both artifacts exist: the writes never interleaved or clobbered
            assert!(d.get(&filename(ts(0))).is_some());
            assert!(d.get(&filename(ts(5))).is_some());
            assert_eq!(d.get(&pointer_name()), Some(filename(ts(5))));
        }
        Persistor::Null(_) => panic!("the file-backed persistor must come back"),
    }
}

#[test]
fn shutdown_after_store_includes_that_store() {
    let persistor = Persistor::File(FilePersistor::new(Directory::new()));
    let sn = Snapshotter::new(persistor);
    let sn = match sn.step(SnapshotterEvent::Snapshot(BrokerState::new(vec![9], vec![8])), ts(1)) {
        StepOutcome::Continue(next) => next,
        StepOutcome::HandBack(_) => panic!("a snapshot request must not stop the snapshotter"),
    };
    let mut p = match sn.step(SnapshotterEvent::Shutdown, ts(2)) {
        StepOutcome::Continue(_) => panic!("shutdown must hand the persistor back"),
        StepOutcome::HandBack(p) => p,
    };
    // the in-flight store completed before the hand-back
    let back = p.load().expect("load succeeds");
    assert_eq!(back.sessions, vec![9]);
    assert_eq!(back.retained, vec![8]);
}

#[test]
fn null_backed_snapshotter_accepts_requests() {
    let sn = Snapshotter::new(Persistor::Null(mqttd::persist::NullPersistor));
    let sn = match sn.step(SnapshotterEvent::Snapshot(BrokerState::new(vec![1], vec![])), ts(0)) {
        StepOutcome::Continue(next) => next,
        StepOutcome::HandBack(_) => panic!("a snapshot request must not stop the snapshotter"),
    };
    let mut p = match sn.step(SnapshotterEvent::Shutdown, ts(1)) {
        StepOutcome::Continue(_) => panic!("shutdown must hand the persistor back"),
        StepOutcome::HandBack(p) => p,
    };
    assert!(p.load().expect("load succeeds").sessions.is_empty());
}

#[test]
fn lifecycle_advances_forward_only() {
    let s = LifecycleStage::Running;
    let s = s.advance();
    assert!(matches!(s, LifecycleStage::ShutdownRequested));
    let s = s.advance();
    assert!(matches!(s, LifecycleStage::Draining));
    let s = s.advance();
    assert!(matches!(s, LifecycleStage::Stopped));
    let s = s.advance();
    assert!(matches!(s, LifecycleStage::Stopped));
}

#[test]
fn first_tick_is_one_full_interval_after_start() {
    let start: u64 = 1_000;
    let period: u64 = 300_000;
    assert_eq!(next_tick_deadline(start, period), 301_000);
    assert_eq!(next_tick_deadline(301_000, period), 601_000);
}

#[test]
fn authorizer_factory_keeps_module_bytes() {
    let make = MakeOpaAuthorizer::from_bytes(vec![0, 97, 115, 109]).expect("from_bytes succeeds");
    assert_eq!(make.into_module(), vec![0, 97, 115, 109]);
}
