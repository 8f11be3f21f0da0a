use mqttd::clock::{filename, lex_less, pointer_name, Timestamp};
use mqttd::codec::{decode_state, encode_frame, encode_state};
use mqttd::dir::Directory;
use mqttd::persist::{ErrorReason, FilePersistor, NullPersistor, Persist, STATE_COUNT};
use mqttd::state::BrokerState;

fn ts(year: u16, month: u8, day: u8, hour: u8, minute: u8, second: u8, millis: u16) -> Timestamp {
    Timestamp { year, month, day, hour, minute, second, millis }
}

#[test]
fn default_state_is_empty() {
    let s = BrokerState::default();
    assert!(s.sessions.is_empty());
    assert!(s.retained.is_empty());
}

#[test]
fn codec_round_trip() {
    let s = BrokerState::new(vec![1, 2, 3, 4], vec![9, 8]);
    let bytes = encode_state(&s);
    let back = decode_state(&bytes).expect("artifact decodes");
    assert_eq!(back.sessions, vec![1, 2, 3, 4]);
    assert_eq!(back.retained, vec![9, 8]);
}

#[test]
fn artifact_bytes_are_compressed_not_raw() {
    let s = BrokerState::new(vec![7; 64], Vec::new());
    let framed = encode_frame(&s);
    let artifact = encode_state(&s);
    // the artifact is a gzip stream, not the raw frame handed back unchanged
    assert_ne!(framed, artifact);
    assert_eq!(&artifact[0..2], &[0x1f, 0x8b]);
}

#[test]
fn garbage_does_not_decode() {
    assert!(decode_state(&vec![0, 1, 2, 3]).is_none());
    assert!(decode_state(&Vec::new()).is_none());
}

#[test]
fn filename_format_matches_timestamp() {
    let name = filename(ts(2024, 1, 1, 0, 0, 0, 0));
    assert_eq!(name, b"state.2024-01-01T00:00:00.000+0000.dat".to_vec());
    let name2 = filename(ts(2023, 12, 31, 23, 59, 58, 987));
    assert_eq!(name2, b"state.2023-12-31T23:59:58.987+0000.dat".to_vec());
}

#[test]
fn pointer_name_is_stem_and_extension() {
    assert_eq!(pointer_name(), b"state.dat".to_vec());
}

#[test]
fn filenames_sort_chronologically() {
    let t1 = ts(2024, 1, 1, 0, 0, 0, 999);
    let t2 = ts(2024, 1, 1, 0, 0, 1, 0);
    let t3 = ts(2024, 2, 1, 0, 0, 0, 0);
    let n1 = filename(t1);
    let n2 = filename(t2);
    let n3 = filename(t3);
    assert!(lex_less(&n1, &n2));
    assert!(lex_less(&n2, &n3));
    assert!(!lex_less(&n2, &n1));
    assert!(n1 < n2 && n2 < n3);
}

#[test]
fn from_clock_keeps_fields_in_range() {
    let t = Timestamp::from_clock(2024, 6, 15, 12, 30, 45, 500);
    assert_eq!((t.year, t.month, t.day), (2024, 6, 15));
    assert_eq!((t.hour, t.minute, t.second, t.millis), (12, 30, 45, 500));
    // a leap-second reading folds into the last representable millisecond
    let leap = Timestamp::from_clock(2024, 6, 30, 23, 59, 59, 1500);
    assert_eq!(leap.millis, 999);
}

#[test]
fn load_on_empty_directory_returns_default() {
    let mut p = FilePersistor::new(Directory::new());
    let s = p.load().expect("load of empty directory succeeds");
    assert!(s.sessions.is_empty());
    assert!(s.retained.is_empty());
}

#[test]
fn null_persistor_loads_default_and_discards() {
    let mut p = NullPersistor;
    let s = p.load().expect("null load succeeds");
    assert!(s.sessions.is_empty());
    assert!(p.store(BrokerState::new(vec![1], vec![2])).is_ok());
    let again = p.load().expect("null load succeeds");
    assert!(again.sessions.is_empty());
}

#[test]
fn store_then_fresh_load_round_trips() {
    let mut p = FilePersistor::new(Directory::new());
    let s = BrokerState::new(vec![5, 6, 7], vec![1]);
    p.store_at(BrokerState::new(vec![5, 6, 7], vec![1]), ts(2024, 1, 1, 0, 0, 0, 0))
        .expect("store succeeds");
    // a fresh persistor over the same directory sees the stored state
    let mut fresh = FilePersistor::new(p.into_directory());
    let back = fresh.load().expect("load succeeds");
    assert_eq!(back.sessions, s.sessions);
    assert_eq!(back.retained, s.retained);
}

#[test]
fn wall_clock_store_round_trips() {
    let mut p = FilePersistor::new(Directory::new());
    let s = BrokerState::new(vec![42; 10], vec![7]);
    p.store(BrokerState::new(vec![42; 10], vec![7])).expect("store succeeds");
    let back = p.load().expect("load succeeds");
    assert_eq!(back.sessions, s.sessions);
    assert_eq!(back.retained, s.retained);
}

#[test]
fn retention_scenario_keeps_window_and_pointer() {
    assert_eq!(STATE_COUNT, 2);
    let t1 = ts(2024, 1, 1, 0, 0, 0, 0);
    let t2 = ts(2024, 1, 1, 0, 5, 0, 0);
    let t3 = ts(2024, 1, 1, 0, 10, 0, 0);
    let mut p = FilePersistor::new(Directory::new());
    // empty directory: load yields the default state
    assert!(p.load().expect("load").sessions.is_empty());
    p.store_at(BrokerState::new(vec![1], vec![]), t1).expect("store a");
    p.store_at(BrokerState::new(vec![2], vec![]), t2).expect("store b");
    {
        // both artifacts present while within the window
        let d = p.into_directory();
        assert!(d.get(&filename(t1)).is_some());
        assert!(d.get(&filename(t2)).is_some());
        assert_eq!(d.get(&pointer_name()), Some(filename(t2)));
        p = FilePersistor::new(d);
    }
    p.store_at(BrokerState::new(vec![3], vec![]), t3).expect("store c");
    let d = p.into_directory();
    // the oldest artifact was pruned; the two newest remain
    assert!(d.get(&filename(t1)).is_none());
    assert!(d.get(&filename(t2)).is_some());
    assert!(d.get(&filename(t3)).is_some());
    assert_eq!(d.get(&pointer_name()), Some(filename(t3)));
    let mut fresh = FilePersistor::new(d);
    assert_eq!(fresh.load().expect("load").sessions, vec![3]);
}

#[test]
fn aborted_store_leaves_directory_unchanged() {
    let t1 = ts(2024, 1, 1, 0, 0, 0, 0);
    let t2 = ts(2024, 1, 1, 0, 5, 0, 0);
    let mut p = FilePersistor::new(Directory::new());
    p.store_at(BrokerState::new(vec![1], vec![]), t1).expect("store a");
    let r = p.store_aborted_at(t2);
    assert_eq!(r, Err(ErrorReason::Serialize));
    let d = p.into_directory();
    // no new artifact remains and the pointer is unchanged
    assert!(d.get(&filename(t2)).is_none());
    assert_eq!(d.get(&pointer_name()), Some(filename(t1)));
    let mut fresh = FilePersistor::new(d);
    assert_eq!(fresh.load().expect("load").sessions, vec![1]);
}

#[test]
fn aborted_store_on_empty_directory_leaves_no_pointer() {
    let t = ts(2024, 1, 1, 0, 0, 0, 0);
    let mut p = FilePersistor::new(Directory::new());
    assert_eq!(p.store_aborted_at(t), Err(ErrorReason::Serialize));
    let d = p.into_directory();
    assert!(d.get(&pointer_name()).is_none());
    assert!(d.get(&filename(t)).is_none());
}

#[test]
fn dangling_pointer_is_a_file_open_error() {
    let mut d = Directory::new();
    d.set(pointer_name(), b"state.2024-01-01T00:00:00.000+0000.dat".to_vec());
    let mut p = FilePersistor::new(d);
    assert_eq!(p.load().err(), Some(ErrorReason::FileOpen));
}

#[test]
fn corrupt_artifact_is_a_deserialize_error() {
    let t = ts(2024, 1, 1, 0, 0, 0, 0);
    let mut d = Directory::new();
    d.set(filename(t), vec![0, 1, 2]);
    d.set(pointer_name(), filename(t));
    let mut p = FilePersistor::new(d);
    assert_eq!(p.load().err(), Some(ErrorReason::Deserialize));
}

#[test]
fn error_messages_name_the_failure() {
    assert_eq!(ErrorReason::FileOpen.message(), "failed to open file");
    assert_eq!(ErrorReason::FileUnlink.message(), "failed to remove file");
    assert_eq!(ErrorReason::ReadDir.message(), "failed to read contents of directory");
    assert_eq!(ErrorReason::Symlink.message(), "failed to create symlink");
    assert_eq!(ErrorReason::SymlinkUnlink.message(), "failed to remove symlink");
    assert_eq!(ErrorReason::Serialize.message(), "failed to serialize state");
    assert_eq!(ErrorReason::Deserialize.message(), "failed to deserialize state");
}

#[test]
fn custom_retention_window_is_respected() {
    let t1 = ts(2024, 1, 1, 0, 0, 0, 0);
    let t2 = ts(2024, 1, 2, 0, 0, 0, 0);
    let mut p = FilePersistor::with_retention(Directory::new(), 1);
    p.store_at(BrokerState::new(vec![1], vec![]), t1).expect("store a");
    p.store_at(BrokerState::new(vec![2], vec![]), t2).expect("store b");
    let d = p.into_directory();
    assert!(d.get(&filename(t1)).is_none());
    assert!(d.get(&filename(t2)).is_some());
    assert_eq!(d.get(&pointer_name()), Some(filename(t2)));
}
