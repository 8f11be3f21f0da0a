use mqttd::state::BrokerState;

#[test]
fn it_works() {
    assert_eq!(2 + 2, 4);
}

#[test]
fn lib_it_works() {
    assert_eq!(2 + 2, 4);
}

#[test]
fn state_carries_its_payloads() {
    let s = BrokerState::new(vec![1, 2], vec![3]);
    assert_eq!(s.sessions, vec![1, 2]);
    assert_eq!(s.retained, vec![3]);
}
