use cleargate_flow::trigger::{TriggerDispatch, TriggerStartup};

#[test]
fn duplicate_idempotency_keys_are_skipped() {
    let mut d = TriggerDispatch::new();
    assert!(d.should_dispatch(Some("evt-1")));
    assert!(d.should_dispatch(Some("evt-2")));
    assert!(!d.should_dispatch(Some("evt-1")));
    assert!(d.should_dispatch(None));
    assert!(d.should_dispatch(None));
    assert!(!d.should_dispatch(Some("evt-2")));
}

#[test]
fn triggers_start_once() {
    let mut s = TriggerStartup::new(true);
    assert!(s.begin());
    assert!(!s.begin());
    let mut none = TriggerStartup::new(false);
    assert!(!none.begin());
}

#[test]
fn only_the_first_event_of_each_key_runs() {
    let mut d = TriggerDispatch::new();
    let keys = [Some("a"), None, Some("b"), Some("a"), None, Some("b"), Some("c")];
    let ran: Vec<bool> = keys.iter().map(|k| d.should_dispatch(*k)).collect();
    assert_eq!(ran, vec![true, true, true, false, true, false, true]);
}
