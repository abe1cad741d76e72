use tforward::fanout::{plan_forwards, FanOut};
use tforward::settings::Recepient;

#[test]
fn one_call_per_recipient() {
    let recepients = vec![
        Recepient { chat_id: 100, thread_id: None },
        Recepient { chat_id: 200, thread_id: Some(9) },
    ];
    let calls = plan_forwards(-5, &vec![3, 4, 5], &recepients);
    assert_eq!(calls.len(), 2);
    assert_eq!(calls[0].to, 100);
    assert_eq!(calls[0].thread_id, None);
    assert_eq!(calls[1].to, 200);
    assert_eq!(calls[1].thread_id, Some(9));
    for call in &calls {
        assert_eq!(call.from, -5);
        assert_eq!(call.message_ids, vec![3, 4, 5]);
    }
    assert!(plan_forwards(-5, &vec![1], &vec![]).is_empty());
}

#[test]
fn failure_does_not_settle_other_calls() {
    let mut fan = FanOut::new(3);
    assert!(!fan.finished());
    fan.record(1, false);
    assert!(!fan.finished());
    assert_eq!(fan.failures(), 1);
    fan.record(0, true);
    fan.record(2, true);
    assert!(fan.finished());
    assert_eq!(fan.failures(), 1);
}

#[test]
fn empty_fan_out_is_finished() {
    let fan = FanOut::new(0);
    assert!(fan.finished());
    assert_eq!(fan.failures(), 0);
}
