use yotei_notify::event::Action;
use yotei_notify::feed::FeedError;
use yotei_notify::feed::FeedStep;
use yotei_notify::feed::PollOutcome;
use yotei_notify::feed::feed_step;

fn good(id: &str) -> String {
    format!(
        "{{\"timestamp\":\"t\",\"table\":\"tasks\",\"action\":\"INSERT\",\"id\":\"{}\",\
         \"record\":\"r\",\"old\":null}}",
        id
    )
}

#[test]
fn well_formed_notification_becomes_event() {
    match feed_step(PollOutcome::Notification(good("7"))) {
        FeedStep::Event(p) => {
            assert_eq!(p.id, "7");
            assert_eq!(p.action, Action::INSERT);
        },
        _ => panic!("expected an event"),
    }
}

#[test]
fn malformed_notification_is_discarded() {
    match feed_step(PollOutcome::Notification("not json".to_string())) {
        FeedStep::Skip => {},
        _ => panic!("expected a discard"),
    }
}

#[test]
fn transient_gap_continues() {
    match feed_step(PollOutcome::Disconnected) {
        FeedStep::Skip => {},
        _ => panic!("expected to keep polling"),
    }
}

#[test]
fn hard_failure_terminates() {
    let e = FeedError { message: "connection closed".to_string() };
    match feed_step(PollOutcome::Failed(e)) {
        FeedStep::Terminate(e2) => assert_eq!(e2.message, "connection closed"),
        _ => panic!("expected termination"),
    }
}

// A malformed payload between two well-formed ones yields exactly the two
// well-formed events, with the feed still alive.
#[test]
fn discard_and_continue_scenario() {
    let polls = vec![
        PollOutcome::Notification(good("1")),
        PollOutcome::Notification("{\"broken\":".to_string()),
        PollOutcome::Notification(good("2")),
    ];
    let mut delivered: Vec<String> = Vec::new();
    let mut terminated = false;
    for poll in polls {
        match feed_step(poll) {
            FeedStep::Event(p) => delivered.push(p.id),
            FeedStep::Skip => {},
            FeedStep::Terminate(_) => terminated = true,
        }
    }
    assert_eq!(delivered, vec!["1".to_string(), "2".to_string()]);
    assert!(!terminated);
}

// Any number of quiet polls before an event loses nothing.
#[test]
fn gaps_then_event_scenario() {
    let mut delivered: Vec<String> = Vec::new();
    for _ in 0..5 {
        match feed_step(PollOutcome::Disconnected) {
            FeedStep::Skip => {},
            _ => panic!("gap must not end the feed"),
        }
    }
    match feed_step(PollOutcome::Notification(good("9"))) {
        FeedStep::Event(p) => delivered.push(p.id),
        _ => panic!("the eventual event must arrive"),
    }
    assert_eq!(delivered, vec!["9".to_string()]);
}

// Once the feed yields its terminal error, the delivery loop stops consuming:
// notifications queued after it are never delivered.
#[test]
fn terminal_error_stops_delivery() {
    let polls = vec![
        PollOutcome::Notification(good("1")),
        PollOutcome::Failed(FeedError { message: "broken pipe".to_string() }),
        PollOutcome::Notification(good("2")),
    ];
    let mut delivered: Vec<String> = Vec::new();
    for poll in polls {
        match feed_step(poll) {
            FeedStep::Event(p) => delivered.push(p.id),
            FeedStep::Skip => {}
            FeedStep::Terminate(_) => break,
        }
    }
    assert_eq!(delivered, vec!["1".to_string()]);
}
