use routing::tcp_connections::{
    accept_step, bind_port, read_step, send_all_step, AcceptAction, AcceptEvent, ReadAction,
    ReadEvent, SendAllAction, SendAllEvent, WriteState, ANY_PORT, LISTEN_PORT,
};

#[test]
fn bind_falls_back_to_an_ephemeral_port() {
    assert_eq!(bind_port(0), Some(5483));
    assert_eq!(bind_port(1), Some(0));
    assert_eq!(bind_port(2), None);
    assert_eq!(LISTEN_PORT, 5483);
    assert_eq!(ANY_PORT, 0);
}

#[test]
fn accept_loop_ignores_timeouts_only() {
    assert_eq!(accept_step(AcceptEvent::Accepted), AcceptAction::Yield);
    assert_eq!(accept_step(AcceptEvent::TimedOut), AcceptAction::Retry);
    assert_eq!(accept_step(AcceptEvent::Failed), AcceptAction::Stop);
}

fn run(events: Vec<ReadEvent<u64>>) -> (Vec<u64>, Option<bool>) {
    let mut out = Vec::new();
    for ev in events {
        match read_step(ev) {
            ReadAction::Deliver(v) => out.push(v),
            ReadAction::Fail => return (out, Some(true)),
            ReadAction::Finish => return (out, Some(false)),
        }
    }
    (out, None)
}

#[test]
fn reader_delivers_in_order_then_ends_cleanly() {
    let mut evs: Vec<ReadEvent<u64>> = (0..10).map(ReadEvent::Decoded).collect();
    evs.push(ReadEvent::Eof);
    evs.push(ReadEvent::Decoded(99));
    assert_eq!(run(evs), ((0..10).collect(), Some(false)));
}

#[test]
fn reader_reports_a_decode_error_once_and_stops() {
    let evs = vec![
        ReadEvent::Decoded(1),
        ReadEvent::DecodeError,
        ReadEvent::Decoded(2),
        ReadEvent::DecodeError,
    ];
    assert_eq!(run(evs), (vec![1], Some(true)));
    assert!(matches!(read_step::<u64>(ReadEvent::ConsumerGone), ReadAction::Finish));
}

fn drive(n: usize, ok: &[bool]) -> (Vec<usize>, SendAllAction) {
    let mut sent = Vec::new();
    let mut i = 0usize;
    let mut action = SendAllAction::Pull;
    loop {
        action = match action {
            SendAllAction::Pull => send_all_step(SendAllEvent::Pulled(i < n)),
            SendAllAction::Send => {
                sent.push(i);
                let a = send_all_step(SendAllEvent::Sent(ok[i]));
                if a == SendAllAction::Pull {
                    i += 1;
                }
                a
            }
            done => return (sent, done),
        };
        if action == SendAllAction::Fail {
            assert_eq!(i, *sent.last().unwrap());
        }
    }
}

#[test]
fn send_all_stops_at_the_first_failure() {
    let (sent, end) = drive(5, &[true, true, false, true, true]);
    assert_eq!(sent, vec![0, 1, 2]);
    assert_eq!(end, SendAllAction::Fail);
}

#[test]
fn send_all_sends_everything_when_nothing_fails() {
    assert_eq!(drive(3, &[true, true, true]), (vec![0, 1, 2], SendAllAction::Done));
    assert_eq!(drive(0, &[]), (vec![], SendAllAction::Done));
}

#[test]
fn write_half_breaks_on_failure_and_closes_once() {
    let mut w = WriteState::Open;
    assert!(w.can_send());
    w.record_send(true);
    assert_eq!(w, WriteState::Open);
    w.record_send(false);
    assert_eq!(w, WriteState::Broken);
    assert!(!w.can_send());
    assert!(w.close());
    assert_eq!(w, WriteState::Closed);
    assert!(!w.close());
    assert_eq!(w, WriteState::Closed);
}
