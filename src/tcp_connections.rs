use vstd::prelude::*;

verus! {

/// Port a node listens on when it is free.
pub const LISTEN_PORT: u16 = 5483;

/// Port number that asks the operating system for any free port.
pub const ANY_PORT: u16 = 0;

/// The port to try at each bind attempt: the designated port first, then an
/// ephemeral one; `None` once both failed.
pub fn bind_port(attempt: usize) -> (r: Option<u16>)
    ensures
        attempt == 0 ==> r == Some(LISTEN_PORT),
        attempt == 1 ==> r == Some(ANY_PORT),
        attempt >= 2 <==> r is None,
{
    if attempt == 0 {
        Some(LISTEN_PORT)
    } else if attempt == 1 {
        Some(ANY_PORT)
    } else {
        None
    }
}

/// What the accept loop of a listener learns from one accept.
#[derive(Clone, Copy, Debug, PartialEq, Eq, Structural)]
pub enum AcceptEvent {
    /// A connection was accepted.
    Accepted,
    /// The accept timed out.
    TimedOut,
    /// The accept failed otherwise.
    Failed,
}

/// What the accept loop does next.
#[derive(Clone, Copy, Debug, PartialEq, Eq, Structural)]
pub enum AcceptAction {
    /// Hand the connection to the consumer, then accept again.
    Yield,
    /// Accept again.
    Retry,
    /// Report the error to the consumer once, then end the sequence.
    Stop,
}

pub open spec fn accept_step_spec(ev: AcceptEvent) -> AcceptAction {
    match ev {
        AcceptEvent::Accepted => AcceptAction::Yield,
        AcceptEvent::TimedOut => AcceptAction::Retry,
        AcceptEvent::Failed => AcceptAction::Stop,
    }
}

/// Transient timeouts are ignored; any other accept error ends the sequence.
pub fn accept_step(ev: AcceptEvent) -> (r: AcceptAction)
    ensures
        r == accept_step_spec(ev),
{
    match ev {
        AcceptEvent::Accepted => AcceptAction::Yield,
        AcceptEvent::TimedOut => AcceptAction::Retry,
        AcceptEvent::Failed => AcceptAction::Stop,
    }
}

/// State of the write half of a connection.
#[derive(Clone, Copy, Debug, PartialEq, Eq, Structural)]
pub enum WriteState {
    Open,
    /// A send failed; nothing more is sent.
    Broken,
    /// The write direction was shut down.
    Closed,
}

impl WriteState {
    /// Whether a value may be sent.
    pub fn can_send(&self) -> (r: bool)
        ensures
            r == (*self == WriteState::Open),
    {
        match self {
            WriteState::Open => true,
            _ => false,
        }
    }

    /// Records the outcome of a send: a failed send breaks the write half.
    pub fn record_send(&mut self, ok: bool)
        requires
            *old(self) == WriteState::Open,
        ensures
            *final(self) == if ok {
                WriteState::Open
            } else {
                WriteState::Broken
            },
    {
        if !ok {
            *self = WriteState::Broken;
        }
    }

    /// Closes the write half. Returns whether the write direction of the
    /// socket must be shut down now, which is so on the first close only.
    pub fn close(&mut self) -> (r: bool)
        ensures
            *final(self) == WriteState::Closed,
            r == (*old(self) != WriteState::Closed),
    {
        let r = match self {
            WriteState::Closed => false,
            _ => true,
        };
        *self = WriteState::Closed;
        r
    }
}

/// What the decode loop of a connection's read half learns from one attempt.
#[derive(Clone, Copy, Debug)]
pub enum ReadEvent<T> {
    /// One value was decoded.
    Decoded(T),
    /// The bytes did not decode.
    DecodeError,
    /// The peer closed its write direction.
    Eof,
    /// The consumer of the values is gone.
    ConsumerGone,
}

/// What the decode loop does next.
#[derive(Clone, Copy, Debug)]
pub enum ReadAction<T> {
    /// Hand the value to the consumer and decode the next one.
    Deliver(T),
    /// Report the failure to the consumer once, then stop.
    Fail,
    /// Stop without an error.
    Finish,
}

pub open spec fn read_step_spec<T>(ev: ReadEvent<T>) -> ReadAction<T> {
    match ev {
        ReadEvent::Decoded(v) => ReadAction::Deliver(v),
        ReadEvent::DecodeError => ReadAction::Fail,
        ReadEvent::Eof => ReadAction::Finish,
        ReadEvent::ConsumerGone => ReadAction::Finish,
    }
}

/// One decision of the decode loop. Whatever it decides to stop on, the loop
/// shuts the read direction down as it ends.
pub fn read_step<T>(ev: ReadEvent<T>) -> (r: ReadAction<T>)
    ensures
        r == read_step_spec(ev),
{
    match ev {
        ReadEvent::Decoded(v) => ReadAction::Deliver(v),
        ReadEvent::DecodeError => ReadAction::Fail,
        ReadEvent::Eof => ReadAction::Finish,
        ReadEvent::ConsumerGone => ReadAction::Finish,
    }
}

/// What the decode loop has handed out after a series of events: the values
/// delivered in order, and whether it stopped, with or without a failure.
pub open spec fn run_reader<T>(events: Seq<ReadEvent<T>>) -> (Seq<T>, Option<bool>)
    decreases events.len(),
{
    if events.len() == 0 {
        (Seq::empty(), None)
    } else {
        let prev = run_reader(events.drop_last());
        if prev.1 is Some {
            prev
        } else {
            match read_step_spec(events.last()) {
                ReadAction::Deliver(v) => (prev.0.push(v), None),
                ReadAction::Fail => (prev.0, Some(true)),
                ReadAction::Finish => (prev.0, Some(false)),
            }
        }
    }
}

pub open spec fn decoded_all<T>(values: Seq<T>) -> Seq<ReadEvent<T>> {
    values.map_values(|v: T| ReadEvent::Decoded(v))
}

/// Values decoded one after another and then the peer's close: the consumer
/// receives exactly those values, in order, and the stream ends without an
/// error.
pub proof fn lemma_in_order_then_clean_end<T>(values: Seq<T>)
    ensures
        run_reader(decoded_all(values)) == (values, None::<bool>),
        run_reader(decoded_all(values).push(ReadEvent::Eof)) == (values, Some(false)),
    decreases values.len(),
{
    let evs = decoded_all(values);
    let closed = evs.push(ReadEvent::Eof);
    assert(closed.last() == ReadEvent::<T>::Eof);
    if values.len() == 0 {
        assert(evs =~= Seq::empty());
        assert(evs.push(ReadEvent::Eof).drop_last() =~= evs);
    } else {
        let init = values.drop_last();
        lemma_in_order_then_clean_end(init);
        assert(evs.drop_last() =~= decoded_all(init));
        assert(init.push(values.last()) =~= values);
        assert(evs.push(ReadEvent::Eof).drop_last() =~= evs);
    }
    assert(closed.drop_last() =~= evs);
    assert(run_reader(evs) == (values, None::<bool>));
}

/// After a failure or a clean end, later events hand out nothing more.
pub proof fn lemma_nothing_after_end<T>(events: Seq<ReadEvent<T>>, more: Seq<ReadEvent<T>>)
    requires
        run_reader(events).1 is Some,
    ensures
        run_reader(events + more) == run_reader(events),
    decreases more.len(),
{
    if more.len() == 0 {
        assert(events + more =~= events);
    } else {
        let init = more.drop_last();
        lemma_nothing_after_end(events, init);
        assert((events + more).drop_last() =~= events + init);
    }
}

/// What `send_all` learns: whether its sequence gave one more item, or whether
/// the last send succeeded.
#[derive(Clone, Copy, Debug, PartialEq, Eq, Structural)]
pub enum SendAllEvent {
    Pulled(bool),
    Sent(bool),
}

/// What `send_all` does next.
#[derive(Clone, Copy, Debug, PartialEq, Eq, Structural)]
pub enum SendAllAction {
    /// Take the next item of the sequence.
    Pull,
    /// Send the item just taken.
    Send,
    /// Every item was sent.
    Done,
    /// The item just sent failed: hand it back with the rest of the sequence.
    Fail,
}

pub open spec fn send_all_step_spec(ev: SendAllEvent) -> SendAllAction {
    match ev {
        SendAllEvent::Pulled(true) => SendAllAction::Send,
        SendAllEvent::Pulled(false) => SendAllAction::Done,
        SendAllEvent::Sent(true) => SendAllAction::Pull,
        SendAllEvent::Sent(false) => SendAllAction::Fail,
    }
}

/// One decision of `send_all`: items are sent one by one, and the first
/// failure stops it.
pub fn send_all_step(ev: SendAllEvent) -> (r: SendAllAction)
    ensures
        r == send_all_step_spec(ev),
{
    match ev {
        SendAllEvent::Pulled(true) => SendAllAction::Send,
        SendAllEvent::Pulled(false) => SendAllAction::Done,
        SendAllEvent::Sent(true) => SendAllAction::Pull,
        SendAllEvent::Sent(false) => SendAllAction::Fail,
    }
}

/// Where `send_all` stands over a sequence of `n` items whose sends have the
/// outcomes `ok`: the index of the current item and the action taken on it,
/// after `steps` decisions, starting with a pull of item 0.
pub open spec fn drive_send_all(n: nat, ok: Seq<bool>, steps: nat) -> (nat, SendAllAction)
    decreases steps,
{
    if steps == 0 {
        (0, SendAllAction::Pull)
    } else {
        let (i, a) = drive_send_all(n, ok, (steps - 1) as nat);
        match a {
            SendAllAction::Pull => (i, send_all_step_spec(SendAllEvent::Pulled(i < n))),
            SendAllAction::Send => {
                let next = send_all_step_spec(SendAllEvent::Sent(ok[i as int]));
                if next == SendAllAction::Pull {
                    (i + 1, next)
                } else {
                    (i, next)
                }
            },
            _ => (i, a),
        }
    }
}

/// Before the first failure, item `j` is pulled at step `2j` and sent at step
/// `2j + 1`.
pub proof fn lemma_send_all_prefix(n: nat, ok: Seq<bool>, j: nat)
    requires
        j < n,
        j < ok.len(),
        forall|m: int| 0 <= m < j ==> ok[m],
    ensures
        drive_send_all(n, ok, 2 * j) == (j, SendAllAction::Pull),
        drive_send_all(n, ok, 2 * j + 1) == (j, SendAllAction::Send),
    decreases j,
{
    if j > 0 {
        lemma_send_all_prefix(n, ok, (j - 1) as nat);
        assert(drive_send_all(n, ok, 2 * j) == drive_send_all(n, ok, (2 * (j - 1) + 2) as nat));
    }
    assert(drive_send_all(n, ok, 2 * j + 1) == drive_send_all(n, ok, (2 * j + 1) as nat));
}

/// When the send of item `k` is the first to fail, items `0..k` were each
/// pulled and sent, item `k` was sent and failed, and `send_all` stops there
/// with items `k + 1..n` never pulled.
pub proof fn lemma_send_all_stops_at_first_failure(n: nat, ok: Seq<bool>, k: nat, later: nat)
    requires
        k < n,
        k < ok.len(),
        forall|m: int| 0 <= m < k ==> ok[m],
        !ok[k as int],
    ensures
        forall|j: nat|
            j <= k ==> #[trigger] drive_send_all(n, ok, 2 * j + 1) == (j, SendAllAction::Send),
        drive_send_all(n, ok, 2 * k + 2 + later) == (k, SendAllAction::Fail),
    decreases later,
{
    assert forall|j: nat| j <= k implies #[trigger] drive_send_all(n, ok, 2 * j + 1) == (
        j,
        SendAllAction::Send,
    ) by {
        lemma_send_all_prefix(n, ok, j);
    }
    if later > 0 {
        lemma_send_all_stops_at_first_failure(n, ok, k, (later - 1) as nat);
        assert(drive_send_all(n, ok, 2 * k + 2 + later) == drive_send_all(
            n,
            ok,
            ((2 * k + 2 + (later - 1)) + 1) as nat,
        ));
    } else {
        lemma_send_all_prefix(n, ok, k);
    }
}

/// When every send succeeds, `send_all` ends with `Done` after the last item.
pub proof fn lemma_send_all_done(n: nat, ok: Seq<bool>)
    requires
        n <= ok.len(),
        forall|m: int| 0 <= m < n ==> ok[m],
    ensures
        drive_send_all(n, ok, 2 * n + 1) == (n, SendAllAction::Done),
{
    if n > 0 {
        lemma_send_all_prefix(n, ok, (n - 1) as nat);
        assert(drive_send_all(n, ok, (2 * (n - 1) + 1) as nat) == (
            (n - 1) as nat,
            SendAllAction::Send,
        ));
        assert(drive_send_all(n, ok, (2 * (n - 1) + 2) as nat) == (n, SendAllAction::Pull));
        assert(drive_send_all(n, ok, 2 * n) == (n, SendAllAction::Pull));
    } else {
        assert(drive_send_all(n, ok, 0) == (0nat, SendAllAction::Pull));
    }
    assert(drive_send_all(n, ok, (2 * n + 1) as nat) == (n, SendAllAction::Done));
}

} // verus!
