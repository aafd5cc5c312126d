//! Decisions of the feed client: connecting, streaming, keep-alive and
//! reconnecting. The caller performs each action and reports what happened.
use vstd::prelude::*;
use crate::models::{BinanceTicker, KdbTicker, normalize, normalized};

verus! {

/// Seconds to wait after a disconnect before connecting again.
pub const RECONNECT_DELAY_SECS: u64 = 5;

/// Seconds between keep-alive pings while streaming.
pub const PING_INTERVAL_SECS: u64 = 30;

/// The feed's endpoint, to which the stream's name is appended.
pub const FEED_BASE_URL: &'static str = "wss://stream.binance.com:9443/ws/";

/// Suffix that names a symbol's ticker stream.
pub const TICKER_SUFFIX: &'static str = "@ticker";

pub uninterp spec fn lower_of(s: Seq<char>) -> Seq<char>;

/// Relies on `str::to_lowercase`: the result depends on the characters alone.
#[verifier::external_body]
fn lowercase(s: &str) -> (r: String)
    ensures
        r@ == lower_of(s@),
{
    s.to_lowercase()
}

/// The address of a symbol's ticker stream.
pub open spec fn stream_url_spec(symbol: Seq<char>) -> Seq<char> {
    FEED_BASE_URL@ + lower_of(symbol) + TICKER_SUFFIX@
}

#[derive(Clone, Copy, Debug, PartialEq, Eq, Structural)]
pub enum FeedState {
    Disconnected,
    Connecting,
    Streaming,
}

/// What happened since the last decision.
#[derive(Clone, Debug)]
pub enum FeedEvent {
    /// The client starts.
    Start,
    /// The reconnect delay has passed.
    DelayElapsed,
    /// The connection was established.
    Connected,
    /// The connection attempt failed.
    ConnectFailed,
    /// A text frame that holds a ticker event.
    Ticker(BinanceTicker),
    /// A text frame that is not a ticker event.
    Malformed,
    /// A keep-alive probe from the feed, with its payload.
    Ping(Vec<u8>),
    /// The keep-alive interval has passed.
    PingDue,
    /// A close frame arrived, or the stream ended.
    Closed,
    /// Reading or sending on the connection failed.
    TransportFailed,
    /// The hand-off queue's receiving side is gone.
    QueueClosed,
    /// Any other frame.
    Other,
}

/// What the caller is to do next.
#[derive(Clone, Debug)]
pub enum FeedAction {
    /// Open a connection to this address.
    Connect(String),
    /// Wait this many seconds, then report `DelayElapsed`.
    Wait(u64),
    /// Answer a keep-alive probe with this payload.
    SendPong(Vec<u8>),
    /// Send a keep-alive probe.
    SendPing,
    /// Hand this record to the queue.
    Deliver(KdbTicker),
    /// Nothing to do.
    Ignore,
}

/// The state that follows `s` on event `e`.
pub open spec fn next_state(s: FeedState, e: FeedEvent) -> FeedState {
    match (s, e) {
        (FeedState::Disconnected, FeedEvent::Start) => FeedState::Connecting,
        (FeedState::Disconnected, FeedEvent::DelayElapsed) => FeedState::Connecting,
        (FeedState::Connecting, FeedEvent::Connected) => FeedState::Streaming,
        (FeedState::Connecting, FeedEvent::ConnectFailed) => FeedState::Disconnected,
        (FeedState::Streaming, FeedEvent::Closed) => FeedState::Disconnected,
        (FeedState::Streaming, FeedEvent::TransportFailed) => FeedState::Disconnected,
        (FeedState::Streaming, FeedEvent::QueueClosed) => FeedState::Disconnected,
        (s, _) => s,
    }
}

/// Whether `a` is the action owed in state `s` on event `e`, for a client
/// of `symbol`.
pub open spec fn action_ok(symbol: Seq<char>, s: FeedState, e: FeedEvent, a: FeedAction) -> bool {
    match (s, e) {
        (FeedState::Disconnected, FeedEvent::Start) | (FeedState::Disconnected, FeedEvent::DelayElapsed) =>
            a matches FeedAction::Connect(u) && u@ == stream_url_spec(symbol),
        (FeedState::Connecting, FeedEvent::ConnectFailed)
        | (FeedState::Streaming, FeedEvent::Closed)
        | (FeedState::Streaming, FeedEvent::TransportFailed)
        | (FeedState::Streaming, FeedEvent::QueueClosed) => a == FeedAction::Wait(RECONNECT_DELAY_SECS),
        (FeedState::Streaming, FeedEvent::Ticker(t)) => a matches FeedAction::Deliver(r) && normalized(t, r),
        (FeedState::Streaming, FeedEvent::Ping(p)) => a matches FeedAction::SendPong(q) && q@ == p@,
        (FeedState::Streaming, FeedEvent::PingDue) => a is SendPing,
        _ => a is Ignore,
    }
}

/// The feed client for one symbol.
pub struct BinanceWebSocketClient {
    pub symbol: String,
    pub state: FeedState,
}

impl BinanceWebSocketClient {
    pub fn new(symbol: String) -> (r: BinanceWebSocketClient)
        ensures
            r.symbol@ == symbol@,
            r.state == FeedState::Disconnected,
    {
        BinanceWebSocketClient { symbol, state: FeedState::Disconnected }
    }

    /// The address of this client's ticker stream.
    pub fn stream_url(&self) -> (r: String)
        ensures
            r@ == stream_url_spec(self.symbol@),
    {
        let mut url = String::from_str(FEED_BASE_URL);
        let lower = lowercase(self.symbol.as_str());
        url.append(lower.as_str());
        url.append(TICKER_SUFFIX);
        url
    }

    /// Decides what to do on `event`, and moves to the next state.
    pub fn step(&mut self, event: FeedEvent) -> (a: FeedAction)
        ensures
            final(self).symbol@ == old(self).symbol@,
            final(self).state == next_state(old(self).state, event),
            action_ok(old(self).symbol@, old(self).state, event, a),
    {
        let ghost e = event;
        match (self.state, event) {
            (FeedState::Disconnected, FeedEvent::Start)
            | (FeedState::Disconnected, FeedEvent::DelayElapsed) => {
                self.state = FeedState::Connecting;
                FeedAction::Connect(self.stream_url())
            },
            (FeedState::Connecting, FeedEvent::Connected) => {
                self.state = FeedState::Streaming;
                FeedAction::Ignore
            },
            (FeedState::Connecting, FeedEvent::ConnectFailed)
            | (FeedState::Streaming, FeedEvent::Closed)
            | (FeedState::Streaming, FeedEvent::TransportFailed)
            | (FeedState::Streaming, FeedEvent::QueueClosed) => {
                self.state = FeedState::Disconnected;
                FeedAction::Wait(RECONNECT_DELAY_SECS)
            },
            (FeedState::Streaming, FeedEvent::Ticker(t)) => FeedAction::Deliver(normalize(t)),
            (FeedState::Streaming, FeedEvent::Ping(p)) => FeedAction::SendPong(p),
            (FeedState::Streaming, FeedEvent::PingDue) => FeedAction::SendPing,
            _ => FeedAction::Ignore,
        }
    }
}

/// After a connection that delivered one event and then closed, the client
/// waits the fixed delay and then connects again to the same stream address.
pub proof fn lemma_reconnect_after_close(
    symbol: Seq<char>,
    t: BinanceTicker,
    a1: FeedAction,
    a2: FeedAction,
    a3: FeedAction,
)
    requires
        action_ok(symbol, FeedState::Streaming, FeedEvent::Ticker(t), a1),
        action_ok(symbol, FeedState::Streaming, FeedEvent::Closed, a2),
        action_ok(symbol, FeedState::Disconnected, FeedEvent::DelayElapsed, a3),
    ensures
        next_state(FeedState::Streaming, FeedEvent::Ticker(t)) == FeedState::Streaming,
        a1 matches FeedAction::Deliver(r) && normalized(t, r),
        next_state(FeedState::Streaming, FeedEvent::Closed) == FeedState::Disconnected,
        a2 == FeedAction::Wait(RECONNECT_DELAY_SECS),
        next_state(FeedState::Disconnected, FeedEvent::DelayElapsed) == FeedState::Connecting,
        a3 matches FeedAction::Connect(u) && u@ == stream_url_spec(symbol),
{
}

} // verus!
