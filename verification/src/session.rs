//! The per-connection session loop's decisions: what one inbound event
//! (protocol frame, broadcast delivery, heartbeat tick) does to the session
//! state and what outward action it demands. The unverified loop around
//! this performs the actions and hands back the next event.

use vstd::prelude::*;
use crate::text::TextCommand;
use crate::text::TextCommandSpec;
use crate::text::dispatch;
use crate::text::dispatch_spec;
use crate::text::opt_name_view;
use crate::text::join_confirmation;
use crate::CLIENT_TIMEOUT_MS;
use crate::HEARTBEAT_INTERVAL_MS;

verus! {

/// The state one session loop carries across iterations: the assigned
/// connection id, the optional display name, and the time of the last
/// liveness signal.
pub struct SessionState {
    pub conn_id: u64,
    pub name: Option<String>,
    pub last_heartbeat_ms: u64,
}

/// One protocol frame read from the client's transport.
pub enum Frame {
    Ping,
    Pong,
    Text { text: String },
    Binary,
    Close,
}

/// One event the session loop's select can wake on.
pub enum SessionEvent {
    /// A frame arrived from the client.
    Frame { frame: Frame },
    /// The transport failed to read.
    StreamError,
    /// The transport ended without a close frame.
    StreamEnd,
    /// Broadcast text arrived on this connection's own channel.
    Broadcast { text: String },
    /// This connection's channel is gone while the session lives: the
    /// coordinator broke its contract.
    BroadcastClosed,
    /// The heartbeat timer ticked.
    Tick,
}

/// The outward action one event demands.
pub enum SessionStep {
    /// Nothing outward.
    Idle,
    /// Answer the ping with a pong.
    ReplyPong,
    /// Send one text frame back to this client.
    SendText { text: String },
    /// Ask the coordinator for the room list and send each name back as its
    /// own text frame.
    SubmitList,
    /// Ask the coordinator to move this connection into `room`, then send
    /// the confirmation back.
    SubmitJoin { room: String, confirm: String },
    /// Hand the composed chat text to the coordinator for broadcast.
    SubmitChat { text: String },
    /// Send a ping frame to the client.
    SendPing,
    /// Leave the loop; `peer_close` says the peer sent a close frame, whose
    /// reason is echoed back on closing.
    Stop { peer_close: bool },
    /// Abort the process loudly: an internal invariant is broken.
    Abort,
}

/// What a text frame does: the step taken and the display name afterwards,
/// both pinned by the dispatched command.
pub open spec fn text_step(
    t: Seq<char>,
    old_name: Option<Seq<char>>,
    r: SessionStep,
    new_name: Option<Seq<char>>,
) -> bool {
    match dispatch_spec(t, old_name) {
        TextCommandSpec::ListRooms => r is SubmitList && new_name == old_name,
        TextCommandSpec::Join { room } => {
            &&& (r matches SessionStep::SubmitJoin { room: rm, confirm } && rm@ == room && confirm@
                == "joined "@ + room)
            &&& new_name == old_name
        },
        TextCommandSpec::SetName { name } => {
            &&& r is Idle
            &&& (new_name matches Some(n) && n == name)
        },
        TextCommandSpec::Notice { text } => {
            &&& (r matches SessionStep::SendText { text: tx } && tx@ == text)
            &&& new_name == old_name
        },
        TextCommandSpec::Chat { composed } => {
            &&& (r matches SessionStep::SubmitChat { text: tx } && tx@ == composed)
            &&& new_name == old_name
        },
    }
}

impl SessionState {
    /// A fresh session for connection `conn_id`, alive as of `now_ms`, with
    /// no display name yet.
    pub fn new(conn_id: u64, now_ms: u64) -> (s: Self)
        ensures
            s.conn_id == conn_id,
            s.name is None,
            s.last_heartbeat_ms == now_ms,
    {
        SessionState { conn_id, name: None, last_heartbeat_ms: now_ms }
    }

    /// Whether the liveness window is exceeded at time `now_ms`.
    pub open spec fn timed_out(self, now_ms: u64) -> bool {
        now_ms > self.last_heartbeat_ms + CLIENT_TIMEOUT_MS
    }

    /// Handle a text frame: dispatch it and update the display name when it
    /// sets one.
    fn on_text(&mut self, text: &str) -> (r: SessionStep)
        ensures
            final(self).conn_id == old(self).conn_id,
            final(self).last_heartbeat_ms == old(self).last_heartbeat_ms,
            text_step(text@, opt_name_view(old(self).name), r, opt_name_view(final(self).name)),
    {
        let cmd = dispatch(text, &self.name);
        match cmd {
            TextCommand::ListRooms => SessionStep::SubmitList,
            TextCommand::Join { room } => {
                let confirm = join_confirmation(room.as_str());
                SessionStep::SubmitJoin { room, confirm }
            },
            TextCommand::SetName { name } => {
                self.name = Some(name);
                SessionStep::Idle
            },
            TextCommand::Notice { text } => SessionStep::SendText { text },
            TextCommand::Chat { composed } => SessionStep::SubmitChat { text: composed },
        }
    }

    /// One iteration of the session loop: what the event that woke the
    /// select does to the session and what must happen outward.
    ///
    /// Ping and pong refresh the liveness clock; text is dispatched; binary
    /// is ignored; close, read errors and a silent stream end stop the
    /// loop. A tick stops the loop when the liveness window is exceeded and
    /// otherwise pings the client.
    pub fn step(&mut self, ev: SessionEvent, now_ms: u64) -> (r: SessionStep)
        ensures
            final(self).conn_id == old(self).conn_id,
            match ev {
                SessionEvent::Frame { frame } => match frame {
                    Frame::Ping => r is ReplyPong && final(self).last_heartbeat_ms == now_ms
                        && final(self).name == old(self).name,
                    Frame::Pong => r is Idle && final(self).last_heartbeat_ms == now_ms
                        && final(self).name == old(self).name,
                    Frame::Text { text } => final(self).last_heartbeat_ms
                        == old(self).last_heartbeat_ms && text_step(
                        text@,
                        opt_name_view(old(self).name),
                        r,
                        opt_name_view(final(self).name),
                    ),
                    Frame::Binary => r is Idle && *final(self) == *old(self),
                    Frame::Close => (r matches SessionStep::Stop { peer_close } && peer_close)
                        && *final(self) == *old(self),
                },
                SessionEvent::StreamError => (r matches SessionStep::Stop { peer_close }
                    && !peer_close) && *final(self) == *old(self),
                SessionEvent::StreamEnd => (r matches SessionStep::Stop { peer_close }
                    && !peer_close) && *final(self) == *old(self),
                SessionEvent::Broadcast { text } => (r matches SessionStep::SendText { text: tx }
                    && tx@ == text@) && *final(self) == *old(self),
                SessionEvent::BroadcastClosed => r is Abort && *final(self) == *old(self),
                SessionEvent::Tick => {
                    &&& *final(self) == *old(self)
                    &&& (old(self).timed_out(now_ms) ==> (r matches SessionStep::Stop { peer_close }
                        && !peer_close))
                    &&& (!old(self).timed_out(now_ms) ==> r is SendPing)
                },
            },
    {
        match ev {
            SessionEvent::Frame { frame } => match frame {
                Frame::Ping => {
                    self.last_heartbeat_ms = now_ms;
                    SessionStep::ReplyPong
                },
                Frame::Pong => {
                    self.last_heartbeat_ms = now_ms;
                    SessionStep::Idle
                },
                Frame::Text { text } => self.on_text(text.as_str()),
                Frame::Binary => SessionStep::Idle,
                Frame::Close => SessionStep::Stop { peer_close: true },
            },
            SessionEvent::StreamError => SessionStep::Stop { peer_close: false },
            SessionEvent::StreamEnd => SessionStep::Stop { peer_close: false },
            SessionEvent::Broadcast { text } => SessionStep::SendText { text },
            SessionEvent::BroadcastClosed => SessionStep::Abort,
            SessionEvent::Tick => {
                if now_ms >= self.last_heartbeat_ms && now_ms - self.last_heartbeat_ms
                    > CLIENT_TIMEOUT_MS {
                    SessionStep::Stop { peer_close: false }
                } else {
                    SessionStep::SendPing
                }
            },
        }
    }
}

/// Law: an unresponsive connection is stopped within one heartbeat tick of
/// crossing the liveness window. `step` on a tick stops the session exactly
/// when the window is exceeded; so if the tick at `t1` let the session
/// live and ticks are at most one period apart, a stopping tick at `t2`
/// comes no later than one period past the window's edge.
pub proof fn lemma_timeout_within_one_tick(s: SessionState, t1: u64, t2: u64)
    requires
        !s.timed_out(t1),
        t1 <= t2,
        t2 - t1 <= HEARTBEAT_INTERVAL_MS,
    ensures
        s.timed_out(t2) ==> t2 <= s.last_heartbeat_ms + CLIENT_TIMEOUT_MS + HEARTBEAT_INTERVAL_MS,
{
}

} // verus!
