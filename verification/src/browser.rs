//! Browser-dialer pool: the token gate for browser channels, the dial
//! handshake with an idle browser, and the mirror state machine shared by the
//! browser-facing and client-facing sides.
//!
//! A connected browser contributes a pipe (a pair of bounded message queues)
//! to the idle pool. A client channel borrows a pipe, asks the browser to
//! dial the upstream URL, and mirrors WebSocket frames across the pipe. A
//! stale or broken browser may be swapped for a fresh one, but only while no
//! message has crossed: a new browser could not resume mid-stream.

use crate::fresh_id_text;
use crate::is_id_text;
use vstd::prelude::*;

verus! {

/// Compares a presented token against the expected one, character for
/// character. Gate for the browser channel: a WebSocket upgrade may join the
/// idle-browser pool only when its query carries the process-wide token.
pub fn csrf_token_matches(expected: &String, presented: &String) -> (r: bool)
    ensures
        r == (expected@ == presented@),
{
    *expected == *presented
}

/// A fresh process-wide token for the browser channel gate.
pub fn new_csrf_token() -> (r: String)
    ensures
        is_id_text(r@),
{
    fresh_id_text()
}

/// The page that loads the dialer script and hands it the process token.
pub fn dial_page(csrf_token: &str) -> (r: String)
    ensures
        r@ == "<!DOCTYPE html><script src=dialer.js></script><script>dialMain(\""@ + csrf_token@
            + "\")</script>"@,
{
    let mut page = "<!DOCTYPE html><script src=dialer.js></script><script>dialMain(\"".to_owned();
    page.append(csrf_token);
    page.append("\")</script>");
    proof {
        assert(page@ =~= "<!DOCTYPE html><script src=dialer.js></script><script>dialMain(\""@
            + csrf_token@ + "\")</script>"@);
    }
    page
}

/// The URL a borrowed browser is asked to dial: the configured upstream
/// prefix followed by the client request's path and query.
pub fn dial_url(upstream: &str, path_and_query: &str) -> (r: String)
    ensures
        r@ == upstream@ + path_and_query@,
{
    let mut url = upstream.to_owned();
    url.append(path_and_query);
    url
}

/// One WebSocket message as the mirror sees it: a payload, or a close.
#[derive(Clone)]
pub enum Message {
    Text(Vec<u8>),
    Binary(Vec<u8>),
    Ping(Vec<u8>),
    Pong(Vec<u8>),
    Close,
}

impl Message {
    /// The payload bytes the message carries.
    pub open spec fn data(&self) -> Seq<u8> {
        match self {
            Message::Text(d) => d@,
            Message::Binary(d) => d@,
            Message::Ping(d) => d@,
            Message::Pong(d) => d@,
            Message::Close => Seq::empty(),
        }
    }
}

/// The five ASCII bytes `ready`.
pub open spec fn ready_bytes() -> Seq<u8> {
    seq![114u8, 101u8, 97u8, 100u8, 121u8]
}

/// Whether a borrowed browser's reply to the dial request is the
/// acknowledgement `ready` — anything else means the browser cannot carry
/// this connection and the pipe is discarded.
pub fn dial_reply_is_ready(reply: &Message) -> (r: bool)
    ensures
        r == (reply.data() == ready_bytes()),
{
    let d: &Vec<u8> = match reply {
        Message::Text(d) => d,
        Message::Binary(d) => d,
        Message::Ping(d) => d,
        Message::Pong(d) => d,
        Message::Close => {
            proof {
                assert(ready_bytes().len() == 5);
            }
            return false;
        },
    };
    if d.len() != 5 {
        proof {
            assert(ready_bytes().len() == 5);
        }
        return false;
    }
    let ok = d[0] == 114 && d[1] == 101 && d[2] == 97 && d[3] == 100 && d[4] == 121;
    proof {
        if ok {
            assert(d@ =~= ready_bytes());
        } else {
            assert(d@ != ready_bytes());
        }
    }
    ok
}

/// What the mirror does next with the pipe it holds.
pub enum Duty {
    ForwardToPipe,
    ForwardToSocket,
    AwaitEvent,
}

/// What happened while the mirror waited or forwarded.
pub enum MirrorEvent {
    PipeSendSucceeded,
    PipeSendFailed,
    SocketSendSucceeded,
    SocketSendFailed,
    NetworkArrived(Message),
    NetworkClosed,
    ChannelArrived(Message),
    ChannelClosed,
}

/// Where the mirror goes after an event: on with the same pipe, back for a
/// fresh pipe, or done.
pub enum MirrorDirective {
    Continue,
    SwapPipe,
    Terminate,
}

/// The mirror's state: whether any message has crossed in either direction,
/// and at most one buffered message per direction, kept until its forwarding
/// succeeds so that nothing read is ever lost.
pub struct Mirror {
    transmitted_anything: bool,
    from_network: Option<Message>,
    from_channel: Option<Message>,
}

impl Mirror {
    /// Whether any message has crossed the mirror.
    pub closed spec fn transmitted(&self) -> bool {
        self.transmitted_anything
    }

    /// The message read from the WebSocket and not yet forwarded.
    pub closed spec fn network_pending(&self) -> Option<Message> {
        self.from_network
    }

    /// The message read from the pipe and not yet forwarded.
    pub closed spec fn channel_pending(&self) -> Option<Message> {
        self.from_channel
    }

    /// A fresh mirror: nothing crossed, nothing buffered.
    pub fn new() -> (m: Mirror)
        ensures
            !m.transmitted(),
            m.network_pending() is None,
            m.channel_pending() is None,
    {
        Mirror { transmitted_anything: false, from_network: None, from_channel: None }
    }

    /// Whether a fresh pipe may be fetched: only while nothing has crossed.
    /// Once a message went through, a broken pipe ends the mirror — a
    /// replacement browser could not resume mid-stream.
    pub fn wants_fresh_pipe(&self) -> (r: bool)
        ensures
            r == !self.transmitted(),
    {
        !self.transmitted_anything
    }

    /// What to do next: forward the buffered network message first, then the
    /// buffered channel message, else wait for one.
    pub fn next_duty(&self) -> (r: Duty)
        ensures
            r is ForwardToPipe <==> self.network_pending() is Some,
            r is ForwardToSocket <==> (self.network_pending() is None && self.channel_pending()
                is Some),
            r is AwaitEvent <==> (self.network_pending() is None && self.channel_pending()
                is None),
    {
        if self.from_network.is_some() {
            Duty::ForwardToPipe
        } else if self.from_channel.is_some() {
            Duty::ForwardToSocket
        } else {
            Duty::AwaitEvent
        }
    }

    /// The buffered network message, for forwarding into the pipe.
    pub fn network_message(&self) -> (m: &Option<Message>)
        ensures
            *m == self.network_pending(),
    {
        &self.from_network
    }

    /// The buffered channel message, for forwarding to the WebSocket.
    pub fn channel_message(&self) -> (m: &Option<Message>)
        ensures
            *m == self.channel_pending(),
    {
        &self.from_channel
    }

    /// Applies one event. A successful forward clears its buffer and marks
    /// the mirror as used; a failed pipe forward keeps the buffered message —
    /// nothing read from the client is consumed twice or dropped when the
    /// browser is swapped; a failed socket forward or a closed WebSocket ends
    /// the mirror; a closed pipe sends the mirror back for a fresh one.
    pub fn on_event(&mut self, event: MirrorEvent) -> (d: MirrorDirective)
        requires
            (event is NetworkArrived || event is ChannelArrived) ==> (old(
                self,
            ).network_pending() is None && old(self).channel_pending() is None),
            event is PipeSendSucceeded ==> old(self).network_pending() is Some,
            event is SocketSendSucceeded ==> old(self).channel_pending() is Some,
        ensures
            match event {
                MirrorEvent::PipeSendSucceeded => {
                    &&& d is Continue
                    &&& final(self).transmitted()
                    &&& final(self).network_pending() is None
                    &&& final(self).channel_pending() == old(self).channel_pending()
                },
                MirrorEvent::PipeSendFailed => d is SwapPipe && *final(self) == *old(self),
                MirrorEvent::SocketSendSucceeded => {
                    &&& d is Continue
                    &&& final(self).transmitted()
                    &&& final(self).channel_pending() is None
                    &&& final(self).network_pending() == old(self).network_pending()
                },
                MirrorEvent::SocketSendFailed => d is Terminate && *final(self) == *old(self),
                MirrorEvent::NetworkArrived(m) => {
                    &&& d is Continue
                    &&& final(self).network_pending() == Some(m)
                    &&& final(self).channel_pending() is None
                    &&& final(self).transmitted() == old(self).transmitted()
                },
                MirrorEvent::NetworkClosed => d is Terminate && *final(self) == *old(self),
                MirrorEvent::ChannelArrived(m) => {
                    &&& d is Continue
                    &&& final(self).channel_pending() == Some(m)
                    &&& final(self).network_pending() is None
                    &&& final(self).transmitted() == old(self).transmitted()
                },
                MirrorEvent::ChannelClosed => d is SwapPipe && *final(self) == *old(self),
            },
    {
        match event {
            MirrorEvent::PipeSendSucceeded => {
                self.from_network = None;
                self.transmitted_anything = true;
                MirrorDirective::Continue
            },
            MirrorEvent::PipeSendFailed => MirrorDirective::SwapPipe,
            MirrorEvent::SocketSendSucceeded => {
                self.from_channel = None;
                self.transmitted_anything = true;
                MirrorDirective::Continue
            },
            MirrorEvent::SocketSendFailed => MirrorDirective::Terminate,
            MirrorEvent::NetworkArrived(m) => {
                self.from_network = Some(m);
                MirrorDirective::Continue
            },
            MirrorEvent::NetworkClosed => MirrorDirective::Terminate,
            MirrorEvent::ChannelArrived(m) => {
                self.from_channel = Some(m);
                MirrorDirective::Continue
            },
            MirrorEvent::ChannelClosed => MirrorDirective::SwapPipe,
        }
    }
}

} // verus!
