//! Relays over a foreign connect-only transfer library.
//!
//! Two transports borrow a foreign HTTP/WebSocket client for the upstream
//! side: a plain TCP forwarder over a connect-only transfer, and a WebSocket
//! gateway over the same. The foreign library owns the connection; its calls
//! are nonblocking and readiness-driven. What is verified here is the relay
//! discipline around those calls: what is owed to which side, in what order
//! it is forwarded, and when the relay waits, retries or stops.

use crate::browser::Message;
use vstd::prelude::*;

verus! {

/// Whether a foreign transfer code lets the relay go on: only success (0)
/// and the nonblocking "try again later" (81) do; everything else is a hard
/// error that closes the connection.
pub fn transfer_code_ok(code: u32) -> (r: bool)
    ensures
        r == (code == 0 || code == 81),
{
    code == 0 || code == 81
}

/// The relay's next step on a byte transfer.
pub enum RelayDuty {
    WriteToClient,
    SendUpstream,
    ReceiveUpstream,
}

/// How the relay goes on after handling a read.
pub enum RelayVerdict {
    Proceed,
    AwaitReadiness,
    Finished,
}

/// A foreign connect-only transfer as one connection's relay carries it
/// between tasks: the foreign library owns the socket, and the relay owns
/// this bookkeeping — how many buffered bytes were read from one side and are
/// still owed to the other. At most one side is ever owed bytes.
pub struct SendableCurl {
    to_client: usize,
    to_upstream: usize,
}

impl SendableCurl {
    /// Bytes read from the upstream transfer, not yet written to the client.
    pub closed spec fn owed_client(&self) -> nat {
        self.to_client as nat
    }

    /// Bytes read from the client, not yet sent on the upstream transfer.
    pub closed spec fn owed_upstream(&self) -> nat {
        self.to_upstream as nat
    }

    /// Bytes never wait in both directions at once: each direction is drained
    /// before the next read.
    pub open spec fn wf(&self) -> bool {
        self.owed_client() == 0 || self.owed_upstream() == 0
    }

    /// A fresh relay: nothing owed on either side.
    pub fn new() -> (r: SendableCurl)
        ensures
            r.wf(),
            r.owed_client() == 0,
            r.owed_upstream() == 0,
    {
        SendableCurl { to_client: 0, to_upstream: 0 }
    }

    /// How many bytes the client is owed right now.
    pub fn client_owed(&self) -> (n: usize)
        ensures
            n == self.owed_client(),
    {
        self.to_client
    }

    /// How many bytes the upstream transfer is owed right now.
    pub fn upstream_owed(&self) -> (n: usize)
        ensures
            n == self.owed_upstream(),
    {
        self.to_upstream
    }

    /// What to do next: pay the client first, then the upstream, else read.
    pub fn next_duty(&self) -> (r: RelayDuty)
        ensures
            r is WriteToClient <==> self.owed_client() > 0,
            r is SendUpstream <==> (self.owed_client() == 0 && self.owed_upstream() > 0),
            r is ReceiveUpstream <==> (self.owed_client() == 0 && self.owed_upstream() == 0),
    {
        if self.to_client > 0 {
            RelayDuty::WriteToClient
        } else if self.to_upstream > 0 {
            RelayDuty::SendUpstream
        } else {
            RelayDuty::ReceiveUpstream
        }
    }

    /// The client accepted everything it was owed.
    pub fn on_client_written(&mut self)
        requires
            old(self).wf(),
        ensures
            final(self).wf(),
            final(self).owed_client() == 0,
            final(self).owed_upstream() == old(self).owed_upstream(),
    {
        self.to_client = 0;
    }

    /// The upstream transfer accepted `sent` of the owed bytes; a nonblocking
    /// send may take fewer than offered, and the rest stays owed.
    pub fn on_upstream_sent(&mut self, sent: usize)
        requires
            old(self).wf(),
            sent <= old(self).owed_upstream(),
        ensures
            final(self).wf(),
            final(self).owed_upstream() == old(self).owed_upstream() - sent,
            final(self).owed_client() == old(self).owed_client(),
    {
        self.to_upstream = self.to_upstream - sent;
    }

    /// A receive attempt on the upstream transfer came back: `bytes` read,
    /// and whether the foreign library said "try again later". Data is owed
    /// to the client; no data with "try again" means wait for readiness; no
    /// data without it means the transfer ended.
    pub fn on_upstream_received(&mut self, bytes: usize, again: bool) -> (r: RelayVerdict)
        requires
            old(self).wf(),
            old(self).owed_client() == 0,
            old(self).owed_upstream() == 0,
        ensures
            final(self).wf(),
            bytes > 0 ==> (r is Proceed && final(self).owed_client() == bytes
                && final(self).owed_upstream() == 0),
            bytes == 0 && again ==> (r is AwaitReadiness && *final(self) == *old(self)),
            bytes == 0 && !again ==> (r is Finished && *final(self) == *old(self)),
    {
        if bytes > 0 {
            self.to_client = bytes;
            RelayVerdict::Proceed
        } else if again {
            RelayVerdict::AwaitReadiness
        } else {
            RelayVerdict::Finished
        }
    }

    /// A readiness-driven read on the client socket came back.
    pub fn on_client_read(&mut self, read: ClientRead) -> (r: RelayVerdict)
        requires
            old(self).wf(),
            old(self).owed_client() == 0,
            old(self).owed_upstream() == 0,
        ensures
            final(self).wf(),
            match read {
                ClientRead::WouldBlock => r is Proceed && *final(self) == *old(self),
                ClientRead::Closed => r is Finished && *final(self) == *old(self),
                ClientRead::Data(n) => {
                    &&& r is Proceed
                    &&& final(self).owed_upstream() == n
                    &&& final(self).owed_client() == 0
                },
            },
    {
        match read {
            ClientRead::WouldBlock => RelayVerdict::Proceed,
            ClientRead::Closed => RelayVerdict::Finished,
            ClientRead::Data(n) => {
                self.to_upstream = n;
                RelayVerdict::Proceed
            },
        }
    }
}

/// What a readiness-driven client read yielded: nothing after all, an orderly
/// close, or a count of bytes.
pub enum ClientRead {
    WouldBlock,
    Closed,
    Data(usize),
}

/// The WebSocket gateway's relay over the same foreign transfer: whole
/// messages instead of byte counts, with at most one buffered per direction
/// and only one direction buffered at a time.
pub struct WsRelay {
    to_client: Option<Message>,
    to_upstream: Option<Message>,
}

/// The gateway relay's next step.
pub enum WsRelayDuty {
    SendToClient,
    SendUpstream,
    ReceiveUpstream,
}

impl WsRelay {
    /// The message read from the upstream transfer, owed to the client.
    pub closed spec fn client_pending(&self) -> Option<Message> {
        self.to_client
    }

    /// The message read from the client, owed to the upstream transfer.
    pub closed spec fn upstream_pending(&self) -> Option<Message> {
        self.to_upstream
    }

    pub open spec fn wf(&self) -> bool {
        self.client_pending() is None || self.upstream_pending() is None
    }

    /// A fresh gateway relay: nothing owed.
    pub fn new() -> (r: WsRelay)
        ensures
            r.wf(),
            r.client_pending() is None,
            r.upstream_pending() is None,
    {
        WsRelay { to_client: None, to_upstream: None }
    }

    /// What to do next: pay the client first, then the upstream, else read.
    pub fn next_duty(&self) -> (r: WsRelayDuty)
        ensures
            r is SendToClient <==> self.client_pending() is Some,
            r is SendUpstream <==> (self.client_pending() is None && self.upstream_pending()
                is Some),
            r is ReceiveUpstream <==> (self.client_pending() is None && self.upstream_pending()
                is None),
    {
        if self.to_client.is_some() {
            WsRelayDuty::SendToClient
        } else if self.to_upstream.is_some() {
            WsRelayDuty::SendUpstream
        } else {
            WsRelayDuty::ReceiveUpstream
        }
    }

    /// Takes the message owed to the client for sending.
    pub fn take_for_client(&mut self) -> (m: Option<Message>)
        ensures
            m == old(self).client_pending(),
            final(self).client_pending() is None,
            final(self).upstream_pending() == old(self).upstream_pending(),
    {
        self.to_client.take()
    }

    /// Takes the message owed to the upstream transfer for sending.
    pub fn take_for_upstream(&mut self) -> (m: Option<Message>)
        ensures
            m == old(self).upstream_pending(),
            final(self).upstream_pending() is None,
            final(self).client_pending() == old(self).client_pending(),
    {
        self.to_upstream.take()
    }

    /// A receive attempt on the upstream transfer came back with `data`
    /// bytes read (owed to the client as one binary message if any) or with
    /// the foreign library's "try again later".
    pub fn on_upstream_received(&mut self, data: Vec<u8>, again: bool) -> (r: RelayVerdict)
        requires
            old(self).wf(),
            old(self).client_pending() is None,
            old(self).upstream_pending() is None,
        ensures
            final(self).wf(),
            data@.len() > 0 ==> (r is Proceed && final(self).client_pending() == Some(
                Message::Binary(data),
            ) && final(self).upstream_pending() is None),
            data@.len() == 0 && again ==> (r is AwaitReadiness && *final(self) == *old(self)),
            data@.len() == 0 && !again ==> (r is Proceed && *final(self) == *old(self)),
    {
        if data.len() > 0 {
            self.to_client = Some(Message::Binary(data));
            RelayVerdict::Proceed
        } else if again {
            RelayVerdict::AwaitReadiness
        } else {
            RelayVerdict::Proceed
        }
    }

    /// A message (or the end) arrived from the client WebSocket: a close or
    /// a broken socket ends the relay; pings and pongs carry no payload for
    /// the upstream and are dropped; anything else is owed to the upstream.
    pub fn on_socket_message(&mut self, msg: Option<Message>) -> (r: RelayVerdict)
        requires
            old(self).wf(),
            old(self).client_pending() is None,
            old(self).upstream_pending() is None,
        ensures
            final(self).wf(),
            match msg {
                None => r is Finished && *final(self) == *old(self),
                Some(m) => match m {
                    Message::Close => r is Finished && *final(self) == *old(self),
                    Message::Ping(_) => r is Proceed && *final(self) == *old(self),
                    Message::Pong(_) => r is Proceed && *final(self) == *old(self),
                    _ => {
                        &&& r is Proceed
                        &&& final(self).upstream_pending() == Some(m)
                        &&& final(self).client_pending() is None
                    },
                },
            },
    {
        match msg {
            None => RelayVerdict::Finished,
            Some(m) => match m {
                Message::Close => RelayVerdict::Finished,
                Message::Ping(_) => RelayVerdict::Proceed,
                Message::Pong(_) => RelayVerdict::Proceed,
                other => {
                    self.to_upstream = Some(other);
                    RelayVerdict::Proceed
                },
            },
        }
    }
}

} // verus!
