//! The decision kernel of the transport-link receive path.
//!
//! The transport layer that embeds the key-expression tree reads session
//! messages off a link and must decide, per message, whether to ignore
//! it, tear the link or the whole transport down, or deliver it to the
//! transport for dispatch. The reading, the teardown and the delivery are
//! I/O and belong to the embedding runtime; the types here only take the
//! decisions, so that the decisions can be verified.

use vstd::prelude::*;

verus! {

/// A peer identifier: an opaque byte string.
#[derive(Debug)]
pub struct PeerId {
    pub bytes: Vec<u8>,
}

impl View for PeerId {
    type V = Seq<u8>;

    open spec fn view(&self) -> Seq<u8> {
        self.bytes@
    }
}

/// The body of a close message: the sender, the reason byte (reported,
/// never acted on), and whether only this link is to be closed.
pub struct Close {
    pub pid: Option<PeerId>,
    pub reason: u8,
    pub link_only: bool,
}

/// A session message, as the framing layer hands it over.
pub enum SessionBody {
    Close(Close),
    KeepAlive,
    Ping,
    Pong,
    Sync,
    AckNack,
    Frame,
}

/// A session message.
pub struct SessionMessage {
    pub body: SessionBody,
}

/// What the embedding runtime must do with a received message.
pub enum LinkAction {
    /// Nothing: the message was a keep-alive, carried a foreign peer
    /// identifier, or is not handled on this path.
    Ignore,
    /// Remove this link from the transport.
    DelLink,
    /// Delete the whole transport.
    DeleteTransport,
    /// Hand the message to the transport for dispatch.
    Deliver(SessionMessage),
}

/// The identifier carried by a close message, as a byte string.
pub open spec fn pid_view(pid: Option<PeerId>) -> Option<Seq<u8>> {
    match pid {
        Some(p) => Some(p@),
        None => None,
    }
}

/// The decision for a close message received on a link of a transport
/// whose peer is `own`: a close naming a different peer is ignored;
/// otherwise either the link alone or the whole transport goes down.
pub open spec fn close_action(own: Seq<u8>, pid: Option<Seq<u8>>, link_only: bool) -> LinkAction {
    if pid is Some && pid->0 != own {
        LinkAction::Ignore
    } else if link_only {
        LinkAction::DelLink
    } else {
        LinkAction::DeleteTransport
    }
}

/// The decision for any received message: close messages decide a
/// teardown, keep-alives and the acknowledgement family are consumed on
/// this path, everything else is delivered to the transport.
pub open spec fn receive_action(own: Seq<u8>, message: SessionMessage) -> LinkAction {
    match message.body {
        SessionBody::Close(c) => close_action(own, pid_view(c.pid), c.link_only),
        SessionBody::KeepAlive => LinkAction::Ignore,
        SessionBody::Ping => LinkAction::Ignore,
        SessionBody::Pong => LinkAction::Ignore,
        SessionBody::Sync => LinkAction::Ignore,
        SessionBody::AckNack => LinkAction::Ignore,
        SessionBody::Frame => LinkAction::Deliver(message),
    }
}

/// One link of a session transport: what the receive-path decisions read
/// of it is the transport's peer identifier.
pub struct SessionTransportLink {
    pid: PeerId,
}

impl View for SessionTransportLink {
    type V = Seq<u8>;

    closed spec fn view(&self) -> Seq<u8> {
        self.pid@
    }
}

/// Whether two peer identifiers are the same.
fn pid_eq(a: &PeerId, b: &PeerId) -> (r: bool)
    ensures
        r <==> a@ == b@,
{
    if a.bytes.len() != b.bytes.len() {
        return false;
    }
    let mut i: usize = 0;
    while i < a.bytes.len()
        invariant
            0 <= i <= a.bytes@.len(),
            a.bytes@.len() == b.bytes@.len(),
            forall|j: int| 0 <= j < i ==> a.bytes@[j] == b.bytes@[j],
        decreases a.bytes@.len() - i,
    {
        if a.bytes[i] != b.bytes[i] {
            return false;
        }
        i += 1;
    }
    proof {
        assert(a@ =~= b@);
    }
    true
}

impl SessionTransportLink {
    /// A link of the transport whose peer is `pid`.
    pub fn new(pid: PeerId) -> (r: Self)
        ensures
            r@ == pid@,
    {
        SessionTransportLink { pid }
    }

    /// Decides a close message: a close that names a peer other than the
    /// transport's own is ignored; otherwise the link alone goes down
    /// when `link_only` is set, the whole transport when it is not. The
    /// reason byte is reported by the runtime, never acted on here.
    pub fn handle_close(&self, pid: Option<PeerId>, reason: u8, link_only: bool) -> (r: LinkAction)
        ensures
            r == close_action(self@, pid_view(pid), link_only),
    {
        if let Some(p) = pid {
            if !pid_eq(&p, &self.pid) {
                return LinkAction::Ignore;
            }
        }
        if link_only {
            LinkAction::DelLink
        } else {
            LinkAction::DeleteTransport
        }
    }

    /// Decides what to do with a received session message: closes are
    /// resolved by [`SessionTransportLink::handle_close`], keep-alives
    /// and the acknowledgement family end here, and everything else is
    /// delivered to the transport.
    pub fn receive_message(&self, message: SessionMessage) -> (r: LinkAction)
        ensures
            r == receive_action(self@, message),
    {
        match message.body {
            SessionBody::Close(c) => self.handle_close(c.pid, c.reason, c.link_only),
            SessionBody::KeepAlive => LinkAction::Ignore,
            SessionBody::Ping => LinkAction::Ignore,
            SessionBody::Pong => LinkAction::Ignore,
            SessionBody::Sync => LinkAction::Ignore,
            SessionBody::AckNack => LinkAction::Ignore,
            SessionBody::Frame => LinkAction::Deliver(message),
        }
    }
}

} // verus!
