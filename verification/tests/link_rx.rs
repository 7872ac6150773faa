//! The transport-link receive-path decisions.

use keyexpr_tree::link::{
    Close, LinkAction, PeerId, SessionBody, SessionMessage, SessionTransportLink,
};

fn link() -> SessionTransportLink {
    SessionTransportLink::new(PeerId { bytes: vec![1, 2, 3] })
}

#[test]
fn close_from_own_peer_closes_link() {
    let l = link();
    let action = l.handle_close(Some(PeerId { bytes: vec![1, 2, 3] }), 0, true);
    assert!(matches!(action, LinkAction::DelLink));
}

#[test]
fn close_without_link_only_deletes_transport() {
    let l = link();
    let action = l.handle_close(Some(PeerId { bytes: vec![1, 2, 3] }), 2, false);
    assert!(matches!(action, LinkAction::DeleteTransport));
    let anonymous = l.handle_close(None, 2, false);
    assert!(matches!(anonymous, LinkAction::DeleteTransport));
}

#[test]
fn close_from_foreign_peer_is_ignored() {
    let l = link();
    let action = l.handle_close(Some(PeerId { bytes: vec![9, 9] }), 0, false);
    assert!(matches!(action, LinkAction::Ignore));
}

#[test]
fn receive_dispatches_by_body() {
    let l = link();
    let close = SessionMessage {
        body: SessionBody::Close(Close { pid: None, reason: 1, link_only: true }),
    };
    assert!(matches!(l.receive_message(close), LinkAction::DelLink));
    let keep_alive = SessionMessage { body: SessionBody::KeepAlive };
    assert!(matches!(l.receive_message(keep_alive), LinkAction::Ignore));
    let ping = SessionMessage { body: SessionBody::Ping };
    assert!(matches!(l.receive_message(ping), LinkAction::Ignore));
    let frame = SessionMessage { body: SessionBody::Frame };
    assert!(matches!(l.receive_message(frame), LinkAction::Deliver(_)));
}
