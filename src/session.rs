//! The per-transport session: unauthenticated until one Register passes the
//! certificate gate, then authenticated under a fresh identity, then closed.
use vstd::prelude::*;
use crate::certgate::{verdict, Verifier, VerifyError};
use crate::conn::no_colon;
use crate::frame::{Frame, FrameView};
use crate::registry::{Registry, RegistryError};

verus! {

/// The states of a session.
pub enum SessionState {
    Unauthenticated,
    Authenticated { id: String },
    Closed,
}

/// The mathematical value of a session state.
pub enum SessionView {
    Unauthenticated,
    Authenticated { id: Seq<char> },
    Closed,
}

/// What the transport's receive path must do with an inbound frame.
pub enum Inbound {
    /// Check this PEM certificate and, if it passes, register the session.
    Authenticate(String),
    /// Hand this frame to the router.
    Route(Frame),
    /// A frame other than Register before authentication: discarded, the
    /// transport stays open.
    Rejected,
    /// A frame with no effect in the current state.
    Ignored,
}

/// Why authentication ended the session.
#[derive(Debug, PartialEq, Eq, Structural)]
pub enum SessionError {
    /// The certificate was refused.
    Auth(VerifyError),
    /// The minted identity was already registered.
    IdentityCollision,
}

/// A character of a hyphenated lower-case UUID.
pub open spec fn is_uuid_char(c: char) -> bool {
    ('0' <= c <= '9') || ('a' <= c <= 'f') || c == '-'
}

/// Relies on uuid::Uuid::new_v4, rendered as text: a fresh random identity,
/// always 36 characters of lower-case hexadecimal digits and hyphens.
#[verifier::external_body]
fn fresh_identity() -> (r: String)
    ensures
        r@.len() == 36,
        forall|i: int| 0 <= i < r@.len() ==> is_uuid_char(#[trigger] r@[i]),
{
    uuid::Uuid::new_v4().to_string()
}

/// One physical transport's session.
pub struct Session {
    state: SessionState,
}

impl View for Session {
    type V = SessionView;

    closed spec fn view(&self) -> SessionView {
        match self.state {
            SessionState::Unauthenticated => SessionView::Unauthenticated,
            SessionState::Authenticated { id } => SessionView::Authenticated { id: id@ },
            SessionState::Closed => SessionView::Closed,
        }
    }
}

impl Session {
    /// A session that has just been accepted.
    pub fn new() -> (r: Session)
        ensures
            r@ == SessionView::Unauthenticated,
    {
        Session { state: SessionState::Unauthenticated }
    }

    /// Whether the session still waits for its Register.
    pub fn is_unauthenticated(&self) -> (r: bool)
        ensures
            r == (self@ is Unauthenticated),
    {
        match self.state {
            SessionState::Unauthenticated => true,
            _ => false,
        }
    }

    /// The identity assigned at registration, while authenticated.
    pub fn identity(&self) -> (r: Option<&String>)
        ensures
            match self@ {
                SessionView::Authenticated { id } => r matches Some(s) && s@ == id,
                _ => r is None,
            },
    {
        match &self.state {
            SessionState::Authenticated { id } => Some(id),
            _ => None,
        }
    }

    /// Classifies an inbound frame. Nothing but a Register is acted on
    /// before authentication, and only Open, Data and Close go to the router
    /// after it. The state does not change.
    pub fn receive(&self, frame: Frame) -> (r: Inbound)
        ensures
            match (self@, frame@) {
                (SessionView::Unauthenticated, FrameView::Register { id }) => r matches Inbound::Authenticate(p) && p@ == id,
                (SessionView::Unauthenticated, _) => r is Rejected,
                (SessionView::Authenticated { .. }, FrameView::Register { .. }) => r is Ignored,
                (SessionView::Authenticated { .. }, _) => r matches Inbound::Route(g) && g@ == frame@,
                (SessionView::Closed, _) => r is Ignored,
            },
            r is Route ==> self@ is Authenticated,
    {
        match &self.state {
            SessionState::Unauthenticated => match frame {
                Frame::Register { id } => Inbound::Authenticate(id),
                _ => Inbound::Rejected,
            },
            SessionState::Authenticated { .. } => match frame {
                Frame::Register { .. } => Inbound::Ignored,
                _ => Inbound::Route(frame),
            },
            SessionState::Closed => Inbound::Ignored,
        }
    }

    /// Registers the session under `id` with `sink` and returns the
    /// acknowledgement carrying `id`; when `id` is already registered the
    /// session is closed and the registry left as it was.
    pub fn register_as<S>(&mut self, registry: &mut Registry<S>, id: String, sink: S) -> (r: Result<
        Frame,
        SessionError,
    >)
        requires
            old(self)@ is Unauthenticated,
            old(registry).wf(),
        ensures
            final(registry).wf(),
            old(registry)@.contains_key(id@) ==> r == Err::<Frame, SessionError>(
                SessionError::IdentityCollision,
            ) && final(self)@ is Closed && final(registry)@ == old(registry)@,
            !old(registry)@.contains_key(id@) ==> (r matches Ok(ack) && ack@ == (FrameView::Register {
                id: id@,
            }) && final(self)@ == (SessionView::Authenticated { id: id@ }) && final(registry)@
                == old(registry)@.insert(id@, sink)),
    {
        let ack_id = id.clone();
        match registry.insert(id, sink) {
            Ok(()) => {
                let kept = ack_id.clone();
                self.state = SessionState::Authenticated { id: kept };
                Ok(Frame::Register { id: ack_id })
            },
            Err(RegistryError::IdentityTaken) => {
                self.state = SessionState::Closed;
                Err(SessionError::IdentityCollision)
            },
        }
    }

    /// Checks the certificate of a Register at `now` seconds since the Unix
    /// epoch. On success a fresh identity (36 characters, no colon) is
    /// registered with `sink` and the acknowledgement carrying it is
    /// returned; on failure the session is closed and the registry left as
    /// it was. With a valid certificate only an identity collision, which
    /// needs a non-empty registry, can fail.
    pub fn authenticate<S>(
        &mut self,
        registry: &mut Registry<S>,
        gate: &Verifier,
        pem: &[u8],
        now: u64,
        sink: S,
    ) -> (r: Result<Frame, SessionError>)
        requires
            old(self)@ is Unauthenticated,
            old(registry).wf(),
        ensures
            final(registry).wf(),
            match verdict(pem@, gate.anchor_der(), gate.algorithms(), now) {
                Err(e) => r == Err::<Frame, SessionError>(SessionError::Auth(e)) && final(self)@
                    is Closed && final(registry)@ == old(registry)@,
                Ok(_) => match r {
                    Ok(ack) => final(self)@ matches SessionView::Authenticated { id } && ack@ == (
                    FrameView::Register { id }) && !old(registry)@.contains_key(id)
                        && final(registry)@ == old(registry)@.insert(id, sink) && id.len() == 36
                        && no_colon(id),
                    Err(e) => e == SessionError::IdentityCollision && final(self)@ is Closed
                        && final(registry)@ == old(registry)@ && old(registry)@.dom()
                        != Set::<Seq<char>>::empty(),
                },
            },
    {
        match gate.verify(pem, now) {
            Err(e) => {
                self.state = SessionState::Closed;
                Err(SessionError::Auth(e))
            },
            Ok(_) => {
                let id = fresh_identity();
                proof {
                    assert forall|i: int| 0 <= i < id@.len() implies id@[i] != ':' by {
                        assert(is_uuid_char(id@[i]));
                    }
                    if old(registry)@.dom() == Set::<Seq<char>>::empty() {
                        assert(!old(registry)@.dom().contains(id@));
                    }
                }
                self.register_as(registry, id, sink)
            },
        }
    }

    /// Ends the session: its identity, if it had one, leaves the registry.
    pub fn close<S>(&mut self, registry: &mut Registry<S>)
        requires
            old(registry).wf(),
        ensures
            final(registry).wf(),
            final(self)@ is Closed,
            match old(self)@ {
                SessionView::Authenticated { id } => final(registry)@ == old(registry)@.remove(id),
                _ => final(registry)@ == old(registry)@,
            },
    {
        if let SessionState::Authenticated { id } = &self.state {
            registry.remove(id);
        }
        self.state = SessionState::Closed;
    }
}

} // verus!
