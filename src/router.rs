//! Where an Open, Data or Close frame goes next.
use vstd::prelude::*;
use crate::conn::{
    destination, join, lemma_segments_of_join, no_colon, parse_conn, source, well_formed,
};
use crate::frame::{Frame, FrameView};
use crate::registry::Registry;

verus! {

/// Why a frame was not delivered.
#[derive(Debug, PartialEq, Eq, Structural)]
pub enum RouteError {
    /// The destination identity is not registered.
    RoutingMiss,
    /// The connection identifier does not hold exactly three segments.
    MalformedConnId,
    /// The sender is neither end of the connection it names.
    NotParticipant,
    /// A Close for this connection identifier has already been delivered.
    ConnectionClosed,
    /// A Register frame is answered by the session, never routed.
    NotRoutable,
}

/// The connection identifiers whose Close has been delivered.
pub struct ClosedSet {
    ids: Vec<String>,
}

impl View for ClosedSet {
    type V = Set<Seq<char>>;

    closed spec fn view(&self) -> Set<Seq<char>> {
        Set::new(|k: Seq<char>| exists|i: int| 0 <= i < self.ids.len() && self.ids@[i]@ == k)
    }
}

impl ClosedSet {
    /// No connection closed yet.
    pub fn new() -> (r: ClosedSet)
        ensures
            r@ == Set::<Seq<char>>::empty(),
    {
        let r = ClosedSet { ids: Vec::new() };
        assert(r@ =~= Set::<Seq<char>>::empty());
        r
    }

    /// Whether a Close for `id` has been delivered.
    pub fn contains(&self, id: &String) -> (r: bool)
        ensures
            r == self@.contains(id@),
    {
        let mut i: usize = 0;
        while i < self.ids.len()
            invariant
                i <= self.ids.len(),
                forall|j: int| 0 <= j < i ==> self.ids@[j]@ != id@,
            decreases self.ids.len() - i,
        {
            if self.ids[i] == *id {
                assert(self.ids@[i as int]@ == id@);
                return true;
            }
            i = i + 1;
        }
        false
    }

    /// Records that a Close for `id` has been delivered.
    pub fn add(&mut self, id: String)
        ensures
            final(self)@ == old(self)@.insert(id@),
    {
        let ghost before = self.ids@;
        let ghost key = id@;
        self.ids.push(id);
        assert forall|k: Seq<char>| #[trigger] self@.contains(k) == old(self)@.insert(key).contains(k) by {
            if k == key {
                assert(self.ids@[before.len() as int]@ == k);
            }
            if old(self)@.contains(k) {
                let i = choose|i: int| 0 <= i < before.len() && before[i]@ == k;
                assert(self.ids@[i]@ == k);
            }
            if self@.contains(k) && k != key {
                let i = choose|i: int| 0 <= i < self.ids.len() && self.ids@[i]@ == k;
                assert(before[i]@ == k);
            }
        }
        assert(self@ =~= old(self)@.insert(key));
    }
}

/// The connection identifier a frame carries.
pub open spec fn conn_of(f: FrameView) -> Seq<char> {
    match f {
        FrameView::Register { .. } => Seq::empty(),
        FrameView::Open { conn_id, .. } => conn_id,
        FrameView::Data { conn_id, .. } => conn_id,
        FrameView::Close { conn_id } => conn_id,
    }
}

/// The other end of connection `c` as seen from `sender`.
pub open spec fn peer(sender: Seq<char>, c: Seq<char>) -> Result<Seq<char>, RouteError> {
    if !well_formed(c) {
        Err(RouteError::MalformedConnId)
    } else if sender == source(c) {
        Ok(destination(c))
    } else if sender == destination(c) {
        Ok(source(c))
    } else {
        Err(RouteError::NotParticipant)
    }
}

/// The identity a frame from `sender` is for, and the frame as it is
/// forwarded: an Open goes to its target with the target cleared; Data and
/// Close go, unchanged, to the other end of their connection.
pub open spec fn next_hop(sender: Seq<char>, f: FrameView) -> Result<(Seq<char>, FrameView), RouteError> {
    match f {
        FrameView::Register { .. } => Err(RouteError::NotRoutable),
        FrameView::Open { conn_id, target, port } => Ok(
            (target, FrameView::Open { conn_id, target: Seq::empty(), port }),
        ),
        _ => match peer(sender, conn_of(f)) {
            Ok(d) => Ok((d, f)),
            Err(e) => Err(e),
        },
    }
}

/// The outcome of routing `f` from `sender` against the live identities of
/// `m` and the closed connections `closed`: the destination identity and the
/// forwarded frame, or why nothing is sent.
pub open spec fn delivery<S>(
    m: Map<Seq<char>, S>,
    closed: Set<Seq<char>>,
    sender: Seq<char>,
    f: FrameView,
) -> Result<(Seq<char>, FrameView), RouteError> {
    if !(f is Register) && closed.contains(conn_of(f)) {
        Err(RouteError::ConnectionClosed)
    } else {
        match next_hop(sender, f) {
            Ok((d, out)) => if m.contains_key(d) {
                Ok((d, out))
            } else {
                Err(RouteError::RoutingMiss)
            },
            Err(e) => Err(e),
        }
    }
}

/// The closed connections after `f` was routed with outcome `r`: a
/// delivered Close closes its connection.
pub open spec fn closed_after(
    closed: Set<Seq<char>>,
    f: FrameView,
    r: Result<(Seq<char>, FrameView), RouteError>,
) -> Set<Seq<char>> {
    if r is Ok && f is Close {
        closed.insert(conn_of(f))
    } else {
        closed
    }
}

/// The other end of `conn_id` as seen from `sender`.
fn peer_of(sender: &String, conn_id: &String) -> (r: Result<String, RouteError>)
    ensures
        match peer(sender@, conn_id@) {
            Ok(d) => r matches Ok(s) && s@ == d,
            Err(e) => r matches Err(e2) && e2 == e,
        },
{
    match parse_conn(conn_id.as_str()) {
        Some((a, b, _)) => {
            if *sender == a {
                Ok(b)
            } else if *sender == b {
                Ok(a)
            } else {
                Err(RouteError::NotParticipant)
            }
        },
        None => Err(RouteError::MalformedConnId),
    }
}

/// Decides where `frame`, received from the agent `sender`, goes: the sink
/// of its destination and the frame to push there. Nothing is sent when the
/// destination is offline or the connection already closed; a delivered
/// Close closes its connection.
pub fn route<'a, S>(
    registry: &'a Registry<S>,
    closed: &mut ClosedSet,
    sender: &String,
    frame: Frame,
) -> (r: Result<(&'a S, Frame), RouteError>)
    requires
        registry.wf(),
    ensures
        match delivery(registry@, old(closed)@, sender@, frame@) {
            Ok((d, out)) => r matches Ok((s, g)) && *s == registry@[d] && g@ == out,
            Err(e) => r matches Err(e2) && e2 == e,
        },
        final(closed)@ == closed_after(
            old(closed)@,
            frame@,
            delivery(registry@, old(closed)@, sender@, frame@),
        ),
{
    match frame {
        Frame::Register { .. } => Err(RouteError::NotRoutable),
        Frame::Open { conn_id, target, port } => {
            if closed.contains(&conn_id) {
                return Err(RouteError::ConnectionClosed);
            }
            match registry.lookup(&target) {
                Some(s) => {
                    let out = Frame::Open { conn_id, target: String::new(), port };
                    assert(out@ == (FrameView::Open { conn_id: conn_id@, target: Seq::empty(), port }));
                    Ok((s, out))
                },
                None => Err(RouteError::RoutingMiss),
            }
        },
        Frame::Data { conn_id, data } => {
            if closed.contains(&conn_id) {
                return Err(RouteError::ConnectionClosed);
            }
            let to = match peer_of(sender, &conn_id) {
                Ok(to) => to,
                Err(e) => return Err(e),
            };
            match registry.lookup(&to) {
                Some(s) => Ok((s, Frame::Data { conn_id, data })),
                None => Err(RouteError::RoutingMiss),
            }
        },
        Frame::Close { conn_id } => {
            if closed.contains(&conn_id) {
                return Err(RouteError::ConnectionClosed);
            }
            let to = match peer_of(sender, &conn_id) {
                Ok(to) => to,
                Err(e) => return Err(e),
            };
            match registry.lookup(&to) {
                Some(s) => {
                    closed.add(conn_id.clone());
                    Ok((s, Frame::Close { conn_id }))
                },
                None => Err(RouteError::RoutingMiss),
            }
        },
    }
}

/// With agents `a` and `b` both registered and connection `a:b:n` open, an
/// Open from `a` reaches `b` once, with the same identifier and port and the
/// target cleared; Data and Close on `a:b:n` from `a` reach `b`, and Data
/// and Close on the same `a:b:n` from `b` reach `a`, all unchanged. Once a
/// Close on `a:b:n` has been delivered, from either side, nothing more on
/// `a:b:n` is delivered to anyone.
pub proof fn lemma_routing_correct<S>(
    m: Map<Seq<char>, S>,
    closed: Set<Seq<char>>,
    a: Seq<char>,
    b: Seq<char>,
    n: Seq<char>,
    port: u16,
    data: Seq<char>,
    sender: Seq<char>,
    later: FrameView,
)
    requires
        m.contains_key(a),
        m.contains_key(b),
        a != b,
        no_colon(a),
        no_colon(b),
        no_colon(n),
        !closed.contains(join(a, b, n)),
        !(later is Register),
        conn_of(later) == join(a, b, n),
    ensures
        delivery(m, closed, a, FrameView::Open { conn_id: join(a, b, n), target: b, port }) == Ok::<
            (Seq<char>, FrameView),
            RouteError,
        >((b, FrameView::Open { conn_id: join(a, b, n), target: Seq::empty(), port })),
        delivery(m, closed, a, FrameView::Data { conn_id: join(a, b, n), data }) == Ok::<
            (Seq<char>, FrameView),
            RouteError,
        >((b, FrameView::Data { conn_id: join(a, b, n), data })),
        delivery(m, closed, b, FrameView::Data { conn_id: join(a, b, n), data }) == Ok::<
            (Seq<char>, FrameView),
            RouteError,
        >((a, FrameView::Data { conn_id: join(a, b, n), data })),
        delivery(m, closed, a, FrameView::Close { conn_id: join(a, b, n) }) == Ok::<
            (Seq<char>, FrameView),
            RouteError,
        >((b, FrameView::Close { conn_id: join(a, b, n) })),
        delivery(m, closed, b, FrameView::Close { conn_id: join(a, b, n) }) == Ok::<
            (Seq<char>, FrameView),
            RouteError,
        >((a, FrameView::Close { conn_id: join(a, b, n) })),
        closed_after(
            closed,
            FrameView::Close { conn_id: join(a, b, n) },
            delivery(m, closed, a, FrameView::Close { conn_id: join(a, b, n) }),
        ) == closed.insert(join(a, b, n)),
        closed_after(
            closed,
            FrameView::Close { conn_id: join(a, b, n) },
            delivery(m, closed, b, FrameView::Close { conn_id: join(a, b, n) }),
        ) == closed.insert(join(a, b, n)),
        delivery(m, closed.insert(join(a, b, n)), sender, later) == Err::<
            (Seq<char>, FrameView),
            RouteError,
        >(RouteError::ConnectionClosed),
{
    lemma_segments_of_join(a, b, n);
}

/// A frame whose destination is not registered is delivered nowhere.
pub proof fn lemma_routing_miss<S>(
    m: Map<Seq<char>, S>,
    closed: Set<Seq<char>>,
    sender: Seq<char>,
    f: FrameView,
)
    requires
        !closed.contains(conn_of(f)),
        next_hop(sender, f) matches Ok((d, _)) && !m.contains_key(d),
    ensures
        delivery(m, closed, sender, f) == Err::<(Seq<char>, FrameView), RouteError>(
            RouteError::RoutingMiss,
        ),
{
}

/// Once an identity has been removed, every frame addressed to it is
/// delivered nowhere.
pub proof fn lemma_cleanup<S>(
    m: Map<Seq<char>, S>,
    closed: Set<Seq<char>>,
    sender: Seq<char>,
    id: Seq<char>,
    f: FrameView,
)
    requires
        next_hop(sender, f) matches Ok((d, _)) && d == id,
    ensures
        !m.remove(id).contains_key(id),
        delivery(m.remove(id), closed, sender, f) is Err,
        !closed.contains(conn_of(f)) ==> delivery(m.remove(id), closed, sender, f) == Err::<
            (Seq<char>, FrameView),
            RouteError,
        >(RouteError::RoutingMiss),
{
}

} // verus!
