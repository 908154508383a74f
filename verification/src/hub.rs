//! The signaling hub: live routes and the relay of setup envelopes.
//!
//! The hub owns, per session, the live signaling routes of its
//! participants, and never touches registry membership: it validates every
//! attach and every routing decision through the registry's public read
//! operations. Routes are modelled as a sequence of `(session, user,
//! handle)` bindings with at most one live route per pair; a transport
//! handle is an opaque number the caller uses to address the actual
//! connection.

use vstd::prelude::*;
use crate::errors::ServiceError;
use crate::registry::Registry;
use crate::session::SessionView;

verus! {

/// What a setup envelope announces.
#[derive(Clone, Copy, Debug, PartialEq, Eq, Structural)]
pub enum SignalKind {
    /// A connection offer.
    Offer,
    /// The answer to an offer.
    Answer,
    /// A transport candidate.
    Candidate,
    /// A presence notice.
    Presence,
}

/// A setup message: who it is from, what it announces, and an opaque
/// payload that the hub never interprets.
pub struct Envelope {
    pub from: String,
    pub kind: SignalKind,
    pub payload: String,
}

/// The mathematical content of an `Envelope`.
pub struct EnvelopeView {
    pub from: Seq<char>,
    pub kind: SignalKind,
    pub payload: Seq<char>,
}

impl View for Envelope {
    type V = EnvelopeView;

    open spec fn view(&self) -> EnvelopeView {
        EnvelopeView { from: self.from@, kind: self.kind, payload: self.payload@ }
    }
}

impl Envelope {
    /// Builds an envelope from its parts.
    pub fn new(from: String, kind: SignalKind, payload: String) -> (e: Envelope)
        ensures
            e@ == (EnvelopeView { from: from@, kind: kind, payload: payload@ }),
    {
        Envelope { from, kind, payload }
    }
}

impl Clone for Envelope {
    fn clone(&self) -> (e: Envelope)
        ensures
            e@ == self@,
    {
        Envelope { from: self.from.clone(), kind: self.kind, payload: self.payload.clone() }
    }
}

/// A live route: the binding of a transport handle to a `(session, user)`
/// pair.
pub struct Route {
    pub session_id: String,
    pub user_id: String,
    pub handle: u64,
}

/// The mathematical content of a `Route`.
pub struct RouteView {
    pub session_id: Seq<char>,
    pub user_id: Seq<char>,
    pub handle: u64,
}

impl View for Route {
    type V = RouteView;

    open spec fn view(&self) -> RouteView {
        RouteView { session_id: self.session_id@, user_id: self.user_id@, handle: self.handle }
    }
}

/// One forwarding a relay produces: which handle to write to, and the
/// envelope to write.
pub struct Delivery {
    pub handle: u64,
    pub message: Envelope,
}

/// The mathematical content of a `Delivery`.
pub struct DeliveryView {
    pub handle: u64,
    pub message: EnvelopeView,
}

impl View for Delivery {
    type V = DeliveryView;

    open spec fn view(&self) -> DeliveryView {
        DeliveryView { handle: self.handle, message: self.message@ }
    }
}

/// Whether a route binds this `(session, user)` pair.
pub open spec fn route_matches(rt: RouteView, sid: Seq<char>, uid: Seq<char>) -> bool {
    rt.session_id == sid && rt.user_id == uid
}

/// Whether some route is live for the pair.
pub open spec fn attached(routes: Seq<RouteView>, sid: Seq<char>, uid: Seq<char>) -> bool {
    exists|i: int| 0 <= i < routes.len() && route_matches(#[trigger] routes[i], sid, uid)
}

/// Whether the pair's live route carries this very handle.
pub open spec fn has_route(routes: Seq<RouteView>, sid: Seq<char>, uid: Seq<char>, handle: u64) -> bool {
    exists|i: int|
        0 <= i < routes.len() && route_matches(#[trigger] routes[i], sid, uid) && routes[i].handle
            == handle
}

/// The predicate a route must pass to survive a detach of the pair.
pub open spec fn keeps_pair(sid: Seq<char>, uid: Seq<char>) -> spec_fn(RouteView) -> bool {
    |rt: RouteView| !route_matches(rt, sid, uid)
}

/// The routes after the pair's route, if any, is removed; every other
/// route stays, in order.
pub open spec fn detached(routes: Seq<RouteView>, sid: Seq<char>, uid: Seq<char>) -> Seq<
    RouteView,
> {
    routes.filter(keeps_pair(sid, uid))
}

/// Whether a route receives a relay in `session` from `sender`: it is a
/// route of that very session, not the sender's own, and its user is a
/// current participant — membership is re-checked on every routing
/// decision.
pub open spec fn receives_from(session: SessionView, sender: Seq<char>) -> spec_fn(
    RouteView,
) -> bool {
    |rt: RouteView|
        rt.session_id == session.id && rt.user_id != sender
            && session.participants.contains_key(rt.user_id)
}

/// The forwardings as views: one delivery of the message per route.
pub open spec fn delivery_to(message: EnvelopeView) -> spec_fn(RouteView) -> DeliveryView {
    |rt: RouteView| DeliveryView { handle: rt.handle, message: message }
}

/// The views of a vector of deliveries.
pub open spec fn delivery_views(s: Seq<Delivery>) -> Seq<DeliveryView> {
    s.map_values(|d: Delivery| d@)
}

/// The routes a relay in `session` from `sender` forwards to.
pub open spec fn recipients(
    routes: Seq<RouteView>,
    session: SessionView,
    sender: Seq<char>,
) -> Seq<RouteView> {
    routes.filter(receives_from(session, sender))
}

/// The signaling hub. Its view is the sequence of live routes, in attach
/// order.
pub struct Hub {
    routes: Vec<Route>,
}

impl View for Hub {
    type V = Seq<RouteView>;

    closed spec fn view(&self) -> Seq<RouteView> {
        self.routes@.map_values(|r: Route| r@)
    }
}

impl Hub {
    /// At most one live route per `(session, user)` pair.
    pub open spec fn wf(&self) -> bool {
        forall|i: int, j: int|
            0 <= i < j < self@.len() ==> !((#[trigger] self@[i]).session_id == (
            #[trigger] self@[j]).session_id && self@[i].user_id == self@[j].user_id)
    }

    /// A hub with no live routes.
    pub fn new() -> (h: Hub)
        ensures
            h.wf(),
            h@ == Seq::<RouteView>::empty(),
    {
        let h = Hub { routes: Vec::new() };
        proof {
            assert(h@ =~= Seq::<RouteView>::empty());
        }
        h
    }

    /// How many routes are live, over all sessions.
    pub fn route_count(&self) -> (n: usize)
        ensures
            n == self@.len(),
    {
        self.routes.len()
    }

    /// The index of the pair's live route, if any.
    fn find_route(&self, sid: &String, uid: &String) -> (r: Option<usize>)
        ensures
            match r {
                Some(i) => i < self@.len() && route_matches(self@[i as int], sid@, uid@),
                None => forall|i: int|
                    0 <= i < self@.len() ==> !route_matches(#[trigger] self@[i], sid@, uid@),
            },
    {
        let mut i: usize = 0;
        while i < self.routes.len()
            invariant
                i <= self.routes@.len(),
                forall|j: int| 0 <= j < i ==> !route_matches(#[trigger] self@[j], sid@, uid@),
            decreases self.routes@.len() - i,
        {
            let rt = &self.routes[i];
            if rt.session_id == *sid && rt.user_id == *uid {
                return Some(i);
            }
            i = i + 1;
        }
        None
    }

    /// Whether the pair currently has a live route.
    pub fn is_attached(&self, session_id: &String, user_id: &String) -> (b: bool)
        ensures
            b == attached(self@, session_id@, user_id@),
    {
        self.find_route(session_id, user_id).is_some()
    }

    /// Attaches a transport for a participant: registers `handle` as the
    /// pair's live route, superseding any prior one, whose handle is
    /// returned so the caller can close it. Refused, before any route is
    /// touched, when the session is unknown to the registry or the user is
    /// not one of its participants.
    pub fn attach(
        &mut self,
        registry: &Registry,
        session_id: &String,
        user_id: &String,
        handle: u64,
    ) -> (r: Result<Option<u64>, ServiceError>)
        requires
            old(self).wf(),
            registry.wf(),
        ensures
            final(self).wf(),
            r is Ok <==> (registry@.sessions.contains_key(session_id@)
                && registry@.sessions[session_id@].participants.contains_key(user_id@)),
            match r {
                Ok(prev) => {
                    &&& final(self)@ == detached(old(self)@, session_id@, user_id@).push(
                        RouteView { session_id: session_id@, user_id: user_id@, handle },
                    )
                    &&& match prev {
                        Some(h) => has_route(old(self)@, session_id@, user_id@, h),
                        None => !attached(old(self)@, session_id@, user_id@),
                    }
                },
                Err(e) => {
                    &&& *final(self) == *old(self)
                    &&& (e == ServiceError::NotFound <==> !registry@.sessions.contains_key(
                        session_id@,
                    ))
                    &&& (e == ServiceError::Forbidden ==> registry@.sessions.contains_key(
                        session_id@,
                    ) && !registry@.sessions[session_id@].participants.contains_key(user_id@))
                    &&& (e == ServiceError::NotFound || e == ServiceError::Forbidden)
                },
            },
    {
        if !registry.has_session(session_id) {
            return Err(ServiceError::NotFound);
        }
        if !registry.is_participant(session_id, user_id) {
            return Err(ServiceError::Forbidden);
        }
        let found = self.find_route(session_id, user_id);
        let ghost before = self@;
        let ghost beforev = self.routes@;
        let prev: Option<u64> = match found {
            Some(i) => {
                let removed = self.routes.remove(i);
                proof {
                    beforev.remove_ensures(i as int);
                    before.remove_ensures(i as int);
                    assert(self@ =~= before.remove(i as int));
                    self.lemma_remove_route(before, i as int, session_id@, user_id@);
                }
                Some(removed.handle)
            },
            None => {
                proof {
                    lemma_keep_all(before, session_id@, user_id@);
                }
                None
            },
        };
        let ghost mid = self@;
        self.routes.push(Route { session_id: session_id.clone(), user_id: user_id.clone(), handle });
        proof {
            assert(self@ =~= mid.push(
                RouteView { session_id: session_id@, user_id: user_id@, handle },
            ));
            assert forall|i: int, j: int| 0 <= i < j < self@.len() implies !((
            #[trigger] self@[i]).session_id == (#[trigger] self@[j]).session_id
                && self@[i].user_id == self@[j].user_id) by {
                if j < self@.len() - 1 {
                    assert(mid[i] == self@[i] && mid[j] == self@[j]);
                } else {
                    broadcast use vstd::seq_lib::group_filter_ensures;

                    let pred = keeps_pair(session_id@, user_id@);
                    assert(mid == before.filter(pred));
                    assert(mid[i] == before.filter(pred)[i]);
                    assert(pred(before.filter(pred)[i]));
                    assert(!route_matches(mid[i], session_id@, user_id@));
                    assert(mid[i] == self@[i]);
                }
            }
        }
        Ok(prev)
    }

    /// Bridges a removal at one index to the `detached` filter, given that
    /// the index held the pair's only route.
    proof fn lemma_remove_route(&self, before: Seq<RouteView>, i: int, sid: Seq<char>, uid: Seq<char>)
        requires
            0 <= i < before.len(),
            route_matches(before[i], sid, uid),
            forall|p: int, q: int|
                0 <= p < q < before.len() ==> !((#[trigger] before[p]).session_id == (
                #[trigger] before[q]).session_id && before[p].user_id == before[q].user_id),
            self@ == before.remove(i),
        ensures
            self@ == detached(before, sid, uid),
            self.wf(),
    {
        let pred = keeps_pair(sid, uid);
        assert forall|j: int| 0 <= j < before.len() && j != i implies #[trigger] pred(
            before[j],
        ) by {
            if j < i {
                assert(!(before[j].session_id == before[i].session_id && before[j].user_id
                    == before[i].user_id));
            } else {
                assert(!(before[i].session_id == before[j].session_id && before[i].user_id
                    == before[j].user_id));
            }
        }
        lemma_filter_except_one(before, pred, i);
        before.remove_ensures(i);
        assert forall|p: int, q: int| 0 <= p < q < self@.len() implies !((
        #[trigger] self@[p]).session_id == (#[trigger] self@[q]).session_id && self@[p].user_id
            == self@[q].user_id) by {
            let p0: int = if p < i { p } else { p + 1 };
            let q0: int = if q < i { q } else { q + 1 };
            assert(self@[p] == before[p0] && self@[q] == before[q0]);
        }
    }

    /// Tears down the pair's live route if one exists; detaching an
    /// already-detached pair is a no-op, not an error. Registry membership
    /// is untouched: a participant may re-attach without rejoining.
    pub fn detach(&mut self, session_id: &String, user_id: &String)
        requires
            old(self).wf(),
        ensures
            final(self).wf(),
            final(self)@ == detached(old(self)@, session_id@, user_id@),
            !attached(old(self)@, session_id@, user_id@) ==> *final(self) == *old(self),
    {
        let found = self.find_route(session_id, user_id);
        let ghost before = self@;
        let ghost beforev = self.routes@;
        match found {
            Some(i) => {
                let _ = self.routes.remove(i);
                proof {
                    beforev.remove_ensures(i as int);
                    before.remove_ensures(i as int);
                    assert(self@ =~= before.remove(i as int));
                    self.lemma_remove_route(before, i as int, session_id@, user_id@);
                }
            },
            None => {
                proof {
                    lemma_keep_all(before, session_id@, user_id@);
                }
            },
        }
    }

    /// Computes the forwardings for a message from `sender_id` in
    /// `session_id`: one delivery of the envelope, in route order, to each
    /// other attached current participant of that session — and to no route
    /// of any other session. If the session is unknown or the sender has no
    /// live route, the message is silently dropped and nothing is
    /// forwarded.
    pub fn relay(
        &self,
        registry: &Registry,
        session_id: &String,
        sender_id: &String,
        message: &Envelope,
    ) -> (out: Vec<Delivery>)
        requires
            registry.wf(),
        ensures
            registry@.sessions.contains_key(session_id@) && attached(
                self@,
                session_id@,
                sender_id@,
            ) ==> delivery_views(out@) == recipients(
                self@,
                registry@.sessions[session_id@],
                sender_id@,
            ).map_values(delivery_to(message@)),
            !(registry@.sessions.contains_key(session_id@) && attached(
                self@,
                session_id@,
                sender_id@,
            )) ==> out@.len() == 0,
    {
        if !registry.has_session(session_id) {
            return Vec::new();
        }
        if !self.is_attached(session_id, sender_id) {
            return Vec::new();
        }
        let ghost session = registry@.sessions[session_id@];
        let ghost pred = receives_from(session, sender_id@);
        let ghost dmap = delivery_to(message@);
        proof {
            registry.lemma_session_id_is_key(session_id@);
        }
        let mut out: Vec<Delivery> = Vec::new();
        let mut i: usize = 0;
        while i < self.routes.len()
            invariant
                registry.wf(),
                registry@.sessions.contains_key(session_id@),
                session == registry@.sessions[session_id@],
                session.id == session_id@,
                pred == receives_from(session, sender_id@),
                dmap == delivery_to(message@),
                i <= self.routes@.len(),
                delivery_views(out@) == self@.take(i as int).filter(pred).map_values(dmap),
            decreases self.routes@.len() - i,
        {
            let ghost taken = self@.take(i as int);
            let rt = &self.routes[i];
            proof {
                broadcast use vstd::seq_lib::group_filter_ensures, Seq::lemma_take_succ_push;

                assert(rt@ == self@[i as int]);
                assert(self@.take(i as int + 1) =~= taken.push(self@[i as int]));
            }
            if rt.session_id == *session_id && !(rt.user_id == *sender_id) && registry.is_participant(
                session_id,
                &rt.user_id,
            ) {
                let d = Delivery { handle: rt.handle, message: message.clone() };
                let ghost dv = d@;
                let ghost outb = out@;
                out.push(d);
                proof {
                    broadcast use vstd::seq_lib::group_filter_ensures, Seq::lemma_filter_push, Seq::lemma_push_map_commute;

                    assert(pred(rt@));
                    assert(dv == dmap(rt@));
                    assert(taken.push(rt@).filter(pred) =~= taken.filter(pred).push(rt@));
                    assert(delivery_views(outb.push(d)) =~= delivery_views(outb).push(dv));
                    assert(taken.filter(pred).push(rt@).map_values(dmap) =~= taken.filter(
                        pred,
                    ).map_values(dmap).push(dmap(rt@)));
                    assert(delivery_views(out@) =~= self@.take(i as int + 1).filter(pred)
                        .map_values(dmap));
                }
            } else {
                proof {
                    broadcast use vstd::seq_lib::group_filter_ensures, Seq::lemma_filter_push;

                    assert(!pred(rt@));
                    assert(taken.push(rt@).filter(pred) =~= taken.filter(pred));
                }
            }
            i = i + 1;
        }
        proof {
            assert(self@.take(self.routes@.len() as int) =~= self@);
        }
        out
    }
}

/// Detaching a pair for which no route is live keeps every route.
proof fn lemma_keep_all(routes: Seq<RouteView>, sid: Seq<char>, uid: Seq<char>)
    requires
        forall|i: int| 0 <= i < routes.len() ==> !route_matches(#[trigger] routes[i], sid, uid),
    ensures
        detached(routes, sid, uid) == routes,
{
    let pred = keeps_pair(sid, uid);
    assert forall|i: int| 0 <= i < routes.len() implies #[trigger] pred(routes[i]) by {
        assert(!route_matches(routes[i], sid, uid));
    }
    lemma_filter_all_kept(routes, pred);
}

/// Filtering keeps a sequence whole when every element passes.
proof fn lemma_filter_all_kept<A>(s: Seq<A>, pred: spec_fn(A) -> bool)
    requires
        forall|i: int| 0 <= i < s.len() ==> #[trigger] pred(s[i]),
    ensures
        s.filter(pred) == s,
    decreases s.len(),
{
    reveal(Seq::filter);
    if s.len() > 0 {
        assert(pred(s[s.len() - 1]));
        lemma_filter_all_kept(s.drop_last(), pred);
        assert(s.filter(pred) =~= s.drop_last().push(s.last()));
        assert(s.drop_last().push(s.last()) =~= s);
    }
}

/// Filtering a sequence whose only failing element stands at index `i`
/// removes exactly that element.
proof fn lemma_filter_except_one<A>(s: Seq<A>, pred: spec_fn(A) -> bool, i: int)
    requires
        0 <= i < s.len(),
        !pred(s[i]),
        forall|j: int| 0 <= j < s.len() && j != i ==> #[trigger] pred(s[j]),
    ensures
        s.filter(pred) == s.remove(i),
    decreases s.len(),
{
    reveal(Seq::filter);
    if i == s.len() - 1 {
        lemma_filter_all_kept(s.drop_last(), pred);
        assert(s.remove(i) =~= s.drop_last());
    } else {
        lemma_filter_except_one(s.drop_last(), pred, i);
        assert(pred(s.last()));
        assert(s.filter(pred) == s.drop_last().remove(i).push(s.last()));
        s.remove_ensures(i);
        s.drop_last().remove_ensures(i);
        assert(s.drop_last().remove(i).push(s.last()) =~= s.remove(i));
    }
}

/// Detaching is idempotent: after a detach the pair has no live route, and
/// detaching a pair that has none changes nothing at all.
pub proof fn lemma_detach_idempotent(routes: Seq<RouteView>, sid: Seq<char>, uid: Seq<char>)
    ensures
        !attached(detached(routes, sid, uid), sid, uid),
        !attached(routes, sid, uid) ==> detached(routes, sid, uid) == routes,
{
    broadcast use vstd::seq_lib::group_filter_ensures;

    let pred = keeps_pair(sid, uid);
    assert forall|i: int| 0 <= i < detached(routes, sid, uid).len() implies !route_matches(
        #[trigger] detached(routes, sid, uid)[i],
        sid,
        uid,
    ) by {
        assert(pred(routes.filter(pred)[i]));
    }
    if !attached(routes, sid, uid) {
        lemma_keep_all(routes, sid, uid);
    }
}

/// A relayed message reaches every attached current participant of the
/// sender's session other than the sender — and only routes of that very
/// session: no route of any other session ever receives it.
pub proof fn lemma_relay_reaches_exactly_peers(
    routes: Seq<RouteView>,
    session: SessionView,
    sender: Seq<char>,
)
    ensures
        forall|i: int|
            0 <= i < routes.len() && (#[trigger] routes[i]).session_id == session.id
                && routes[i].user_id != sender && session.participants.contains_key(
                routes[i].user_id,
            ) ==> recipients(routes, session, sender).contains(routes[i]),
        forall|j: int|
            0 <= j < recipients(routes, session, sender).len() ==> ((#[trigger] recipients(
                routes,
                session,
                sender,
            )[j]).session_id == session.id && recipients(routes, session, sender)[j].user_id
                != sender && session.participants.contains_key(
                recipients(routes, session, sender)[j].user_id,
            )),
{
    broadcast use vstd::seq_lib::group_filter_ensures;

    let pred = receives_from(session, sender);
    assert forall|i: int|
        0 <= i < routes.len() && (#[trigger] routes[i]).session_id == session.id
            && routes[i].user_id != sender && session.participants.contains_key(
            routes[i].user_id,
        ) implies recipients(routes, session, sender).contains(routes[i]) by {
        assert(pred(routes[i]));
        assert(routes.filter(pred).contains(routes[i]));
    }
    assert forall|j: int| 0 <= j < recipients(routes, session, sender).len() implies ((
    #[trigger] recipients(routes, session, sender)[j]).session_id == session.id && recipients(
        routes,
        session,
        sender,
    )[j].user_id != sender && session.participants.contains_key(
        recipients(routes, session, sender)[j].user_id,
    )) by {
        assert(pred(routes.filter(pred)[j]));
    }
}

} // verus!
