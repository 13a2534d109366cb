//! One party's half of a Diffie-Hellman exchange on a curve, as the steps
//! that the party takes between the messages: what it sends when it starts
//! and what it derives from the point that its peer sent.

use crate::error::CurveError;
use crate::multiples::{
    adds_associatively, lemma_exchange_agrees_where_associative, lemma_multiples_exist,
};
use crate::point::Point;
use vstd::prelude::*;

verus! {

/// Where a party stands in the exchange.
#[derive(Debug, Clone, Copy, PartialEq, Eq, Structural)]
pub enum HandshakeState {
    /// Nothing has been sent yet.
    ComputingPublicPoint,
    /// The public point is on its way and the peer's is awaited.
    AwaitingPeerPoint,
    /// The shared secret has been derived, or the exchange has failed.
    Done,
}

/// What happened outside the party.
#[derive(Debug, Clone, Copy, PartialEq, Eq, Structural)]
pub enum HandshakeEvent {
    /// The party was asked to begin.
    Started,
    /// The peer's public point arrived.
    PeerPointReceived(Point),
}

/// What the party asks of whoever drives it.
#[derive(Debug, Clone, Copy, PartialEq, Eq, Structural)]
pub enum HandshakeAction {
    /// Send this public point to the peer, then wait for the peer's.
    SendPublicPoint(Point),
    /// The exchange is complete; this is the shared secret.
    Finish(Point),
    /// The exchange cannot go on.
    Abort(CurveError),
    /// The event does not belong to the state the party is in; nothing
    /// changes.
    Ignore,
}

/// The steps of the exchange.
pub struct DiffieHellman {}

impl DiffieHellman {
    /// The state in which a party begins.
    pub fn initial_state() -> (state: HandshakeState)
        ensures
            state == HandshakeState::ComputingPublicPoint,
    {
        HandshakeState::ComputingPublicPoint
    }

    /// The public key of the party that holds `random_number`: that many
    /// times the generator, once the generator is known to be a point of its
    /// curve.
    pub fn calculate_public_key(
        generator: &Point,
        random_number: u32,
    ) -> (r: Result<Point, CurveError>)
        ensures
            r == generator.checked_multiple(random_number as nat),
    {
        generator.scalar_mul_checked(random_number)
    }

    /// The key that the party which holds `random_number` shares with the
    /// peer whose public key arrived: that many times the peer's public key,
    /// once that is known to be a point of its curve.
    pub fn calculate_shared_key(
        other_actor_public_key: &Point,
        random_number: u32,
    ) -> (r: Result<Point, CurveError>)
        ensures
            r == other_actor_public_key.checked_multiple(random_number as nat),
    {
        other_actor_public_key.scalar_mul_checked(random_number)
    }

    /// The state that follows `state` when `event` happens, and what the
    /// party does then.
    pub open spec fn transition(
        state: HandshakeState,
        generator: Point,
        random_number: u32,
        event: HandshakeEvent,
    ) -> (HandshakeState, HandshakeAction) {
        match (state, event) {
            (HandshakeState::ComputingPublicPoint, HandshakeEvent::Started) => {
                match generator.checked_multiple(random_number as nat) {
                    Ok(public) => (
                        HandshakeState::AwaitingPeerPoint,
                        HandshakeAction::SendPublicPoint(public),
                    ),
                    Err(e) => (HandshakeState::Done, HandshakeAction::Abort(e)),
                }
            },
            (HandshakeState::AwaitingPeerPoint, HandshakeEvent::PeerPointReceived(peer)) => {
                match peer.checked_multiple(random_number as nat) {
                    Ok(shared) => (HandshakeState::Done, HandshakeAction::Finish(shared)),
                    Err(e) => (HandshakeState::Done, HandshakeAction::Abort(e)),
                }
            },
            _ => (state, HandshakeAction::Ignore),
        }
    }

    /// What a party that holds `own` ends with when its peer holds `peer`
    /// and both start from `generator`: the action of the step that takes
    /// in the public point which the peer sent.
    pub open spec fn outcome(generator: Point, own: u32, peer: u32) -> HandshakeAction {
        match Self::transition(
            HandshakeState::ComputingPublicPoint,
            generator,
            peer,
            HandshakeEvent::Started,
        ).1 {
            HandshakeAction::SendPublicPoint(public) => Self::transition(
                HandshakeState::AwaitingPeerPoint,
                generator,
                own,
                HandshakeEvent::PeerPointReceived(public),
            ).1,
            other => other,
        }
    }

    /// One step of a party that holds the private scalar `random_number`
    /// and has agreed on `generator` with its peer. When it is started it
    /// sends `random_number` times the generator; when the peer's point
    /// arrives it derives `random_number` times that point as the shared
    /// secret. A point that is not a point of its curve aborts the exchange,
    /// and so does an addition that fails.
    pub fn step(
        state: HandshakeState,
        generator: &Point,
        random_number: u32,
        event: HandshakeEvent,
    ) -> (r: (HandshakeState, HandshakeAction))
        ensures
            r == Self::transition(state, *generator, random_number, event),
    {
        match (state, event) {
            (HandshakeState::ComputingPublicPoint, HandshakeEvent::Started) => {
                match Self::calculate_public_key(generator, random_number) {
                    Ok(public) => (
                        HandshakeState::AwaitingPeerPoint,
                        HandshakeAction::SendPublicPoint(public),
                    ),
                    Err(e) => (HandshakeState::Done, HandshakeAction::Abort(e)),
                }
            },
            (HandshakeState::AwaitingPeerPoint, HandshakeEvent::PeerPointReceived(peer)) => {
                match Self::calculate_shared_key(&peer, random_number) {
                    Ok(shared) => (HandshakeState::Done, HandshakeAction::Finish(shared)),
                    Err(e) => (HandshakeState::Done, HandshakeAction::Abort(e)),
                }
            },
            _ => (state, HandshakeAction::Ignore),
        }
    }
}

/// Where addition is associative on the multiples of the generator, two
/// parties that start from one generator finish with one shared secret.
pub proof fn lemma_exchange_converges_where_associative(generator: Point, a: u32, b: u32)
    requires
        generator.wf(),
        generator.over_odd_prime_field(),
        adds_associatively(generator),
    ensures
        DiffieHellman::outcome(generator, a, b) is Finish,
        DiffieHellman::outcome(generator, a, b) == DiffieHellman::outcome(generator, b, a),
{
    lemma_multiples_exist(generator, a as nat);
    lemma_multiples_exist(generator, b as nat);
    lemma_exchange_agrees_where_associative(generator, a as nat, b as nat);
    lemma_exchange_agrees_where_associative(generator, b as nat, a as nat);
}

} // verus!
