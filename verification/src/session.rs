//! The per-connection session: a state machine from state and event to
//! next state and action, run against the one shared world. The caller
//! performs the transport work; every decision is made here.

use vstd::prelude::*;
use crate::codec::FromClient;
use crate::codec::FromServer;
use crate::world::Dir;
use crate::world::MapLoc;
use crate::world::PlayerId;
use crate::world::World;
use crate::world::WorldModel;
use crate::world::can_add_player;
use crate::world::add_player_model;
use crate::world::can_step;
use crate::world::in_bounds;
use crate::world::move_entity_model;
use crate::world::players_resolve;

verus! {

/// Why a session step failed. Every variant is fatal to its own
/// connection and to nothing else.
#[derive(Clone, Copy, Debug, PartialEq, Eq)]
pub enum SessionError {
    /// The spawn tile was not free ground: the connection is refused.
    SpawnRefused,
    /// The player id resolves to no live player.
    UnknownPlayer,
    /// The player's map id resolves to no live map.
    UnknownMap,
    /// The player's entity id resolves to no live entity.
    UnknownEntity,
    /// The move would step off the coordinate space. Movement is
    /// otherwise unvalidated, as placement rules are checked only at
    /// placement time; only this step, which no coordinate can hold, is
    /// refused, and the world is left unchanged.
    MoveOutOfRange,
}

/// Where a connection stands: just connected, joined and serving
/// messages, or closed.
#[derive(Clone, Copy, Debug, PartialEq, Eq)]
pub enum SessionState {
    Connected,
    Active(PlayerId),
    Closed,
}

/// What the session loop tells its caller to do next.
pub enum SessionAction {
    /// Send this message to the client.
    Send(FromServer),
    /// Close the connection.
    Close,
}

/// What the world becomes when the player under `player_id` moves one
/// step, or why it stays as it is.
pub open spec fn move_player(w: WorldModel, player_id: PlayerId, dir: Dir) -> Result<
    WorldModel,
    SessionError,
> {
    if !(player_id < w.players.len() && w.players[player_id as int] is Some) {
        Err(SessionError::UnknownPlayer)
    } else {
        let p = w.players[player_id as int]->Some_0;
        if !(p.map_id < w.maps.len() && w.maps[p.map_id as int] is Some) {
            Err(SessionError::UnknownMap)
        } else {
            let m = w.maps[p.map_id as int]->Some_0;
            if !(p.entity_id < m.entities.len() && m.entities[p.entity_id as int] is Some) {
                Err(SessionError::UnknownEntity)
            } else {
                let e = m.entities[p.entity_id as int]->Some_0;
                if !can_step(e.pos, dir) {
                    Err(SessionError::MoveOutOfRange)
                } else {
                    Ok(
                        WorldModel {
                            maps: w.maps.update(
                                p.map_id as int,
                                Some(move_entity_model(m, p.entity_id, dir)),
                            ),
                            players: w.players,
                        },
                    )
                }
            }
        }
    }
}

/// Joins a new player at `spawn`. Exactly when the spawn tile is free
/// ground on a live map, the player is created and its id returned;
/// otherwise the world is unchanged and the connection is to be
/// refused.
pub fn session_connect(world: &mut World, name: String, spawn: MapLoc) -> (r: Result<
    PlayerId,
    SessionError,
>)
    requires
        old(world).wf(),
        old(world).model().players.len() < usize::MAX,
        spawn.map_id < old(world).model().maps.len() && old(world).model().maps[spawn.map_id as int]
            is Some ==> {
            let m = old(world).model().maps[spawn.map_id as int]->Some_0;
            in_bounds(m, spawn.pos) && m.entities.len() < usize::MAX
        },
    ensures
        final(world).wf(),
        r matches Ok(pid) ==> can_add_player(old(world).model(), spawn) && pid == old(
            world,
        ).model().players.len() && final(world).model() =~= add_player_model(
            old(world).model(),
            name@,
            spawn,
        ),
        r is Err ==> !can_add_player(old(world).model(), spawn) && r == Err::<
            PlayerId,
            SessionError,
        >(SessionError::SpawnRefused) && final(world).model() =~= old(world).model(),
        players_resolve(old(world).model()) ==> players_resolve(final(world).model()),
{
    match world.add_player(name, spawn) {
        Some(pid) => Ok(pid),
        None => Err(SessionError::SpawnRefused),
    }
}

/// Serves one decoded client message against the shared world, under
/// exclusive access: a move shifts the player's entity, a noop changes
/// nothing, and either reply carries a fresh deep snapshot of the world
/// as it stands after the step. An error leaves the world unchanged and
/// is fatal to this connection alone.
pub fn handle_message(world: &mut World, player_id: PlayerId, msg: FromClient) -> (r: Result<
    FromServer,
    SessionError,
>)
    requires
        old(world).wf(),
    ensures
        final(world).wf(),
        players_resolve(old(world).model()) ==> players_resolve(final(world).model()),
        msg == FromClient::Noop ==> final(world).model() =~= old(world).model() && (
        r matches Ok(FromServer::SendWorld(s)) && s.wf() && s.model() =~= old(world).model()),
        msg matches FromClient::MoveDir(d) ==> match move_player(old(world).model(), player_id, d) {
            Ok(w2) => final(world).model() =~= w2 && (r matches Ok(FromServer::SendWorld(s))
                && s.wf() && s.model() =~= w2),
            Err(e) => final(world).model() =~= old(world).model() && r == Err::<
                FromServer,
                SessionError,
            >(e),
        },
{
    match msg {
        FromClient::Noop => {
            let snap = world.snapshot();
            Ok(FromServer::SendWorld(snap))
        },
        FromClient::MoveDir(dir) => {
            let (map_id, entity_id) = match world.players.get(player_id) {
                Some(p) => (p.map_id, p.entity_id),
                None => {
                    return Err(SessionError::UnknownPlayer);
                },
            };
            let pos = match world.maps.get(map_id) {
                Some(m) => match m.entity(entity_id) {
                    Some(e) => e.pos,
                    None => {
                        return Err(SessionError::UnknownEntity);
                    },
                },
                None => {
                    return Err(SessionError::UnknownMap);
                },
            };
            let fits = match dir {
                Dir::Up => pos.1 > 0,
                Dir::Down => pos.1 < u16::MAX,
                Dir::Left => pos.0 > 0,
                Dir::Right => pos.0 < u16::MAX,
            };
            if !fits {
                return Err(SessionError::MoveOutOfRange);
            }
            let ghost w0 = world.model();
            let slot = world.maps.slot_mut(map_id);
            match slot {
                Some(m) => m.move_entity(entity_id, dir),
                None => {
                    proof {
                        assert(false);
                    }
                    return Err(SessionError::UnknownMap);
                },
            }
            proof {
                let w2 = world.model();
                let we = move_player(w0, player_id, dir)->Ok_0;
                assert(w2.maps =~= we.maps);
                assert(w2.players =~= we.players);
                if players_resolve(w0) {
                    assert forall|i: int|
                        0 <= i < w2.players.len() && (#[trigger] w2.players[i]) is Some implies {
                        let p = w2.players[i]->Some_0;
                        &&& p.map_id < w2.maps.len()
                        &&& w2.maps[p.map_id as int] is Some
                        &&& p.entity_id < w2.maps[p.map_id as int]->Some_0.entities.len()
                        &&& w2.maps[p.map_id as int]->Some_0.entities[p.entity_id as int] is Some
                    } by {
                        assert(w0.players[i] is Some);
                    }
                }
            }
            let snap = world.snapshot();
            Ok(FromServer::SendWorld(snap))
        },
    }
}

/// One step of the connection state machine. A connected session joins
/// on its open event and is sent a first snapshot; an active one serves
/// messages; a fault, a refused spawn or a message out of place closes
/// the connection. No step touches any other connection's state.
pub fn session_step(state: SessionState, world: &mut World, event: SessionEvent) -> (r: (
    SessionState,
    SessionAction,
))
    requires
        old(world).wf(),
        match event {
            SessionEvent::Opened(o) => {
                &&& old(world).model().players.len() < usize::MAX
                &&& (o.spawn.map_id < old(world).model().maps.len() && old(
                    world,
                ).model().maps[o.spawn.map_id as int] is Some ==> {
                    let m = old(world).model().maps[o.spawn.map_id as int]->Some_0;
                    in_bounds(m, o.spawn.pos) && m.entities.len() < usize::MAX
                })
            },
            _ => true,
        },
    ensures
        final(world).wf(),
        players_resolve(old(world).model()) ==> players_resolve(final(world).model()),
        state == SessionState::Closed ==> final(world).model() =~= old(world).model() && r.0
            == SessionState::Closed && r.1 is Close,
        event is Fault ==> final(world).model() =~= old(world).model() && r.0
            == SessionState::Closed && r.1 is Close,
        state == SessionState::Connected ==> match event {
            SessionEvent::Opened(o) => {
                if can_add_player(old(world).model(), o.spawn) {
                    &&& final(world).model() =~= add_player_model(
                        old(world).model(),
                        o.name@,
                        o.spawn,
                    )
                    &&& r.0 == SessionState::Active(old(world).model().players.len() as PlayerId)
                    &&& r.1 matches SessionAction::Send(FromServer::SendWorld(s)) && s.wf()
                        && s.model() =~= final(world).model()
                } else {
                    &&& final(world).model() =~= old(world).model()
                    &&& r.0 == SessionState::Closed
                    &&& r.1 is Close
                }
            },
            _ => final(world).model() =~= old(world).model() && r.0 == SessionState::Closed
                && r.1 is Close,
        },
        state matches SessionState::Active(pid) ==> match event {
            SessionEvent::Received(msg) => match msg {
                FromClient::Noop => final(world).model() =~= old(world).model() && r.0 == state && (
                r.1 matches SessionAction::Send(FromServer::SendWorld(s)) && s.wf() && s.model()
                    =~= old(world).model()),
                FromClient::MoveDir(d) => match move_player(old(world).model(), pid, d) {
                    Ok(w2) => final(world).model() =~= w2 && r.0 == state && (
                    r.1 matches SessionAction::Send(FromServer::SendWorld(s)) && s.wf()
                        && s.model() =~= w2),
                    Err(_) => final(world).model() =~= old(world).model() && r.0
                        == SessionState::Closed && r.1 is Close,
                },
            },
            _ => final(world).model() =~= old(world).model() && r.0 == SessionState::Closed
                && r.1 is Close,
        },
{
    match state {
        SessionState::Connected => match event {
            SessionEvent::Opened(o) => match session_connect(world, o.name, o.spawn) {
                Ok(pid) => {
                    let snap = world.snapshot();
                    (SessionState::Active(pid), SessionAction::Send(FromServer::SendWorld(snap)))
                },
                Err(_) => (SessionState::Closed, SessionAction::Close),
            },
            _ => (SessionState::Closed, SessionAction::Close),
        },
        SessionState::Active(pid) => match event {
            SessionEvent::Received(msg) => match handle_message(world, pid, msg) {
                Ok(reply) => (SessionState::Active(pid), SessionAction::Send(reply)),
                Err(_) => (SessionState::Closed, SessionAction::Close),
            },
            _ => (SessionState::Closed, SessionAction::Close),
        },
        SessionState::Closed => (SessionState::Closed, SessionAction::Close),
    }
}

/// What just happened on the connection: it opened with a join request,
/// a message arrived, or the transport or the decoder failed.
pub enum SessionEvent {
    Opened(JoinRequest),
    Received(FromClient),
    Fault,
}

/// The name a joining client takes and where it spawns.
pub struct JoinRequest {
    pub name: String,
    pub spawn: MapLoc,
}

} // verus!
