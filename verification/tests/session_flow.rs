use castlemaker::codec::FromClient;
use castlemaker::codec::FromServer;
use castlemaker::session::handle_message;
use castlemaker::session::session_connect;
use castlemaker::session::session_step;
use castlemaker::session::JoinRequest;
use castlemaker::session::SessionAction;
use castlemaker::session::SessionError;
use castlemaker::session::SessionEvent;
use castlemaker::session::SessionState;
use castlemaker::Dir;
use castlemaker::MapLoc;
use castlemaker::World;

const SPAWN: MapLoc = MapLoc { map_id: 0, pos: (2, 3) };

#[test]
fn connect_joins_then_second_spawn_is_refused() {
    let mut world = World::new();
    let first = session_connect(&mut world, String::from("one"), SPAWN);
    assert_eq!(first, Ok(0));
    let second = session_connect(&mut world, String::from("two"), SPAWN);
    assert_eq!(second, Err(SessionError::SpawnRefused));
    assert_eq!(world.players.len(), 1);
}

#[test]
fn noop_leaves_world_unchanged_and_replies_with_snapshot() {
    let mut world = World::new();
    let pid = session_connect(&mut world, String::from("one"), SPAWN).unwrap();
    let reply = handle_message(&mut world, pid, FromClient::Noop).unwrap();
    let snap = match reply {
        FromServer::SendWorld(w) => w,
        FromServer::Noop => panic!("expected a snapshot"),
    };
    assert_eq!(snap.players.len(), 1);
    let p = snap.players.get(pid).unwrap();
    let e = snap.maps.get(p.map_id).unwrap().entity(p.entity_id).unwrap();
    assert_eq!(e.pos, (2, 3));
    let live = world.maps.get(0).unwrap().entity(0).unwrap();
    assert_eq!(live.pos, (2, 3));
}

#[test]
fn move_updates_world_and_snapshot_shows_it() {
    let mut world = World::new();
    let pid = session_connect(&mut world, String::from("one"), SPAWN).unwrap();
    let reply = handle_message(&mut world, pid, FromClient::MoveDir(Dir::Right)).unwrap();
    let snap = match reply {
        FromServer::SendWorld(w) => w,
        FromServer::Noop => panic!("expected a snapshot"),
    };
    let p = snap.players.get(pid).unwrap();
    let e = snap.maps.get(p.map_id).unwrap().entity(p.entity_id).unwrap();
    assert_eq!(e.pos, (3, 3));
    assert_eq!(world.maps.get(0).unwrap().entity(0).unwrap().pos, (3, 3));
}

#[test]
fn unknown_player_is_an_error_and_world_stays() {
    let mut world = World::new();
    let r = handle_message(&mut world, 5, FromClient::MoveDir(Dir::Up));
    match r {
        Err(e) => assert_eq!(e, SessionError::UnknownPlayer),
        Ok(_) => panic!("expected an error"),
    }
    assert_eq!(world.players.len(), 0);
}

#[test]
fn stepping_off_the_coordinate_space_is_refused() {
    let mut world = World::new();
    let pid = session_connect(&mut world, String::from("one"), MapLoc { map_id: 0, pos: (1, 2) })
        .unwrap();
    // movement is unvalidated: the player may walk onto the border wall
    handle_message(&mut world, pid, FromClient::MoveDir(Dir::Left)).unwrap();
    assert_eq!(world.maps.get(0).unwrap().entity(0).unwrap().pos, (0, 2));
    // but a step that no coordinate can hold is refused, world unchanged
    let r = handle_message(&mut world, pid, FromClient::MoveDir(Dir::Left));
    match r {
        Err(e) => assert_eq!(e, SessionError::MoveOutOfRange),
        Ok(_) => panic!("expected an error"),
    }
    assert_eq!(world.maps.get(0).unwrap().entity(0).unwrap().pos, (0, 2));
}

#[test]
fn two_sessions_moving_two_players_lose_no_update() {
    let mut world = World::new();
    let pid_a = session_connect(&mut world, String::from("a"), SPAWN).unwrap();
    let pid_b = session_connect(&mut world, String::from("b"), MapLoc { map_id: 0, pos: (5, 5) })
        .unwrap();
    // the shared lock serializes the two sessions' steps in some order
    handle_message(&mut world, pid_a, FromClient::MoveDir(Dir::Right)).unwrap();
    let reply = handle_message(&mut world, pid_b, FromClient::MoveDir(Dir::Down)).unwrap();
    // after both complete, the world reflects both moves
    let pa = world.players.get(pid_a).unwrap();
    let pb = world.players.get(pid_b).unwrap();
    let ea = world.maps.get(pa.map_id).unwrap().entity(pa.entity_id).unwrap();
    let eb = world.maps.get(pb.map_id).unwrap().entity(pb.entity_id).unwrap();
    assert_eq!(ea.pos, (3, 3));
    assert_eq!(eb.pos, (5, 6));
    // and the second session's own snapshot already shows both
    let snap = match reply {
        FromServer::SendWorld(w) => w,
        FromServer::Noop => panic!("expected a snapshot"),
    };
    let sa = snap.players.get(pid_a).unwrap();
    let se = snap.maps.get(sa.map_id).unwrap().entity(sa.entity_id).unwrap();
    assert_eq!(se.pos, (3, 3));
}

#[test]
fn state_machine_walks_connect_active_close() {
    let mut world = World::new();
    let (state, action) = session_step(
        SessionState::Connected,
        &mut world,
        SessionEvent::Opened(JoinRequest { name: String::from("one"), spawn: SPAWN }),
    );
    assert_eq!(state, SessionState::Active(0));
    assert!(matches!(action, SessionAction::Send(FromServer::SendWorld(_))));
    let (state, action) = session_step(
        state,
        &mut world,
        SessionEvent::Received(FromClient::MoveDir(Dir::Right)),
    );
    assert_eq!(state, SessionState::Active(0));
    assert!(matches!(action, SessionAction::Send(FromServer::SendWorld(_))));
    assert_eq!(world.maps.get(0).unwrap().entity(0).unwrap().pos, (3, 3));
    let (state, action) = session_step(state, &mut world, SessionEvent::Fault);
    assert_eq!(state, SessionState::Closed);
    assert!(matches!(action, SessionAction::Close));
}

#[test]
fn refused_spawn_closes_the_connection() {
    let mut world = World::new();
    session_connect(&mut world, String::from("one"), SPAWN).unwrap();
    let (state, action) = session_step(
        SessionState::Connected,
        &mut world,
        SessionEvent::Opened(JoinRequest { name: String::from("two"), spawn: SPAWN }),
    );
    assert_eq!(state, SessionState::Closed);
    assert!(matches!(action, SessionAction::Close));
    assert_eq!(world.players.len(), 1);
}
