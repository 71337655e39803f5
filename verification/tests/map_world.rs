use castlemaker::Dir;
use castlemaker::MapLoc;
use castlemaker::Tile;
use castlemaker::TileMap;
use castlemaker::World;

#[test]
fn fresh_map_has_wall_ring_and_ground_interior() {
    let map = TileMap::new(20, 12);
    for y in 0..12u16 {
        for x in 0..20u16 {
            let expect = if x == 0 || x == 19 || y == 0 || y == 11 {
                Tile::Wall
            } else {
                Tile::Ground
            };
            assert_eq!(map.tile((x, y)), expect);
        }
    }
    assert_eq!(map.entity_count(), 0);
}

#[test]
fn placement_on_wall_fails_on_free_ground_succeeds_twice_fails() {
    let mut map = TileMap::new(20, 12);
    assert_eq!(map.add_entity((0, 0), b'P'), None);
    assert_eq!(map.add_entity((19, 5), b'P'), None);
    let id = map.add_entity((2, 3), b'P');
    assert_eq!(id, Some(0));
    assert_eq!(map.add_entity((2, 3), b'Q'), None);
    let second = map.add_entity((4, 4), b'Q');
    assert_eq!(second, Some(1));
}

#[test]
fn moves_shift_exactly_one_coordinate() {
    let mut map = TileMap::new(20, 12);
    let id = map.add_entity((5, 5), b'P').unwrap();
    map.move_entity(id, Dir::Right);
    assert_eq!(map.entity(id).unwrap().pos, (6, 5));
    map.move_entity(id, Dir::Down);
    assert_eq!(map.entity(id).unwrap().pos, (6, 6));
    map.move_entity(id, Dir::Left);
    assert_eq!(map.entity(id).unwrap().pos, (5, 6));
    map.move_entity(id, Dir::Up);
    assert_eq!(map.entity(id).unwrap().pos, (5, 5));
    assert_eq!(map.entity(id).unwrap().sprite, b'P');
}

#[test]
fn add_player_places_entity_at_requested_position() {
    let mut world = World::new();
    let pid = world.add_player(
        String::from("Lolz"),
        MapLoc { map_id: 0, pos: (2, 3) },
    );
    assert_eq!(pid, Some(0));
    let player = world.players.get(0).unwrap();
    assert_eq!(player.name, "Lolz");
    assert_eq!(player.map_id, 0);
    let map = world.maps.get(player.map_id).unwrap();
    let entity = map.entity(player.entity_id).unwrap();
    assert_eq!(entity.pos, (2, 3));
    assert_eq!(entity.sprite, b'P');
}

#[test]
fn add_player_refused_on_wall_or_occupied_or_dead_map() {
    let mut world = World::new();
    assert_eq!(
        world.add_player(String::from("a"), MapLoc { map_id: 0, pos: (0, 0) }),
        None
    );
    assert_eq!(
        world.add_player(String::from("b"), MapLoc { map_id: 7, pos: (2, 3) }),
        None
    );
    assert_eq!(
        world.add_player(String::from("c"), MapLoc { map_id: 0, pos: (2, 3) }),
        Some(0)
    );
    assert_eq!(
        world.add_player(String::from("d"), MapLoc { map_id: 0, pos: (2, 3) }),
        None
    );
}

#[test]
fn rendered_default_world_shows_player_borders_and_ground() {
    let mut world = World::new();
    world
        .add_player(String::from("Lolz"), MapLoc { map_id: 0, pos: (2, 3) })
        .unwrap();
    let text = world.maps.get(0).unwrap().render();
    assert_eq!(text.len(), 12 * 21);
    for y in 0..12usize {
        for x in 0..21usize {
            let got = text[y * 21 + x];
            let expect = if x == 20 {
                b'\n'
            } else if x == 2 && y == 3 {
                b'P'
            } else if x == 0 || x == 19 || y == 0 || y == 11 {
                b'#'
            } else {
                b'.'
            };
            assert_eq!(got, expect, "cell ({}, {})", x, y);
        }
    }
}

#[test]
fn snapshot_is_deep_and_independent() {
    let mut world = World::new();
    let pid = world
        .add_player(String::from("Lolz"), MapLoc { map_id: 0, pos: (2, 3) })
        .unwrap();
    let frozen = world.snapshot();
    let reply = castlemaker::session::handle_message(
        &mut world,
        pid,
        castlemaker::codec::FromClient::MoveDir(Dir::Right),
    );
    assert!(reply.is_ok());
    let moved = world.maps.get(0).unwrap().entity(0).unwrap().pos;
    assert_eq!(moved, (3, 3));
    let fp = frozen.players.get(pid).unwrap();
    let fe = frozen
        .maps
        .get(fp.map_id)
        .unwrap()
        .entity(fp.entity_id)
        .unwrap();
    assert_eq!(fe.pos, (2, 3));
    assert_eq!(fp.name, "Lolz");
}
