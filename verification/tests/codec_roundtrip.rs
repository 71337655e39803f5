use castlemaker::codec::decode_client;
use castlemaker::codec::decode_server;
use castlemaker::codec::deserialize_client;
use castlemaker::codec::encode_client;
use castlemaker::codec::encode_server;
use castlemaker::codec::frame_payload_len;
use castlemaker::codec::serialize_client;
use castlemaker::codec::FromClient;
use castlemaker::codec::FromServer;
use castlemaker::Dir;
use castlemaker::MapLoc;
use castlemaker::World;

fn build_world() -> World {
    let mut world = World::new();
    world
        .add_player(String::from("Lölz ☃"), MapLoc { map_id: 0, pos: (2, 3) })
        .unwrap();
    world
        .add_player(String::from("second"), MapLoc { map_id: 0, pos: (7, 8) })
        .unwrap();
    world
}

#[test]
fn every_client_variant_round_trips() {
    let messages = vec![
        FromClient::MoveDir(Dir::Up),
        FromClient::MoveDir(Dir::Down),
        FromClient::MoveDir(Dir::Left),
        FromClient::MoveDir(Dir::Right),
        FromClient::Noop,
    ];
    for m in messages {
        let bytes = encode_client(&m);
        let back = decode_client(&bytes).unwrap();
        assert_eq!(back, m);
    }
}

#[test]
fn server_noop_round_trips() {
    let bytes = encode_server(&FromServer::Noop);
    match decode_server(&bytes).unwrap() {
        FromServer::Noop => {}
        FromServer::SendWorld(_) => panic!("wrong variant came back"),
    }
}

#[test]
fn server_world_round_trips_in_all_observable_fields() {
    let world = build_world();
    let expected_render = world.maps.get(0).unwrap().render();
    let bytes = encode_server(&FromServer::SendWorld(world));
    let back = match decode_server(&bytes).unwrap() {
        FromServer::SendWorld(w) => w,
        FromServer::Noop => panic!("wrong variant came back"),
    };
    assert_eq!(back.maps.len(), 1);
    assert_eq!(back.players.len(), 2);
    let p0 = back.players.get(0).unwrap();
    assert_eq!(p0.name, "Lölz ☃");
    assert_eq!(p0.map_id, 0);
    let e0 = back.maps.get(0).unwrap().entity(p0.entity_id).unwrap();
    assert_eq!(e0.pos, (2, 3));
    assert_eq!(e0.sprite, b'P');
    let p1 = back.players.get(1).unwrap();
    assert_eq!(p1.name, "second");
    let e1 = back.maps.get(0).unwrap().entity(p1.entity_id).unwrap();
    assert_eq!(e1.pos, (7, 8));
    let map = back.maps.get(0).unwrap();
    assert_eq!(map.width(), 20);
    assert_eq!(map.height(), 12);
    assert_eq!(map.render(), expected_render);
}

#[test]
fn encoding_is_deterministic() {
    let a = encode_server(&FromServer::SendWorld(build_world()));
    let b = encode_server(&FromServer::SendWorld(build_world()));
    assert_eq!(a, b);
    let c = encode_client(&FromClient::MoveDir(Dir::Left));
    let d = encode_client(&FromClient::MoveDir(Dir::Left));
    assert_eq!(c, d);
}

#[test]
fn frame_prefix_matches_payload_length() {
    let bytes = encode_client(&FromClient::Noop);
    let n = frame_payload_len(&bytes).unwrap();
    assert_eq!(n, bytes.len() - 8);
}

#[test]
fn truncated_and_corrupted_frames_are_refused() {
    let good = encode_client(&FromClient::MoveDir(Dir::Up));
    let mut truncated = good.clone();
    truncated.pop();
    assert!(decode_client(&truncated).is_err());
    let short: Vec<u8> = vec![1, 2, 3];
    assert!(decode_client(&short).is_err());
    let mut long = good.clone();
    long.push(0);
    assert!(decode_client(&long).is_err());
    assert!(decode_server(&Vec::new()).is_err());
}

#[test]
fn malformed_serialized_messages_are_refused() {
    // an unknown message tag
    let bad_tag: Vec<u8> = vec![9];
    assert!(deserialize_client(&bad_tag).is_err());
    // an unknown direction tag behind a valid message tag
    let bad_dir: Vec<u8> = vec![0, 77];
    assert!(deserialize_client(&bad_dir).is_err());
    // trailing garbage after a complete message
    let mut trailing = serialize_client(&FromClient::Noop);
    trailing.push(0);
    assert!(deserialize_client(&trailing).is_err());
    // empty input
    assert!(deserialize_client(&Vec::new()).is_err());
}
