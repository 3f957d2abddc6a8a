use node_tunnel::message::PacketType;
use node_tunnel::message::RoomInfo;
use node_tunnel::wire::FieldKind;
use node_tunnel::wire::ProtocolError;

fn round_trip(m: PacketType) {
    let bytes = m.to_bytes();
    assert_eq!(PacketType::from_bytes(&bytes), Ok(m));
}

#[test]
fn every_variant_round_trips() {
    round_trip(PacketType::Authenticate { app_id: "game-1".to_string(), version: "1.0.0".to_string() });
    round_trip(PacketType::CreateRoom { public: true, metadata: "{\"map\":2}".to_string() });
    round_trip(PacketType::CreateRoom { public: false, metadata: String::new() });
    round_trip(PacketType::JoinRoom { room_id: "R1".to_string() });
    round_trip(PacketType::UpdateRoom { room_id: "R1".to_string(), metadata: "full".to_string() });
    round_trip(PacketType::ListRooms);
    round_trip(PacketType::RoomsInfo {
        rooms: vec![
            RoomInfo { id: "R1".to_string(), metadata: "a".to_string() },
            RoomInfo { id: "R2".to_string(), metadata: "ünï".to_string() },
        ],
    });
    round_trip(PacketType::RoomsInfo { rooms: vec![] });
    round_trip(PacketType::ClientAuthenticated);
    round_trip(PacketType::ConnectedToRoom { room_id: "R1".to_string(), peer_id: 2, existing_peers: vec![1, 5] });
    round_trip(PacketType::ConnectedToRoom { room_id: "R1".to_string(), peer_id: 1, existing_peers: vec![] });
    round_trip(PacketType::PeerJoinedRoom { peer_id: 3 });
    round_trip(PacketType::PeerLeftRoom { peer_id: -4 });
    round_trip(PacketType::PeerReady);
    round_trip(PacketType::GameData { from_peer: 2, data: vec![0, 1, 2, 255] });
    round_trip(PacketType::ForceDisconnect);
    round_trip(PacketType::Error { error_code: 404, error_message: "no room".to_string() });
}

#[test]
fn encodings_are_exact() {
    assert_eq!(PacketType::ListRooms.to_bytes(), vec![4]);
    assert_eq!(PacketType::PeerJoinedRoom { peer_id: 3 }.to_bytes(), vec![8, 0, 0, 0, 3]);
    assert_eq!(
        PacketType::JoinRoom { room_id: "R1".to_string() }.to_bytes(),
        vec![2, 0, 0, 0, 2, b'R', b'1']
    );
    assert_eq!(
        PacketType::CreateRoom { public: true, metadata: "m".to_string() }.to_bytes(),
        vec![1, 1, 0, 0, 0, 1, b'm']
    );
    assert_eq!(
        PacketType::ConnectedToRoom { room_id: "R".to_string(), peer_id: 2, existing_peers: vec![1] }.to_bytes(),
        vec![7, 0, 0, 0, 1, b'R', 0, 0, 0, 2, 0, 0, 0, 1, 0, 0, 0, 1]
    );
    assert_eq!(
        PacketType::GameData { from_peer: 1, data: vec![7, 7] }.to_bytes(),
        vec![11, 0, 0, 0, 1, 0, 0, 0, 2, 7, 7]
    );
}

#[test]
fn unknown_tag_is_an_error() {
    assert_eq!(PacketType::from_bytes(&[14]), Err(ProtocolError::UnknownTag { tag: 14 }));
    assert_eq!(PacketType::from_bytes(&[200, 1, 2]), Err(ProtocolError::UnknownTag { tag: 200 }));
}

#[test]
fn empty_input_is_an_error() {
    assert_eq!(
        PacketType::from_bytes(&[]),
        Err(ProtocolError::NotEnoughBytes { field: FieldKind::Tag, need: 1, have: 0 })
    );
}

#[test]
fn trailing_bytes_are_an_error() {
    assert_eq!(PacketType::from_bytes(&[4, 0]), Err(ProtocolError::TrailingBytes { count: 1 }));
    assert_eq!(
        PacketType::from_bytes(&[8, 0, 0, 0, 3, 9, 9]),
        Err(ProtocolError::TrailingBytes { count: 2 })
    );
}

#[test]
fn truncated_fields_are_errors() {
    assert_eq!(
        PacketType::from_bytes(&[2, 0, 0, 0, 5, b'R']),
        Err(ProtocolError::NotEnoughBytes { field: FieldKind::Str, need: 5, have: 1 })
    );
    assert!(PacketType::from_bytes(&[7, 0, 0, 0, 1, b'R', 0, 0, 0, 2, 0, 0, 0, 2, 0, 0, 0, 1]).is_err());
    assert_eq!(
        PacketType::from_bytes(&[5, 0xFF, 0xFF, 0xFF, 0xFF]),
        Err(ProtocolError::NegativeLength { field: FieldKind::Int, len: -1 })
    );
}

#[test]
fn bad_flag_and_utf8_are_errors() {
    assert_eq!(
        PacketType::from_bytes(&[1, 2, 0, 0, 0, 0]),
        Err(ProtocolError::InvalidFlag { value: 2 })
    );
    assert_eq!(
        PacketType::from_bytes(&[2, 0, 0, 0, 1, 0xFF]),
        Err(ProtocolError::InvalidUtf8)
    );
}
