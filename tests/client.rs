use node_tunnel::client::ClientEvent;
use node_tunnel::client::RelayClient;
use node_tunnel::client::KEEPALIVE_BYTE;
use node_tunnel::frame::decode_frame;
use node_tunnel::frame::encode_frame;
use node_tunnel::frame::Frame;
use node_tunnel::frame::FrameError;
use node_tunnel::message::PacketType;
use node_tunnel::receiver::ReliableReceiver;
use node_tunnel::session::Channel;
use node_tunnel::session::RelayClientError;
use node_tunnel::session::RelayEvent;
use node_tunnel::session::RelayMode;
use node_tunnel::session::Session;
use node_tunnel::session::SessionState;
use node_tunnel::session::CLIENT_VERSION;

/// A reliable frame from the relay carrying `msg` under `seq`.
fn from_relay(seq: u32, msg: PacketType) -> Vec<u8> {
    encode_frame(&Frame::Reliable { seq, payload: msg.to_bytes() })
}

/// The messages in the reliable and unreliable frames of `frames`.
fn messages(frames: &[Vec<u8>]) -> Vec<PacketType> {
    let mut out = Vec::new();
    for f in frames {
        match decode_frame(f).unwrap() {
            Frame::Reliable { payload, .. } => out.push(PacketType::from_bytes(&payload).unwrap()),
            Frame::Unreliable { payload } => {
                if let Ok(m) = PacketType::from_bytes(&payload) {
                    out.push(m)
                }
            }
            Frame::Ack { .. } => {}
        }
    }
    out
}

/// A client that connected, authenticated with `app_id` and holds the
/// relay's next reliable sequence number.
fn authenticated(app_id: &str) -> (RelayClient, u32) {
    let mut c = RelayClient::new();
    c.connect(app_id.to_string());
    assert_eq!(c.state(), SessionState::Connecting);
    let ev = c.on_transport_connected();
    assert_eq!(ev, vec![RelayEvent::ConnectedToServer]);
    assert_eq!(c.state(), SessionState::Connected);
    let sent = messages(&c.take_outgoing());
    assert_eq!(
        sent,
        vec![PacketType::Authenticate { app_id: app_id.to_string(), version: CLIENT_VERSION.to_string() }]
    );
    c.receive_datagram(&encode_frame(&Frame::Ack { seq: 0 }));
    let inbound = c.receive_datagram(&from_relay(0, PacketType::ClientAuthenticated));
    assert_eq!(inbound.events, vec![RelayEvent::Authenticated]);
    assert_eq!(c.state(), SessionState::Authenticated);
    (c, 1)
}

#[test]
fn host_room_scenario() {
    let (mut c, seq) = authenticated("game-1");
    c.take_outgoing();
    c.host_room(true, "meta".to_string()).unwrap();
    assert_eq!(c.state(), SessionState::AwaitingRoom);
    assert_eq!(
        messages(&c.take_outgoing()),
        vec![PacketType::CreateRoom { public: true, metadata: "meta".to_string() }]
    );
    let inbound = c.receive_datagram(&from_relay(
        seq,
        PacketType::ConnectedToRoom { room_id: "R1".to_string(), peer_id: 1, existing_peers: vec![] },
    ));
    assert_eq!(
        inbound.events,
        vec![RelayEvent::RoomJoined { room_id: "R1".to_string(), peer_id: 1, existing_peers: vec![] }]
    );
    assert_eq!(c.state(), SessionState::InRoom);
    assert_eq!(c.session().local_peer_id(), Some(1));
    assert!(c.is_server());
    assert_eq!(c.session().room_id(), Some(&"R1".to_string()));
    assert_eq!(c.session().mode(), &RelayMode::HostingRoom);
}

#[test]
fn join_room_scenario_reports_existing_peer_first() {
    let (mut c, seq) = authenticated("game-1");
    c.join_room("R1".to_string()).unwrap();
    assert_eq!(c.session().mode(), &RelayMode::JoiningRoom("R1".to_string()));
    let inbound = c.receive_datagram(&from_relay(
        seq,
        PacketType::ConnectedToRoom { room_id: "R1".to_string(), peer_id: 2, existing_peers: vec![1] },
    ));
    assert_eq!(
        inbound.events,
        vec![
            RelayEvent::PeerJoinedRoom { peer_id: 1 },
            RelayEvent::RoomJoined { room_id: "R1".to_string(), peer_id: 2, existing_peers: vec![1] },
        ]
    );
    assert_eq!(c.state(), SessionState::InRoom);
    assert_eq!(c.session().peers(), &vec![1]);
    assert!(!c.is_server());
}

/// A client in room "R1" under `peer_id`.
fn in_room(peer_id: i32, existing: Vec<i32>) -> (RelayClient, u32) {
    let (mut c, seq) = authenticated("game-1");
    if peer_id == 1 {
        c.host_room(false, String::new()).unwrap();
    } else {
        c.join_room("R1".to_string()).unwrap();
    }
    c.receive_datagram(&encode_frame(&Frame::Ack { seq: 1 }));
    c.receive_datagram(&from_relay(
        seq,
        PacketType::ConnectedToRoom { room_id: "R1".to_string(), peer_id, existing_peers: existing },
    ));
    c.take_outgoing();
    (c, seq + 1)
}

#[test]
fn unreliable_game_data_arrives_unmodified() {
    let (mut a, _) = in_room(1, vec![]);
    let data: Vec<u8> = (0u8..10).collect();
    a.send_game_data(2, data.clone(), Channel::Unreliable).unwrap();
    let frames = a.take_outgoing();
    assert_eq!(frames.len(), 1);
    assert_eq!(messages(&frames), vec![PacketType::GameData { from_peer: 2, data: data.clone() }]);

    let (mut b, _) = in_room(2, vec![1]);
    let relayed = encode_frame(&Frame::Unreliable {
        payload: PacketType::GameData { from_peer: 1, data: data.clone() }.to_bytes(),
    });
    let expected = vec![RelayEvent::GameDataReceived { channel: Channel::Unreliable, from_peer: 1, data: data.clone() }];
    assert_eq!(b.receive_datagram(&relayed).events, expected);
    assert_eq!(b.receive_datagram(&relayed).events, expected);
}

#[test]
fn reliable_game_data_survives_lost_frame_and_ack() {
    let (mut a, _) = in_room(1, vec![]);
    let mut relay_rx = ReliableReceiver::new();
    // The relay already received A's two earlier reliable requests.
    relay_rx.receive(0, vec![]);
    relay_rx.receive(1, vec![]);
    a.send_game_data(2, vec![5, 5, 5], Channel::Reliable).unwrap();
    let first = a.take_outgoing();
    assert_eq!(first.len(), 1);
    // First transmission lost.
    a.poll(50);
    assert!(a.take_outgoing().is_empty());
    a.poll(50);
    let resent = a.take_outgoing();
    assert_eq!(resent.len(), 1);
    let mut deliveries = Vec::new();
    let (seq, payload) = match decode_frame(&resent[0]).unwrap() {
        Frame::Reliable { seq, payload } => (seq, payload),
        _ => panic!("expected reliable frame"),
    };
    let r = relay_rx.receive(seq, payload);
    deliveries.extend(r.delivered);
    // Its acknowledgment is lost too.
    a.poll(50);
    assert!(a.take_outgoing().is_empty());
    a.poll(50);
    let resent2 = a.take_outgoing();
    assert_eq!(resent2.len(), 1);
    let (seq2, payload2) = match decode_frame(&resent2[0]).unwrap() {
        Frame::Reliable { seq, payload } => (seq, payload),
        _ => panic!("expected reliable frame"),
    };
    let r2 = relay_rx.receive(seq2, payload2);
    deliveries.extend(r2.delivered);
    a.receive_datagram(&encode_frame(&Frame::Ack { seq: r2.ack.unwrap() }));
    a.poll(200);
    assert!(a.take_outgoing().is_empty());
    assert_eq!(deliveries.len(), 1);
    assert_eq!(
        PacketType::from_bytes(&deliveries[0]),
        Ok(PacketType::GameData { from_peer: 2, data: vec![5, 5, 5] })
    );
}

#[test]
fn relay_data_is_acknowledged() {
    let (mut b, seq) = in_room(2, vec![1]);
    let inbound = b.receive_datagram(&from_relay(
        seq,
        PacketType::GameData { from_peer: 1, data: vec![1] },
    ));
    assert_eq!(
        inbound.events,
        vec![RelayEvent::GameDataReceived { channel: Channel::Reliable, from_peer: 1, data: vec![1] }]
    );
    let out = b.take_outgoing();
    assert_eq!(out, vec![encode_frame(&Frame::Ack { seq })]);
}

#[test]
fn authenticate_before_connected_is_rejected() {
    let mut s = Session::new();
    assert_eq!(s.authenticate("game-1".to_string()), Err(RelayClientError::TransportNotInitialized));
    s.connect();
    assert_eq!(
        s.authenticate("game-1".to_string()),
        Err(RelayClientError::WrongState { state: SessionState::Connecting })
    );
    assert_eq!(s.state(), SessionState::Connecting);
}

#[test]
fn connected_to_room_outside_awaiting_room_is_discarded() {
    let (mut c, seq) = authenticated("game-1");
    let inbound = c.receive_datagram(&from_relay(
        seq,
        PacketType::ConnectedToRoom { room_id: "R1".to_string(), peer_id: 1, existing_peers: vec![] },
    ));
    assert!(inbound.events.is_empty());
    assert_eq!(
        inbound.faults,
        vec![RelayClientError::UnexpectedMessage { tag: 7, state: SessionState::Authenticated }]
    );
    assert_eq!(c.state(), SessionState::Authenticated);
    assert_eq!(c.session().local_peer_id(), None);
}

#[test]
fn data_before_authentication_is_a_violation() {
    let mut s = Session::new();
    s.connect();
    s.on_transport_connected();
    let r = s.handle_packet(PacketType::GameData { from_peer: 1, data: vec![1] }, Channel::Reliable);
    assert_eq!(r, Err(RelayClientError::UnexpectedMessage { tag: 11, state: SessionState::Connected }));
    let r2 = s.handle_packet(PacketType::ClientAuthenticated, Channel::Reliable);
    assert_eq!(r2, Err(RelayClientError::UnexpectedMessage { tag: 6, state: SessionState::Connected }));
    let r3 = s.handle_packet(PacketType::JoinRoom { room_id: "x".to_string() }, Channel::Reliable);
    assert_eq!(r3, Err(RelayClientError::InvalidPacketType { tag: 2 }));
}

#[test]
fn peers_joining_and_leaving() {
    let (mut host, seq) = in_room(1, vec![]);
    let ev = host.receive_datagram(&from_relay(seq, PacketType::PeerJoinedRoom { peer_id: 2 })).events;
    assert_eq!(ev, vec![RelayEvent::PeerJoinedRoom { peer_id: 2 }]);
    host.receive_datagram(&from_relay(seq + 1, PacketType::PeerJoinedRoom { peer_id: 2 }));
    assert_eq!(host.session().peers(), &vec![2]);
    let ev = host.receive_datagram(&from_relay(seq + 2, PacketType::PeerLeftRoom { peer_id: 2 })).events;
    assert_eq!(ev, vec![RelayEvent::PeerLeftRoom { peer_id: 2 }]);
    assert!(host.session().peers().is_empty());

    let (mut guest, gseq) = in_room(3, vec![1]);
    let ev = guest.receive_datagram(&from_relay(gseq, PacketType::PeerJoinedRoom { peer_id: 4 })).events;
    assert!(ev.is_empty());
    assert_eq!(guest.session().peers(), &vec![1, 4]);
}

#[test]
fn force_disconnect_clears_session_and_channel() {
    let (mut c, seq) = in_room(2, vec![1]);
    c.send_game_data(1, vec![1], Channel::Reliable).unwrap();
    let ev = c.receive_datagram(&from_relay(seq, PacketType::ForceDisconnect)).events;
    assert_eq!(ev, vec![RelayEvent::ForceDisconnect]);
    assert_eq!(c.state(), SessionState::Disconnected);
    assert!(c.session().peers().is_empty());
    assert_eq!(c.session().local_peer_id(), None);
    assert!(c.take_outgoing().is_empty());
    c.poll(1000);
    assert!(c.take_outgoing().is_empty());
}

#[test]
fn relay_error_is_reported_and_session_stays() {
    let (mut c, seq) = in_room(2, vec![1]);
    let ev = c.receive_datagram(&from_relay(
        seq,
        PacketType::Error { error_code: 3, error_message: "full".to_string() },
    ))
    .events;
    assert_eq!(ev, vec![RelayEvent::Error { error_code: 3, error_message: "full".to_string() }]);
    assert_eq!(c.state(), SessionState::InRoom);
}

#[test]
fn room_list_is_replaced_wholesale() {
    let (mut c, seq) = authenticated("game-1");
    c.list_rooms().unwrap();
    assert_eq!(messages(&c.take_outgoing()), vec![PacketType::ListRooms]);
    let rooms = vec![node_tunnel::message::RoomInfo { id: "R1".to_string(), metadata: "m".to_string() }];
    let ev = c.receive_datagram(&from_relay(seq, PacketType::RoomsInfo { rooms: rooms.clone() })).events;
    assert_eq!(ev, vec![RelayEvent::RoomsReceived { rooms: rooms.clone() }]);
    assert_eq!(c.session().rooms(), &rooms);
    c.receive_datagram(&from_relay(seq + 1, PacketType::RoomsInfo { rooms: vec![] }));
    assert!(c.session().rooms().is_empty());
}

#[test]
fn update_room_carries_current_room() {
    let (mut c, _) = in_room(1, vec![]);
    c.update_room("new".to_string()).unwrap();
    assert_eq!(
        messages(&c.take_outgoing()),
        vec![PacketType::UpdateRoom { room_id: "R1".to_string(), metadata: "new".to_string() }]
    );
}

#[test]
fn requests_in_wrong_state_are_refused() {
    let mut c = RelayClient::new();
    assert_eq!(c.host_room(true, String::new()), Err(RelayClientError::TransportNotInitialized));
    c.connect("game-1".to_string());
    assert_eq!(
        c.join_room("R1".to_string()),
        Err(RelayClientError::WrongState { state: SessionState::Connecting })
    );
    assert_eq!(
        c.send_game_data(2, vec![1], Channel::Unreliable),
        Err(RelayClientError::WrongState { state: SessionState::Connecting })
    );
    assert_eq!(c.list_rooms(), Err(RelayClientError::WrongState { state: SessionState::Connecting }));
    assert!(c.take_outgoing().is_empty());
}

#[test]
fn keepalive_every_five_seconds_of_session_time() {
    let (mut c, _) = authenticated("game-1");
    c.take_outgoing();
    c.poll(4999);
    assert!(c.take_outgoing().is_empty());
    c.poll(1);
    assert_eq!(c.take_outgoing(), vec![vec![0x01, KEEPALIVE_BYTE]]);
}

#[test]
fn requeued_frames_go_first() {
    let (mut c, _) = in_room(1, vec![]);
    c.send_game_data(2, vec![1], Channel::Unreliable).unwrap();
    let first = c.take_outgoing();
    c.send_game_data(2, vec![2], Channel::Unreliable).unwrap();
    c.requeue(first.clone());
    let all = c.take_outgoing();
    assert_eq!(all.len(), 2);
    assert_eq!(all[0], first[0]);
}

#[test]
fn malformed_datagrams_are_dropped() {
    let (mut c, seq) = authenticated("game-1");
    let r = c.receive_datagram(&[9, 9]);
    assert!(r.events.is_empty());
    assert_eq!(r.faults, vec![RelayClientError::PacketParsingError]);
    let r2 = c.receive_datagram(&encode_frame(&Frame::Reliable { seq, payload: vec![99] }));
    assert!(r2.events.is_empty());
    assert_eq!(r2.faults, vec![RelayClientError::PacketParsingError]);
    assert_eq!(c.state(), SessionState::Authenticated);
}

#[test]
fn disconnect_resets_everything() {
    let (mut c, _) = in_room(1, vec![]);
    c.send_game_data(2, vec![1], Channel::Reliable).unwrap();
    c.disconnect();
    assert_eq!(c.state(), SessionState::Disconnected);
    assert!(c.take_outgoing().is_empty());
    assert_eq!(c.session().local_peer_id(), None);
}

#[test]
fn receive_frame_hands_over_payloads_in_order() {
    let (mut c, seq) = in_room(2, vec![1]);
    let m1 = PacketType::PeerJoinedRoom { peer_id: 4 }.to_bytes();
    let m2 = PacketType::PeerLeftRoom { peer_id: 4 }.to_bytes();
    let early = c.receive_frame(&encode_frame(&Frame::Reliable { seq: seq + 1, payload: m2.clone() })).unwrap();
    assert!(early.is_empty());
    let both = c.receive_frame(&encode_frame(&Frame::Reliable { seq, payload: m1.clone() })).unwrap();
    assert_eq!(
        both,
        vec![
            ClientEvent::PacketReceived { data: m1, channel: Channel::Reliable },
            ClientEvent::PacketReceived { data: m2, channel: Channel::Reliable },
        ]
    );
    assert_eq!(c.state(), SessionState::InRoom);
    assert_eq!(c.session().peers(), &vec![1]);
    let r = c.handle_events(&both);
    assert!(r.faults.is_empty());
    assert_eq!(r.events, vec![RelayEvent::PeerLeftRoom { peer_id: 4 }]);
    assert_eq!(c.session().peers(), &vec![1]);
    assert_eq!(c.receive_frame(&[]), Err(FrameError::Empty));
}

#[test]
fn relay_error_while_connecting_is_reported() {
    let mut c = RelayClient::new();
    c.connect("game-1".to_string());
    let frame = encode_frame(&Frame::Unreliable {
        payload: PacketType::Error { error_code: 9, error_message: "busy".to_string() }.to_bytes(),
    });
    let r = c.receive_datagram(&frame);
    assert_eq!(r.events, vec![RelayEvent::Error { error_code: 9, error_message: "busy".to_string() }]);
    assert!(r.faults.is_empty());
    assert_eq!(c.state(), SessionState::Connecting);
}

#[test]
fn send_ready_in_room_only() {
    let (mut c, _) = authenticated("game-1");
    c.take_outgoing();
    assert_eq!(c.send_ready(), Err(RelayClientError::WrongState { state: SessionState::Authenticated }));
    assert!(c.take_outgoing().is_empty());
    let (mut r, _) = in_room(2, vec![1]);
    r.send_ready().unwrap();
    assert_eq!(messages(&r.take_outgoing()), vec![PacketType::PeerReady]);
}

#[test]
fn refused_message_is_reported_as_fault() {
    let (mut c, seq) = authenticated("game-1");
    let r = c.receive_datagram(&from_relay(seq, PacketType::ListRooms));
    assert!(r.events.is_empty());
    assert_eq!(r.faults, vec![RelayClientError::InvalidPacketType { tag: 4 }]);
}
