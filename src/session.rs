//! The client session: which protocol step the client is at, which requests
//! it may make there, and what each message from the relay does to it.

use vstd::prelude::*;
use crate::message::PacketType;
use crate::message::PacketView;
use crate::message::RoomInfo;
use crate::message::RoomInfoView;
use crate::message::tag_of;
use crate::message::wf;
use crate::wire::str_fits;

verus! {

/// The peer id that conventionally denotes the room's authority: the peer
/// that hosts the room and acts as its server.
pub const AUTHORITY_PEER_ID: i32 = 1;

/// The protocol version sent when authenticating.
pub const CLIENT_VERSION: &'static str = "1.0.0";

/// Delivery quality of a message.
#[derive(Debug, Clone, Copy, PartialEq, Eq, Structural)]
pub enum Channel {
    /// Ordered, acknowledged and retransmitted until acknowledged.
    Reliable,
    /// Best effort: no retry, no ordering, no duplicate suppression.
    Unreliable,
}

/// The step of the protocol that the client is at.
#[derive(Debug, Clone, Copy, PartialEq, Eq, Structural)]
pub enum SessionState {
    Connecting,
    Connected,
    Authenticated,
    AwaitingRoom,
    InRoom,
    Disconnected,
}

/// The room request the client made last.
#[derive(Debug, Clone, PartialEq, Eq)]
pub enum RelayMode {
    NoRoom,
    HostingRoom,
    JoiningRoom(String),
}

/// The mathematical form of a [`RelayMode`].
pub enum ModeView {
    NoRoom,
    HostingRoom,
    JoiningRoom(Seq<char>),
}

impl View for RelayMode {
    type V = ModeView;

    open spec fn view(&self) -> ModeView {
        match self {
            RelayMode::NoRoom => ModeView::NoRoom,
            RelayMode::HostingRoom => ModeView::HostingRoom,
            RelayMode::JoiningRoom(r) => ModeView::JoiningRoom(r@),
        }
    }
}

/// What the session reports to the host.
#[derive(Debug, Clone, PartialEq, Eq)]
pub enum RelayEvent {
    ConnectedToServer,
    Authenticated,
    RoomsReceived { rooms: Vec<RoomInfo> },
    RoomJoined { room_id: String, peer_id: i32, existing_peers: Vec<i32> },
    PeerJoinedRoom { peer_id: i32 },
    PeerLeftRoom { peer_id: i32 },
    GameDataReceived { channel: Channel, from_peer: i32, data: Vec<u8> },
    ForceDisconnect,
    Error { error_code: i32, error_message: String },
}

/// The mathematical form of a [`RelayEvent`].
pub enum EventView {
    ConnectedToServer,
    Authenticated,
    RoomsReceived { rooms: Seq<RoomInfoView> },
    RoomJoined { room_id: Seq<char>, peer_id: i32, existing_peers: Seq<i32> },
    PeerJoinedRoom { peer_id: i32 },
    PeerLeftRoom { peer_id: i32 },
    GameDataReceived { channel: Channel, from_peer: i32, data: Seq<u8> },
    ForceDisconnect,
    Error { error_code: i32, error_message: Seq<char> },
}

impl View for RelayEvent {
    type V = EventView;

    open spec fn view(&self) -> EventView {
        match self {
            RelayEvent::ConnectedToServer => EventView::ConnectedToServer,
            RelayEvent::Authenticated => EventView::Authenticated,
            RelayEvent::RoomsReceived { rooms } => EventView::RoomsReceived {
                rooms: rooms@.map_values(|r: RoomInfo| r@),
            },
            RelayEvent::RoomJoined { room_id, peer_id, existing_peers } => EventView::RoomJoined {
                room_id: room_id@,
                peer_id: *peer_id,
                existing_peers: existing_peers@,
            },
            RelayEvent::PeerJoinedRoom { peer_id } => EventView::PeerJoinedRoom { peer_id: *peer_id },
            RelayEvent::PeerLeftRoom { peer_id } => EventView::PeerLeftRoom { peer_id: *peer_id },
            RelayEvent::GameDataReceived { channel, from_peer, data } => EventView::GameDataReceived {
                channel: *channel,
                from_peer: *from_peer,
                data: data@,
            },
            RelayEvent::ForceDisconnect => EventView::ForceDisconnect,
            RelayEvent::Error { error_code, error_message } => EventView::Error {
                error_code: *error_code,
                error_message: error_message@,
            },
        }
    }
}

/// Why the session refused a request or a message.
#[derive(Debug, Clone, PartialEq, Eq)]
pub enum RelayClientError {
    /// No connection was started, or the session has ended.
    TransportNotInitialized,
    /// The request is not allowed at the current step.
    WrongState { state: SessionState },
    /// The relay sent a message that only a client sends.
    InvalidPacketType { tag: u8 },
    /// The relay sent a message that is not allowed at the current step.
    UnexpectedMessage { tag: u8, state: SessionState },
    /// A datagram held no decodable message.
    PacketParsingError,
    /// A string or payload is too long for its length prefix.
    FieldTooLong,
    /// Every reliable sequence number is in flight.
    SendWindowFull,
}

/// The mathematical form of a [`Session`].
pub struct SessionView {
    pub state: SessionState,
    pub auth_sent: bool,
    pub mode: ModeView,
    pub local_peer_id: Option<i32>,
    pub room_id: Option<Seq<char>>,
    pub peers: Seq<i32>,
    pub rooms: Seq<RoomInfoView>,
}

/// The session's invariant: the room identifier it holds fits a length
/// prefix, so requests that carry it can be encoded.
pub open spec fn session_wf(v: SessionView) -> bool {
    v.room_id is Some ==> str_fits(v.room_id->Some_0)
}

/// The session of a client that has not connected, or whose session ended.
pub open spec fn disconnected_view() -> SessionView {
    SessionView {
        state: SessionState::Disconnected,
        auth_sent: false,
        mode: ModeView::NoRoom,
        local_peer_id: None,
        room_id: None,
        peers: Seq::empty(),
        rooms: Seq::empty(),
    }
}

/// `peers` without any occurrence of `p`.
pub open spec fn without(peers: Seq<i32>, p: i32) -> Seq<i32>
    decreases peers.len(),
{
    if peers.len() == 0 {
        peers
    } else if peers.last() == p {
        without(peers.drop_last(), p)
    } else {
        without(peers.drop_last(), p).push(peers.last())
    }
}

/// `peers` with `p` added unless it is there already.
pub open spec fn with_peer(peers: Seq<i32>, p: i32) -> Seq<i32> {
    if peers.contains(p) {
        peers
    } else {
        peers.push(p)
    }
}

/// Whether the local peer is the room's authority.
pub open spec fn is_authority(v: SessionView) -> bool {
    v.local_peer_id == Some(AUTHORITY_PEER_ID)
}

/// Whether the relay may send a message tagged like `m` at all.
pub open spec fn relay_sends(m: PacketView) -> bool {
    match m {
        PacketView::RoomsInfo { .. } | PacketView::ClientAuthenticated | PacketView::ConnectedToRoom { .. }
        | PacketView::PeerJoinedRoom { .. } | PacketView::PeerLeftRoom { .. } | PacketView::GameData { .. }
        | PacketView::ForceDisconnect | PacketView::Error { .. } => true,
        _ => false,
    }
}

/// The events that entering a room reports: one join for each peer already
/// there, then the room itself.
pub open spec fn room_entry_events(room_id: Seq<char>, peer_id: i32, existing: Seq<i32>) -> Seq<EventView> {
    existing.map_values(|p: i32| EventView::PeerJoinedRoom { peer_id: p }).push(
        EventView::RoomJoined { room_id, peer_id, existing_peers: existing },
    )
}

/// What a message from the relay does at state `v`: the next state and the
/// events reported, or `None` when the message is refused and changes
/// nothing.
pub open spec fn handle_step(v: SessionView, m: PacketView, channel: Channel) -> Option<(SessionView, Seq<EventView>)> {
    let s = v.state;
    match m {
        PacketView::ClientAuthenticated => if s == SessionState::Connected && v.auth_sent {
            Some((SessionView { state: SessionState::Authenticated, ..v }, seq![EventView::Authenticated]))
        } else {
            None
        },
        PacketView::ConnectedToRoom { room_id, peer_id, existing_peers } => if s == SessionState::AwaitingRoom {
            Some((
                SessionView {
                    state: SessionState::InRoom,
                    local_peer_id: Some(peer_id),
                    room_id: Some(room_id),
                    peers: existing_peers,
                    ..v
                },
                room_entry_events(room_id, peer_id, existing_peers),
            ))
        } else {
            None
        },
        PacketView::PeerJoinedRoom { peer_id } => if s == SessionState::InRoom {
            Some((
                SessionView { peers: with_peer(v.peers, peer_id), ..v },
                if is_authority(v) {
                    seq![EventView::PeerJoinedRoom { peer_id }]
                } else {
                    Seq::empty()
                },
            ))
        } else {
            None
        },
        PacketView::PeerLeftRoom { peer_id } => if s == SessionState::InRoom {
            Some((SessionView { peers: without(v.peers, peer_id), ..v }, seq![EventView::PeerLeftRoom { peer_id }]))
        } else {
            None
        },
        PacketView::GameData { from_peer, data } => if s == SessionState::InRoom {
            Some((v, seq![EventView::GameDataReceived { channel, from_peer, data }]))
        } else {
            None
        },
        PacketView::RoomsInfo { rooms } => if s == SessionState::Authenticated || s == SessionState::AwaitingRoom || s
            == SessionState::InRoom {
            Some((SessionView { rooms, ..v }, seq![EventView::RoomsReceived { rooms }]))
        } else {
            None
        },
        PacketView::Error { error_code, error_message } => if s != SessionState::Disconnected {
            Some((v, seq![EventView::Error { error_code, error_message }]))
        } else {
            None
        },
        PacketView::ForceDisconnect => if s != SessionState::Disconnected {
            Some((disconnected_view(), seq![EventView::ForceDisconnect]))
        } else {
            None
        },
        _ => None,
    }
}

/// Messages out of step are refused and change nothing: room entry only
/// while waiting for a room, confirmation of authentication only on a
/// connected session that asked for it, and room traffic only in a room.
pub proof fn lemma_out_of_step_refused(v: SessionView, m: PacketView, channel: Channel)
    ensures
        m is ConnectedToRoom && v.state != SessionState::AwaitingRoom ==> handle_step(v, m, channel) is None,
        m is ClientAuthenticated && !(v.state == SessionState::Connected && v.auth_sent) ==> handle_step(
            v,
            m,
            channel,
        ) is None,
        (m is GameData || m is PeerJoinedRoom || m is PeerLeftRoom) && v.state != SessionState::InRoom ==> handle_step(
            v,
            m,
            channel,
        ) is None,
        !relay_sends(m) ==> handle_step(v, m, channel) is None,
{
}

/// The client side of the relay session.
pub struct Session {
    state: SessionState,
    auth_sent: bool,
    mode: RelayMode,
    local_peer_id: Option<i32>,
    room_id: Option<String>,
    peers: Vec<i32>,
    rooms: Vec<RoomInfo>,
}

/// The mathematical form of an optional string.
pub open spec fn opt_str_view(s: Option<String>) -> Option<Seq<char>> {
    match s {
        Some(x) => Some(x@),
        None => None,
    }
}

impl View for Session {
    type V = SessionView;

    closed spec fn view(&self) -> SessionView {
        SessionView {
            state: self.state,
            auth_sent: self.auth_sent,
            mode: self.mode@,
            local_peer_id: self.local_peer_id,
            room_id: opt_str_view(self.room_id),
            peers: self.peers@,
            rooms: self.rooms@.map_values(|r: RoomInfo| r@),
        }
    }
}

/// Copies a list of peer ids.
fn copy_ids(xs: &Vec<i32>) -> (r: Vec<i32>)
    ensures
        r@ == xs@,
{
    vstd::slice::slice_to_vec(xs.as_slice())
}

/// Copies a string.
fn copy_string(s: &String) -> (r: String)
    ensures
        r@ == s@,
{
    s.clone()
}

/// Copies a list of rooms.
fn copy_rooms(rs: &Vec<RoomInfo>) -> (r: Vec<RoomInfo>)
    ensures
        r@.map_values(|x: RoomInfo| x@) == rs@.map_values(|x: RoomInfo| x@),
{
    let mut out: Vec<RoomInfo> = Vec::new();
    let mut i: usize = 0;
    while i < rs.len()
        invariant
            i <= rs@.len(),
            out@.map_values(|x: RoomInfo| x@) == rs@.map_values(|x: RoomInfo| x@).take(i as int),
        decreases rs@.len() - i,
    {
        let room = RoomInfo { id: copy_string(&rs[i].id), metadata: copy_string(&rs[i].metadata) };
        let ghost prev = out@.map_values(|x: RoomInfo| x@);
        let ghost all = rs@.map_values(|x: RoomInfo| x@);
        assert(room@ == all[i as int]);
        out.push(room);
        assert(out@.map_values(|x: RoomInfo| x@) =~= prev.push(all[i as int]));
        assert(all.take(i + 1) =~= all.take(i as int).push(all[i as int]));
        i = i + 1;
    }
    assert(rs@.map_values(|x: RoomInfo| x@).take(rs@.len() as int) =~= rs@.map_values(|x: RoomInfo| x@));
    out
}

impl Session {
    /// A session that has not connected.
    pub fn new() -> (r: Self)
        ensures
            r@ == disconnected_view(),
    {
        let r = Session {
            state: SessionState::Disconnected,
            auth_sent: false,
            mode: RelayMode::NoRoom,
            local_peer_id: None,
            room_id: None,
            peers: Vec::new(),
            rooms: Vec::new(),
        };
        assert(r@.peers =~= Seq::<i32>::empty());
        assert(r@.rooms =~= Seq::<RoomInfoView>::empty());
        r
    }

    /// The current step of the protocol.
    pub fn state(&self) -> (r: SessionState)
        ensures
            r == self@.state,
    {
        self.state
    }

    /// The peer id that the relay assigned in the current room.
    pub fn local_peer_id(&self) -> (r: Option<i32>)
        ensures
            r == self@.local_peer_id,
    {
        self.local_peer_id
    }

    /// The peers known to be in the current room.
    pub fn peers(&self) -> (r: &Vec<i32>)
        ensures
            r@ == self@.peers,
    {
        &self.peers
    }

    /// The rooms of the last room list.
    pub fn rooms(&self) -> (r: &Vec<RoomInfo>)
        ensures
            r@.map_values(|x: RoomInfo| x@) == self@.rooms,
    {
        &self.rooms
    }

    /// The identifier of the current room.
    pub fn room_id(&self) -> (r: Option<&String>)
        ensures
            match r {
                Some(s) => self@.room_id == Some(s@),
                None => self@.room_id is None,
            },
    {
        match &self.room_id {
            Some(s) => Some(s),
            None => None,
        }
    }

    /// The room request made last.
    pub fn mode(&self) -> (r: &RelayMode)
        ensures
            r@ == self@.mode,
    {
        &self.mode
    }

    /// Whether the local peer is the room's authority.
    pub fn is_server(&self) -> (r: bool)
        ensures
            r == is_authority(self@),
    {
        match self.local_peer_id {
            Some(id) => id == AUTHORITY_PEER_ID,
            None => false,
        }
    }

    /// Ends the session: the state becomes disconnected and the room
    /// directory is cleared.
    pub fn disconnect(&mut self)
        ensures
            final(self)@ == disconnected_view(),
    {
        *self = Session::new();
    }

    /// Starts a fresh session on a new connection.
    pub fn connect(&mut self)
        ensures
            final(self)@ == (SessionView { state: SessionState::Connecting, ..disconnected_view() }),
    {
        *self = Session::new();
        self.state = SessionState::Connecting;
    }

    /// Reports that the transport reached the relay: a connecting session
    /// becomes connected. Otherwise nothing changes.
    pub fn on_transport_connected(&mut self) -> (r: Option<RelayEvent>)
        ensures
            old(self)@.state == SessionState::Connecting ==> final(self)@ == (SessionView {
                state: SessionState::Connected,
                ..old(self)@
            }) && r == Some(RelayEvent::ConnectedToServer),
            old(self)@.state != SessionState::Connecting ==> final(self)@ == old(self)@ && r is None,
    {
        if self.state == SessionState::Connecting {
            self.state = SessionState::Connected;
            Some(RelayEvent::ConnectedToServer)
        } else {
            None
        }
    }

    /// The error for a request that the current state does not allow.
    fn refusal(&self) -> (r: RelayClientError)
        ensures
            r == refusal_of(self@.state),
    {
        if self.state == SessionState::Disconnected {
            RelayClientError::TransportNotInitialized
        } else {
            RelayClientError::WrongState { state: self.state }
        }
    }

    /// The authentication request, allowed once connected and before the
    /// relay confirmed authentication.
    pub fn authenticate(&mut self, app_id: String) -> (r: Result<PacketType, RelayClientError>)
        ensures
            old(self)@.state == SessionState::Connected ==> r is Ok && r->Ok_0@ == (PacketView::Authenticate {
                app_id: app_id@,
                version: CLIENT_VERSION@,
            }) && final(self)@ == (SessionView { auth_sent: true, ..old(self)@ }),
            old(self)@.state != SessionState::Connected ==> r == Err::<PacketType, RelayClientError>(
                refusal_of(old(self)@.state),
            ) && final(self)@ == old(self)@,
    {
        if self.state != SessionState::Connected {
            return Err(self.refusal());
        }
        self.auth_sent = true;
        Ok(PacketType::Authenticate { app_id, version: CLIENT_VERSION.to_string() })
    }

    /// The request to host a new room, allowed once authenticated and not
    /// yet in or waiting for a room.
    pub fn host_room(&mut self, public: bool, metadata: String) -> (r: Result<PacketType, RelayClientError>)
        ensures
            old(self)@.state == SessionState::Authenticated ==> r is Ok && r->Ok_0@ == (PacketView::CreateRoom {
                public,
                metadata: metadata@,
            }) && final(self)@ == (SessionView {
                state: SessionState::AwaitingRoom,
                mode: ModeView::HostingRoom,
                ..old(self)@
            }),
            old(self)@.state != SessionState::Authenticated ==> r == Err::<PacketType, RelayClientError>(
                refusal_of(old(self)@.state),
            ) && final(self)@ == old(self)@,
    {
        if self.state != SessionState::Authenticated {
            return Err(self.refusal());
        }
        self.state = SessionState::AwaitingRoom;
        self.mode = RelayMode::HostingRoom;
        Ok(PacketType::CreateRoom { public, metadata })
    }

    /// The request to join the room `room_id`, allowed once authenticated
    /// and not yet in or waiting for a room.
    pub fn join_room(&mut self, room_id: String) -> (r: Result<PacketType, RelayClientError>)
        ensures
            old(self)@.state == SessionState::Authenticated ==> r is Ok && r->Ok_0@ == (PacketView::JoinRoom {
                room_id: room_id@,
            }) && final(self)@ == (SessionView {
                state: SessionState::AwaitingRoom,
                mode: ModeView::JoiningRoom(room_id@),
                ..old(self)@
            }),
            old(self)@.state != SessionState::Authenticated ==> r == Err::<PacketType, RelayClientError>(
                refusal_of(old(self)@.state),
            ) && final(self)@ == old(self)@,
    {
        if self.state != SessionState::Authenticated {
            return Err(self.refusal());
        }
        let copy = copy_string(&room_id);
        self.state = SessionState::AwaitingRoom;
        self.mode = RelayMode::JoiningRoom(copy);
        Ok(PacketType::JoinRoom { room_id })
    }

    /// The request for the room list, allowed once authenticated.
    pub fn list_rooms(&self) -> (r: Result<PacketType, RelayClientError>)
        ensures
            authenticated(self@.state) ==> r == Ok::<PacketType, RelayClientError>(PacketType::ListRooms),
            !authenticated(self@.state) ==> r == Err::<PacketType, RelayClientError>(refusal_of(self@.state)),
    {
        if self.state == SessionState::Authenticated || self.state == SessionState::AwaitingRoom || self.state
            == SessionState::InRoom {
            Ok(PacketType::ListRooms)
        } else {
            Err(self.refusal())
        }
    }

    /// The request to replace the current room's metadata, allowed in a
    /// room.
    pub fn update_room(&self, metadata: String) -> (r: Result<PacketType, RelayClientError>)
        ensures
            self@.state == SessionState::InRoom && self@.room_id is Some ==> r is Ok && r->Ok_0@
                == (PacketView::UpdateRoom { room_id: self@.room_id->Some_0, metadata: metadata@ }),
            !(self@.state == SessionState::InRoom && self@.room_id is Some) ==> r == Err::<
                PacketType,
                RelayClientError,
            >(refusal_of(self@.state)),
    {
        if self.state != SessionState::InRoom {
            return Err(self.refusal());
        }
        match &self.room_id {
            Some(room_id) => Ok(PacketType::UpdateRoom { room_id: copy_string(room_id), metadata }),
            None => Err(self.refusal()),
        }
    }

    /// The notice that the client is ready for game data, allowed in a
    /// room.
    pub fn send_ready(&self) -> (r: Result<PacketType, RelayClientError>)
        ensures
            self@.state == SessionState::InRoom ==> r == Ok::<PacketType, RelayClientError>(PacketType::PeerReady),
            self@.state != SessionState::InRoom ==> r == Err::<PacketType, RelayClientError>(
                refusal_of(self@.state),
            ),
    {
        if self.state != SessionState::InRoom {
            return Err(self.refusal());
        }
        Ok(PacketType::PeerReady)
    }

    /// Game data for the peer `target`, allowed in a room.
    pub fn send_game_data(&self, target: i32, data: Vec<u8>) -> (r: Result<PacketType, RelayClientError>)
        ensures
            self@.state == SessionState::InRoom ==> r is Ok && r->Ok_0@ == (PacketView::GameData {
                from_peer: target,
                data: data@,
            }),
            self@.state != SessionState::InRoom ==> r == Err::<PacketType, RelayClientError>(
                refusal_of(self@.state),
            ),
    {
        if self.state != SessionState::InRoom {
            return Err(self.refusal());
        }
        Ok(PacketType::GameData { from_peer: target, data })
    }

    /// Handles a message from the relay that arrived on `channel`. A message
    /// that is not allowed at the current step is refused and changes
    /// nothing.
    pub fn handle_packet(&mut self, msg: PacketType, channel: Channel) -> (r: Result<Vec<RelayEvent>, RelayClientError>)
        requires
            wf(msg@),
            session_wf(old(self)@),
        ensures
            session_wf(final(self)@),
            match handle_step(old(self)@, msg@, channel) {
                Some((v, events)) => r is Ok && final(self)@ == v && r->Ok_0@.map_values(|e: RelayEvent| e@)
                    == events,
                None => final(self)@ == old(self)@ && r == Err::<Vec<RelayEvent>, RelayClientError>(
                    refused_error(old(self)@, msg@),
                ),
            },
    {
        let ghost mv = msg@;
        let state = self.state;
        let mut events: Vec<RelayEvent> = Vec::new();
        match msg {
            PacketType::ClientAuthenticated => {
                if state != SessionState::Connected || !self.auth_sent {
                    return Err(RelayClientError::UnexpectedMessage { tag: 6, state });
                }
                self.state = SessionState::Authenticated;
                events.push(RelayEvent::Authenticated);
            },
            PacketType::ConnectedToRoom { room_id, peer_id, existing_peers } => {
                if state != SessionState::AwaitingRoom {
                    return Err(RelayClientError::UnexpectedMessage { tag: 7, state });
                }
                let mut i: usize = 0;
                while i < existing_peers.len()
                    invariant
                        i <= existing_peers@.len(),
                        events@.map_values(|e: RelayEvent| e@) == existing_peers@.take(i as int).map_values(
                            |p: i32| EventView::PeerJoinedRoom { peer_id: p },
                        ),
                    decreases existing_peers@.len() - i,
                {
                    let ghost prev = events@.map_values(|e: RelayEvent| e@);
                    events.push(RelayEvent::PeerJoinedRoom { peer_id: existing_peers[i] });
                    assert(events@.map_values(|e: RelayEvent| e@) =~= prev.push(
                        EventView::PeerJoinedRoom { peer_id: existing_peers@[i as int] },
                    ));
                    assert(existing_peers@.take(i + 1).map_values(|p: i32| EventView::PeerJoinedRoom { peer_id: p })
                        =~= existing_peers@.take(i as int).map_values(|p: i32| EventView::PeerJoinedRoom { peer_id: p }).push(
                        EventView::PeerJoinedRoom { peer_id: existing_peers@[i as int] },
                    ));
                    i = i + 1;
                }
                assert(existing_peers@.take(existing_peers@.len() as int) =~= existing_peers@);
                events.push(RelayEvent::RoomJoined {
                    room_id: copy_string(&room_id),
                    peer_id,
                    existing_peers: copy_ids(&existing_peers),
                });
                self.state = SessionState::InRoom;
                self.local_peer_id = Some(peer_id);
                self.room_id = Some(room_id);
                self.peers = existing_peers;
                assert(events@.map_values(|e: RelayEvent| e@) =~= room_entry_events(
                    mv->ConnectedToRoom_room_id,
                    peer_id,
                    mv->ConnectedToRoom_existing_peers,
                ));
            },
            PacketType::PeerJoinedRoom { peer_id } => {
                if state != SessionState::InRoom {
                    return Err(RelayClientError::UnexpectedMessage { tag: 8, state });
                }
                if self.is_server() {
                    events.push(RelayEvent::PeerJoinedRoom { peer_id });
                }
                if !contains_id(&self.peers, peer_id) {
                    self.peers.push(peer_id);
                }
            },
            PacketType::PeerLeftRoom { peer_id } => {
                if state != SessionState::InRoom {
                    return Err(RelayClientError::UnexpectedMessage { tag: 9, state });
                }
                self.peers = remove_id(&self.peers, peer_id);
                events.push(RelayEvent::PeerLeftRoom { peer_id });
            },
            PacketType::GameData { from_peer, data } => {
                if state != SessionState::InRoom {
                    return Err(RelayClientError::UnexpectedMessage { tag: 11, state });
                }
                events.push(RelayEvent::GameDataReceived { channel, from_peer, data });
            },
            PacketType::RoomsInfo { rooms } => {
                if !(state == SessionState::Authenticated || state == SessionState::AwaitingRoom || state
                    == SessionState::InRoom) {
                    return Err(RelayClientError::UnexpectedMessage { tag: 5, state });
                }
                self.rooms = copy_rooms(&rooms);
                events.push(RelayEvent::RoomsReceived { rooms });
            },
            PacketType::Error { error_code, error_message } => {
                if state == SessionState::Disconnected {
                    return Err(RelayClientError::UnexpectedMessage { tag: 13, state });
                }
                events.push(RelayEvent::Error { error_code, error_message });
            },
            PacketType::ForceDisconnect => {
                if state == SessionState::Disconnected {
                    return Err(RelayClientError::UnexpectedMessage { tag: 12, state });
                }
                self.disconnect();
                events.push(RelayEvent::ForceDisconnect);
            },
            PacketType::Authenticate { .. } => {
                return Err(RelayClientError::InvalidPacketType { tag: 0 });
            },
            PacketType::CreateRoom { .. } => {
                return Err(RelayClientError::InvalidPacketType { tag: 1 });
            },
            PacketType::JoinRoom { .. } => {
                return Err(RelayClientError::InvalidPacketType { tag: 2 });
            },
            PacketType::UpdateRoom { .. } => {
                return Err(RelayClientError::InvalidPacketType { tag: 3 });
            },
            PacketType::ListRooms => {
                return Err(RelayClientError::InvalidPacketType { tag: 4 });
            },
            PacketType::PeerReady => {
                return Err(RelayClientError::InvalidPacketType { tag: 10 });
            },
        }
        proof {
            let v = handle_step(old(self)@, mv, channel)->Some_0;
            assert(self@.peers =~= v.0.peers);
            assert(self@.rooms =~= v.0.rooms);
            assert(events@.map_values(|e: RelayEvent| e@) =~= v.1);
        }
        Ok(events)
    }
}

/// The error with which the session refuses the message `m` at `v`.
pub open spec fn refused_error(v: SessionView, m: PacketView) -> RelayClientError {
    if relay_sends(m) {
        RelayClientError::UnexpectedMessage { tag: tag_of(m), state: v.state }
    } else {
        RelayClientError::InvalidPacketType { tag: tag_of(m) }
    }
}

/// Whether a state comes after authentication and before the end.
pub open spec fn authenticated(s: SessionState) -> bool {
    s == SessionState::Authenticated || s == SessionState::AwaitingRoom || s == SessionState::InRoom
}

/// The error for a request made at a state that does not allow it.
pub open spec fn refusal_of(s: SessionState) -> RelayClientError {
    if s == SessionState::Disconnected {
        RelayClientError::TransportNotInitialized
    } else {
        RelayClientError::WrongState { state: s }
    }
}

/// Whether `xs` holds `p`.
fn contains_id(xs: &Vec<i32>, p: i32) -> (r: bool)
    ensures
        r == xs@.contains(p),
{
    let mut i: usize = 0;
    while i < xs.len()
        invariant
            i <= xs@.len(),
            forall|j: int| 0 <= j < i ==> xs@[j] != p,
        decreases xs@.len() - i,
    {
        if xs[i] == p {
            return true;
        }
        i = i + 1;
    }
    false
}

/// `xs` without any occurrence of `p`.
fn remove_id(xs: &Vec<i32>, p: i32) -> (r: Vec<i32>)
    ensures
        r@ == without(xs@, p),
{
    let mut out: Vec<i32> = Vec::new();
    let mut i: usize = 0;
    while i < xs.len()
        invariant
            i <= xs@.len(),
            out@ == without(xs@.take(i as int), p),
        decreases xs@.len() - i,
    {
        assert(xs@.take(i + 1).drop_last() =~= xs@.take(i as int));
        if xs[i] != p {
            out.push(xs[i]);
        }
        i = i + 1;
    }
    assert(xs@.take(xs@.len() as int) =~= xs@);
    out
}

} // verus!
