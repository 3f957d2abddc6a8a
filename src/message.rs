//! The relay protocol's messages and their byte encoding: a tag byte, then
//! the variant's fields. Strings and byte strings carry a 32-bit length
//! prefix, lists a 32-bit count.

use vstd::prelude::*;
use vstd::slice::slice_subrange;
use crate::wire::bytes_field;
use crate::wire::fits_prefix;
use crate::wire::i32_be;
use crate::wire::lemma_bytes_field_ok;
use crate::wire::lemma_bytes_field_unique;
use crate::wire::lemma_i32_unique;
use crate::wire::lemma_str_field_ok;
use crate::wire::lemma_str_field_unique;
use crate::wire::read_bytes;
use crate::wire::read_i32;
use crate::wire::read_string;
use crate::wire::FieldKind;
use crate::wire::ProtocolError;
use crate::wire::push_bytes;
use crate::wire::push_i32;
use crate::wire::push_string;
use crate::wire::str_field;
use crate::wire::str_fits;

verus! {

/// A room that the relay lists: its identifier and its metadata.
#[derive(Debug, Clone, PartialEq, Eq)]
pub struct RoomInfo {
    pub id: String,
    pub metadata: String,
}

/// The mathematical form of a [`RoomInfo`].
pub struct RoomInfoView {
    pub id: Seq<char>,
    pub metadata: Seq<char>,
}

impl View for RoomInfo {
    type V = RoomInfoView;

    open spec fn view(&self) -> RoomInfoView {
        RoomInfoView { id: self.id@, metadata: self.metadata@ }
    }
}

/// A message of the relay protocol.
#[derive(Debug, Clone, PartialEq, Eq)]
pub enum PacketType {
    /// Client to relay: the application identifier and protocol version.
    Authenticate { app_id: String, version: String },
    /// Client to relay: open a room, listed publicly or not.
    CreateRoom { public: bool, metadata: String },
    /// Client to relay: enter an existing room.
    JoinRoom { room_id: String },
    /// Client to relay: replace a room's metadata.
    UpdateRoom { room_id: String, metadata: String },
    /// Client to relay: ask for the public rooms.
    ListRooms,
    /// Relay to client: the public rooms.
    RoomsInfo { rooms: Vec<RoomInfo> },
    /// Relay to client: authentication succeeded.
    ClientAuthenticated,
    /// Relay to client: the client is in a room, under an assigned peer id,
    /// with the peers already there.
    ConnectedToRoom { room_id: String, peer_id: i32, existing_peers: Vec<i32> },
    /// Relay to client: a peer entered the room.
    PeerJoinedRoom { peer_id: i32 },
    /// Relay to client: a peer left the room.
    PeerLeftRoom { peer_id: i32 },
    /// Client to relay: the client is ready for game data.
    PeerReady,
    /// Game data: to the target peer when sent, from the source peer when
    /// received.
    GameData { from_peer: i32, data: Vec<u8> },
    /// Relay to client: the session is over.
    ForceDisconnect,
    /// Relay to client: a failure the relay reports.
    Error { error_code: i32, error_message: String },
}

/// The mathematical form of a [`PacketType`].
pub enum PacketView {
    Authenticate { app_id: Seq<char>, version: Seq<char> },
    CreateRoom { public: bool, metadata: Seq<char> },
    JoinRoom { room_id: Seq<char> },
    UpdateRoom { room_id: Seq<char>, metadata: Seq<char> },
    ListRooms,
    RoomsInfo { rooms: Seq<RoomInfoView> },
    ClientAuthenticated,
    ConnectedToRoom { room_id: Seq<char>, peer_id: i32, existing_peers: Seq<i32> },
    PeerJoinedRoom { peer_id: i32 },
    PeerLeftRoom { peer_id: i32 },
    PeerReady,
    GameData { from_peer: i32, data: Seq<u8> },
    ForceDisconnect,
    Error { error_code: i32, error_message: Seq<char> },
}

impl View for PacketType {
    type V = PacketView;

    open spec fn view(&self) -> PacketView {
        match self {
            PacketType::Authenticate { app_id, version } => PacketView::Authenticate {
                app_id: app_id@,
                version: version@,
            },
            PacketType::CreateRoom { public, metadata } => PacketView::CreateRoom {
                public: *public,
                metadata: metadata@,
            },
            PacketType::JoinRoom { room_id } => PacketView::JoinRoom { room_id: room_id@ },
            PacketType::UpdateRoom { room_id, metadata } => PacketView::UpdateRoom {
                room_id: room_id@,
                metadata: metadata@,
            },
            PacketType::ListRooms => PacketView::ListRooms,
            PacketType::RoomsInfo { rooms } => PacketView::RoomsInfo {
                rooms: rooms@.map_values(|r: RoomInfo| r@),
            },
            PacketType::ClientAuthenticated => PacketView::ClientAuthenticated,
            PacketType::ConnectedToRoom { room_id, peer_id, existing_peers } => PacketView::ConnectedToRoom {
                room_id: room_id@,
                peer_id: *peer_id,
                existing_peers: existing_peers@,
            },
            PacketType::PeerJoinedRoom { peer_id } => PacketView::PeerJoinedRoom { peer_id: *peer_id },
            PacketType::PeerLeftRoom { peer_id } => PacketView::PeerLeftRoom { peer_id: *peer_id },
            PacketType::PeerReady => PacketView::PeerReady,
            PacketType::GameData { from_peer, data } => PacketView::GameData {
                from_peer: *from_peer,
                data: data@,
            },
            PacketType::ForceDisconnect => PacketView::ForceDisconnect,
            PacketType::Error { error_code, error_message } => PacketView::Error {
                error_code: *error_code,
                error_message: error_message@,
            },
        }
    }
}

pub const TAG_AUTHENTICATE: u8 = 0;
pub const TAG_CREATE_ROOM: u8 = 1;
pub const TAG_JOIN_ROOM: u8 = 2;
pub const TAG_UPDATE_ROOM: u8 = 3;
pub const TAG_LIST_ROOMS: u8 = 4;
pub const TAG_ROOMS_INFO: u8 = 5;
pub const TAG_CLIENT_AUTHENTICATED: u8 = 6;
pub const TAG_CONNECTED_TO_ROOM: u8 = 7;
pub const TAG_PEER_JOINED_ROOM: u8 = 8;
pub const TAG_PEER_LEFT_ROOM: u8 = 9;
pub const TAG_PEER_READY: u8 = 10;
pub const TAG_GAME_DATA: u8 = 11;
pub const TAG_FORCE_DISCONNECT: u8 = 12;
pub const TAG_ERROR: u8 = 13;

/// The tag byte of each variant.
pub open spec fn tag_of(m: PacketView) -> u8 {
    match m {
        PacketView::Authenticate { .. } => TAG_AUTHENTICATE,
        PacketView::CreateRoom { .. } => TAG_CREATE_ROOM,
        PacketView::JoinRoom { .. } => TAG_JOIN_ROOM,
        PacketView::UpdateRoom { .. } => TAG_UPDATE_ROOM,
        PacketView::ListRooms => TAG_LIST_ROOMS,
        PacketView::RoomsInfo { .. } => TAG_ROOMS_INFO,
        PacketView::ClientAuthenticated => TAG_CLIENT_AUTHENTICATED,
        PacketView::ConnectedToRoom { .. } => TAG_CONNECTED_TO_ROOM,
        PacketView::PeerJoinedRoom { .. } => TAG_PEER_JOINED_ROOM,
        PacketView::PeerLeftRoom { .. } => TAG_PEER_LEFT_ROOM,
        PacketView::PeerReady => TAG_PEER_READY,
        PacketView::GameData { .. } => TAG_GAME_DATA,
        PacketView::ForceDisconnect => TAG_FORCE_DISCONNECT,
        PacketView::Error { .. } => TAG_ERROR,
    }
}

/// The byte of a boolean field.
pub open spec fn flag_byte(b: bool) -> u8 {
    if b {
        1
    } else {
        0
    }
}

/// The encoded elements of a list of integers.
pub open spec fn ints_bytes(xs: Seq<i32>) -> Seq<u8>
    decreases xs.len(),
{
    if xs.len() == 0 {
        Seq::empty()
    } else {
        i32_be(xs[0]) + ints_bytes(xs.drop_first())
    }
}

/// A list of integers on the wire: its count, then its elements.
pub open spec fn ints_field(xs: Seq<i32>) -> Seq<u8> {
    i32_be(xs.len() as i32) + ints_bytes(xs)
}

/// The encoded elements of a list of rooms.
pub open spec fn rooms_bytes(rs: Seq<RoomInfoView>) -> Seq<u8>
    decreases rs.len(),
{
    if rs.len() == 0 {
        Seq::empty()
    } else {
        str_field(rs[0].id) + (str_field(rs[0].metadata) + rooms_bytes(rs.drop_first()))
    }
}

/// A list of rooms on the wire: its count, then each room's identifier and
/// metadata.
pub open spec fn rooms_field(rs: Seq<RoomInfoView>) -> Seq<u8> {
    i32_be(rs.len() as i32) + rooms_bytes(rs)
}

/// The fields of a message, as they follow its tag byte.
pub open spec fn body(m: PacketView) -> Seq<u8> {
    match m {
        PacketView::Authenticate { app_id, version } => str_field(app_id) + str_field(version),
        PacketView::CreateRoom { public, metadata } => seq![flag_byte(public)] + str_field(metadata),
        PacketView::JoinRoom { room_id } => str_field(room_id),
        PacketView::UpdateRoom { room_id, metadata } => str_field(room_id) + str_field(metadata),
        PacketView::RoomsInfo { rooms } => rooms_field(rooms),
        PacketView::ConnectedToRoom { room_id, peer_id, existing_peers } => str_field(room_id) + (i32_be(peer_id)
            + ints_field(existing_peers)),
        PacketView::PeerJoinedRoom { peer_id } => i32_be(peer_id),
        PacketView::PeerLeftRoom { peer_id } => i32_be(peer_id),
        PacketView::GameData { from_peer, data } => i32_be(from_peer) + bytes_field(data),
        PacketView::Error { error_code, error_message } => i32_be(error_code) + str_field(error_message),
        _ => Seq::empty(),
    }
}

/// The encoding of a message: its tag byte, then its fields.
pub open spec fn encode(m: PacketView) -> Seq<u8> {
    seq![tag_of(m)] + body(m)
}

/// Whether every rooms' strings fit a length prefix.
pub open spec fn rooms_fit(rs: Seq<RoomInfoView>) -> bool {
    forall|i: int| 0 <= i < rs.len() ==> str_fits(#[trigger] rs[i].id) && str_fits(rs[i].metadata)
}

/// Whether a message can be encoded: every length and count fits its
/// 32-bit prefix.
pub open spec fn wf(m: PacketView) -> bool {
    match m {
        PacketView::Authenticate { app_id, version } => str_fits(app_id) && str_fits(version),
        PacketView::CreateRoom { public, metadata } => str_fits(metadata),
        PacketView::JoinRoom { room_id } => str_fits(room_id),
        PacketView::UpdateRoom { room_id, metadata } => str_fits(room_id) && str_fits(metadata),
        PacketView::RoomsInfo { rooms } => rooms.len() <= i32::MAX && rooms_fit(rooms),
        PacketView::ConnectedToRoom { room_id, peer_id, existing_peers } => str_fits(room_id)
            && existing_peers.len() <= i32::MAX,
        PacketView::GameData { from_peer, data } => fits_prefix(data),
        PacketView::Error { error_code, error_message } => str_fits(error_message),
        _ => true,
    }
}

proof fn lemma_ints_bytes_push(xs: Seq<i32>, x: i32)
    ensures
        ints_bytes(xs.push(x)) == ints_bytes(xs) + i32_be(x),
    decreases xs.len(),
{
    if xs.len() == 0 {
        assert(xs.push(x).drop_first() =~= Seq::<i32>::empty());
        assert(ints_bytes(Seq::<i32>::empty()) =~= Seq::<u8>::empty());
        assert(ints_bytes(xs.push(x)) =~= i32_be(x));
    } else {
        assert(xs.push(x).drop_first() =~= xs.drop_first().push(x));
        lemma_ints_bytes_push(xs.drop_first(), x);
        assert(ints_bytes(xs.push(x)) =~= ints_bytes(xs) + i32_be(x));
    }
}

proof fn lemma_rooms_bytes_push(rs: Seq<RoomInfoView>, r: RoomInfoView)
    ensures
        rooms_bytes(rs.push(r)) == rooms_bytes(rs) + (str_field(r.id) + str_field(r.metadata)),
    decreases rs.len(),
{
    if rs.len() == 0 {
        assert(rs.push(r).drop_first() =~= Seq::<RoomInfoView>::empty());
        assert(rooms_bytes(Seq::<RoomInfoView>::empty()) =~= Seq::<u8>::empty());
        assert(rooms_bytes(rs.push(r)) =~= str_field(r.id) + str_field(r.metadata));
    } else {
        assert(rs.push(r).drop_first() =~= rs.drop_first().push(r));
        lemma_rooms_bytes_push(rs.drop_first(), r);
        assert(rooms_bytes(rs.push(r)) =~= rooms_bytes(rs) + (str_field(r.id) + str_field(r.metadata)));
    }
}

/// Appends a list of integers with its count.
fn push_ints(buf: &mut Vec<u8>, xs: &Vec<i32>)
    requires
        xs@.len() <= i32::MAX,
    ensures
        final(buf)@ == old(buf)@ + ints_field(xs@),
{
    push_i32(buf, xs.len() as i32);
    let mut i: usize = 0;
    while i < xs.len()
        invariant
            i <= xs@.len(),
            buf@ == old(buf)@ + i32_be(xs@.len() as i32) + ints_bytes(xs@.take(i as int)),
        decreases xs@.len() - i,
    {
        proof {
            assert(xs@.take(i + 1) =~= xs@.take(i as int).push(xs@[i as int]));
            lemma_ints_bytes_push(xs@.take(i as int), xs@[i as int]);
        }
        push_i32(buf, xs[i]);
        i = i + 1;
        assert(buf@ =~= old(buf)@ + i32_be(xs@.len() as i32) + ints_bytes(xs@.take(i as int)));
    }
    assert(xs@.take(xs@.len() as int) =~= xs@);
    assert(buf@ =~= old(buf)@ + ints_field(xs@));
}

/// Appends a list of rooms with its count.
fn push_rooms(buf: &mut Vec<u8>, rs: &Vec<RoomInfo>)
    requires
        rs@.len() <= i32::MAX,
        rooms_fit(rs@.map_values(|r: RoomInfo| r@)),
    ensures
        final(buf)@ == old(buf)@ + rooms_field(rs@.map_values(|r: RoomInfo| r@)),
{
    let ghost v = rs@.map_values(|r: RoomInfo| r@);
    push_i32(buf, rs.len() as i32);
    let mut i: usize = 0;
    while i < rs.len()
        invariant
            i <= rs@.len(),
            v == rs@.map_values(|r: RoomInfo| r@),
            rooms_fit(v),
            buf@ == old(buf)@ + i32_be(rs@.len() as i32) + rooms_bytes(v.take(i as int)),
        decreases rs@.len() - i,
    {
        proof {
            assert(v.take(i + 1) =~= v.take(i as int).push(v[i as int]));
            lemma_rooms_bytes_push(v.take(i as int), v[i as int]);
            assert(str_fits(v[i as int].id));
        }
        push_string(buf, rs[i].id.as_str());
        push_string(buf, rs[i].metadata.as_str());
        i = i + 1;
        assert(buf@ =~= old(buf)@ + i32_be(rs@.len() as i32) + rooms_bytes(v.take(i as int)));
    }
    assert(v.take(v.len() as int) =~= v);
    assert(buf@ =~= old(buf)@ + rooms_field(v));
}

impl PacketType {
    /// The encoding of this message.
    pub fn to_bytes(&self) -> (r: Vec<u8>)
        requires
            wf(self@),
        ensures
            r@ == encode(self@),
    {
        let mut buf: Vec<u8> = Vec::new();
        match self {
            PacketType::Authenticate { app_id, version } => {
                buf.push(TAG_AUTHENTICATE);
                push_string(&mut buf, app_id.as_str());
                push_string(&mut buf, version.as_str());
            },
            PacketType::CreateRoom { public, metadata } => {
                buf.push(TAG_CREATE_ROOM);
                buf.push(if *public { 1 } else { 0 });
                push_string(&mut buf, metadata.as_str());
            },
            PacketType::JoinRoom { room_id } => {
                buf.push(TAG_JOIN_ROOM);
                push_string(&mut buf, room_id.as_str());
            },
            PacketType::UpdateRoom { room_id, metadata } => {
                buf.push(TAG_UPDATE_ROOM);
                push_string(&mut buf, room_id.as_str());
                push_string(&mut buf, metadata.as_str());
            },
            PacketType::ListRooms => {
                buf.push(TAG_LIST_ROOMS);
            },
            PacketType::RoomsInfo { rooms } => {
                buf.push(TAG_ROOMS_INFO);
                push_rooms(&mut buf, rooms);
            },
            PacketType::ClientAuthenticated => {
                buf.push(TAG_CLIENT_AUTHENTICATED);
            },
            PacketType::ConnectedToRoom { room_id, peer_id, existing_peers } => {
                buf.push(TAG_CONNECTED_TO_ROOM);
                push_string(&mut buf, room_id.as_str());
                push_i32(&mut buf, *peer_id);
                push_ints(&mut buf, existing_peers);
            },
            PacketType::PeerJoinedRoom { peer_id } => {
                buf.push(TAG_PEER_JOINED_ROOM);
                push_i32(&mut buf, *peer_id);
            },
            PacketType::PeerLeftRoom { peer_id } => {
                buf.push(TAG_PEER_LEFT_ROOM);
                push_i32(&mut buf, *peer_id);
            },
            PacketType::PeerReady => {
                buf.push(TAG_PEER_READY);
            },
            PacketType::GameData { from_peer, data } => {
                buf.push(TAG_GAME_DATA);
                push_i32(&mut buf, *from_peer);
                push_bytes(&mut buf, data.as_slice());
            },
            PacketType::ForceDisconnect => {
                buf.push(TAG_FORCE_DISCONNECT);
            },
            PacketType::Error { error_code, error_message } => {
                buf.push(TAG_ERROR);
                push_i32(&mut buf, *error_code);
                push_string(&mut buf, error_message.as_str());
            },
        }
        assert(buf@ =~= encode(self@));
        buf
    }
}

proof fn lemma_ints_bytes_len(xs: Seq<i32>)
    ensures
        ints_bytes(xs).len() == 4 * xs.len(),
    decreases xs.len(),
{
    if xs.len() > 0 {
        lemma_ints_bytes_len(xs.drop_first());
    }
}

proof fn lemma_ints_bytes_skip(xs: Seq<i32>, i: int)
    requires
        0 <= i < xs.len(),
    ensures
        ints_bytes(xs.skip(i)) == i32_be(xs[i]) + ints_bytes(xs.skip(i + 1)),
{
    assert(xs.skip(i).drop_first() =~= xs.skip(i + 1));
}

proof fn lemma_rooms_bytes_skip(rs: Seq<RoomInfoView>, i: int)
    requires
        0 <= i < rs.len(),
    ensures
        rooms_bytes(rs.skip(i)) == str_field(rs[i].id) + (str_field(rs[i].metadata) + rooms_bytes(rs.skip(i + 1))),
{
    assert(rs.skip(i).drop_first() =~= rs.skip(i + 1));
}

/// Reads a list of integers that fills `bytes` exactly.
fn read_ints_exact(bytes: &[u8]) -> (r: Result<Vec<i32>, ProtocolError>)
    ensures
        match r {
            Ok(xs) => xs@.len() <= i32::MAX && bytes@ == ints_field(xs@),
            Err(_) => forall|xs: Seq<i32>| xs.len() <= i32::MAX ==> #[trigger] ints_field(xs) != bytes@,
        },
{
    let ghost has_w = exists|xs: Seq<i32>| xs.len() <= i32::MAX && #[trigger] ints_field(xs) == bytes@;
    let ghost w = choose|xs: Seq<i32>| xs.len() <= i32::MAX && #[trigger] ints_field(xs) == bytes@;
    let (n, first_rest) = match read_i32(bytes) {
        Ok(x) => x,
        Err(e) => {
            return Err(e);
        },
    };
    let mut cur = first_rest;
    proof {
        if has_w {
            lemma_i32_unique(n, cur@, w.len() as i32, ints_bytes(w));
        }
        assert forall|xs: Seq<i32>| xs.len() <= i32::MAX && #[trigger] ints_field(xs) == bytes@ implies n == xs.len() by {
            lemma_i32_unique(n, cur@, xs.len() as i32, ints_bytes(xs));
        }
    }
    if n < 0 {
        return Err(ProtocolError::NegativeLength { field: FieldKind::Int, len: n });
    }
    let count = n as usize;
    let mut out: Vec<i32> = Vec::new();
    assert(ints_bytes(out@) =~= Seq::<u8>::empty());
    assert(w.skip(0) =~= w);
    assert(bytes@ =~= i32_be(n) + (ints_bytes(out@) + cur@));
    while out.len() < count
        invariant
            count == n as usize,
            n >= 0,
            out@.len() <= count,
            bytes@ == i32_be(n) + (ints_bytes(out@) + cur@),
            has_w == exists|xs: Seq<i32>| xs.len() <= i32::MAX && #[trigger] ints_field(xs) == bytes@,
            has_w ==> w.len() <= i32::MAX && ints_field(w) == bytes@,
            has_w ==> w.len() == count && out@ == w.take(out@.len() as int) && cur@ == ints_bytes(
                w.skip(out@.len() as int),
            ),
        decreases count - out@.len(),
    {
        let ghost i = out@.len() as int;
        proof {
            if has_w {
                lemma_ints_bytes_skip(w, i);
            }
        }
        match read_i32(cur) {
            Ok((v, next)) => {
                proof {
                    if has_w {
                        lemma_i32_unique(v, next@, w[i], ints_bytes(w.skip(i + 1)));
                        assert(w.take(i + 1) =~= w.take(i).push(w[i]));
                    }
                    lemma_ints_bytes_push(out@, v);
                }
                out.push(v);
                cur = next;
                assert(bytes@ =~= i32_be(n) + (ints_bytes(out@) + cur@));
            },
            Err(e) => {
                proof {
                    assert forall|xs: Seq<i32>| xs.len() <= i32::MAX implies #[trigger] ints_field(xs) != bytes@ by {
                        if ints_field(xs) == bytes@ {
                            assert(has_w);
                            lemma_ints_bytes_len(w.skip(i + 1));
                            assert(cur@.len() >= 4);
                        }
                    }
                }
                return Err(e);
            },
        }
    }
    proof {
        if has_w {
            assert(w.skip(count as int) =~= Seq::<i32>::empty());
            assert(ints_bytes(w.skip(count as int)) =~= Seq::<u8>::empty());
        }
    }
    if cur.len() != 0 {
        return Err(ProtocolError::TrailingBytes { count: cur.len() as u64 });
    }
    assert(bytes@ =~= ints_field(out@));
    Ok(out)
}

/// Reads one room: its identifier, then its metadata.
fn read_room(bytes: &[u8]) -> (r: Result<(RoomInfo, &[u8]), ProtocolError>)
    ensures
        match r {
            Ok((room, rest)) => str_fits(room.id@) && str_fits(room.metadata@) && bytes@ == str_field(room.id@) + (
            str_field(room.metadata@) + rest@),
            Err(_) => forall|id: Seq<char>, metadata: Seq<char>, t: Seq<u8>|
                str_fits(id) && str_fits(metadata) ==> #[trigger] (str_field(id) + (str_field(metadata) + t)) != bytes@,
        },
{
    let (id, after_id) = match read_string(bytes) {
        Ok(x) => x,
        Err(e) => {
            proof {
                assert forall|id: Seq<char>, metadata: Seq<char>, t: Seq<u8>|
                    str_fits(id) && str_fits(metadata) implies #[trigger] (str_field(id) + (str_field(metadata) + t))
                        != bytes@ by {
                    lemma_str_field_ok(id, str_field(metadata) + t);
                }
            }
            return Err(e);
        },
    };
    let (metadata, rest) = match read_string(after_id) {
        Ok(x) => x,
        Err(e) => {
            proof {
                assert forall|id0: Seq<char>, metadata: Seq<char>, t: Seq<u8>|
                    str_fits(id0) && str_fits(metadata) implies #[trigger] (str_field(id0) + (str_field(metadata) + t))
                        != bytes@ by {
                    if str_field(id0) + (str_field(metadata) + t) == bytes@ {
                        lemma_str_field_unique(id@, after_id@, id0, str_field(metadata) + t);
                        lemma_str_field_ok(metadata, t);
                    }
                }
            }
            return Err(e);
        },
    };
    Ok((RoomInfo { id, metadata }, rest))
}

/// Reads a list of rooms that fills `bytes` exactly.
fn read_rooms_exact(bytes: &[u8]) -> (r: Result<Vec<RoomInfo>, ProtocolError>)
    ensures
        match r {
            Ok(rs) => rs@.len() <= i32::MAX && rooms_fit(rs@.map_values(|x: RoomInfo| x@)) && bytes@ == rooms_field(
                rs@.map_values(|x: RoomInfo| x@),
            ),
            Err(_) => forall|rs: Seq<RoomInfoView>|
                rs.len() <= i32::MAX && rooms_fit(rs) ==> #[trigger] rooms_field(rs) != bytes@,
        },
{
    let ghost has_w = exists|rs: Seq<RoomInfoView>|
        rs.len() <= i32::MAX && rooms_fit(rs) && #[trigger] rooms_field(rs) == bytes@;
    let ghost w = choose|rs: Seq<RoomInfoView>|
        rs.len() <= i32::MAX && rooms_fit(rs) && #[trigger] rooms_field(rs) == bytes@;
    let (n, first_rest) = match read_i32(bytes) {
        Ok(x) => x,
        Err(e) => {
            return Err(e);
        },
    };
    let mut cur = first_rest;
    proof {
        if has_w {
            lemma_i32_unique(n, cur@, w.len() as i32, rooms_bytes(w));
        }
        assert forall|rs: Seq<RoomInfoView>|
            rs.len() <= i32::MAX && rooms_fit(rs) && #[trigger] rooms_field(rs) == bytes@ implies n == rs.len() by {
            lemma_i32_unique(n, cur@, rs.len() as i32, rooms_bytes(rs));
        }
    }
    if n < 0 {
        return Err(ProtocolError::NegativeLength { field: FieldKind::Int, len: n });
    }
    let count = n as usize;
    let mut out: Vec<RoomInfo> = Vec::new();
    assert(rooms_bytes(out@.map_values(|x: RoomInfo| x@)) =~= Seq::<u8>::empty());
    assert(w.skip(0) =~= w);
    assert(bytes@ =~= i32_be(n) + (rooms_bytes(out@.map_values(|x: RoomInfo| x@)) + cur@));
    while out.len() < count
        invariant
            count == n as usize,
            n >= 0,
            out@.len() <= count,
            rooms_fit(out@.map_values(|x: RoomInfo| x@)),
            bytes@ == i32_be(n) + (rooms_bytes(out@.map_values(|x: RoomInfo| x@)) + cur@),
            has_w == exists|rs: Seq<RoomInfoView>|
                rs.len() <= i32::MAX && rooms_fit(rs) && #[trigger] rooms_field(rs) == bytes@,
            has_w ==> w.len() <= i32::MAX && rooms_fit(w) && rooms_field(w) == bytes@,
            has_w ==> w.len() == count && out@.map_values(|x: RoomInfo| x@) == w.take(out@.len() as int) && cur@
                == rooms_bytes(w.skip(out@.len() as int)),
        decreases count - out@.len(),
    {
        let ghost i = out@.len() as int;
        let ghost before = out@.map_values(|x: RoomInfo| x@);
        proof {
            if has_w {
                lemma_rooms_bytes_skip(w, i);
            }
        }
        let (room, next) = match read_room(cur) {
            Ok(x) => x,
            Err(e) => {
                proof {
                    assert forall|rs: Seq<RoomInfoView>|
                        rs.len() <= i32::MAX && rooms_fit(rs) implies #[trigger] rooms_field(rs) != bytes@ by {
                        if rooms_field(rs) == bytes@ {
                            assert(has_w);
                            assert(str_fits(w[i].id) && str_fits(w[i].metadata));
                        }
                    }
                }
                return Err(e);
            },
        };
        proof {
            if has_w {
                assert(str_fits(w[i].id) && str_fits(w[i].metadata));
                lemma_str_field_unique(room.id@, str_field(room.metadata@) + next@, w[i].id, str_field(w[i].metadata) + rooms_bytes(w.skip(i + 1)));
                lemma_str_field_unique(room.metadata@, next@, w[i].metadata, rooms_bytes(w.skip(i + 1)));
                assert(w.take(i + 1) =~= w.take(i).push(w[i]));
            }
        }
        let ghost rv = room@;
        out.push(room);
        cur = next;
        proof {
            assert(out@.map_values(|x: RoomInfo| x@) =~= before.push(rv));
            lemma_rooms_bytes_push(before, rv);
            let after = before.push(rv);
            assert forall|j: int| 0 <= j < after.len() implies str_fits(#[trigger] after[j].id)
                && str_fits(after[j].metadata) by {
                if j < i {
                    assert(after[j] == before[j]);
                }
            }
            assert(bytes@ =~= i32_be(n) + (rooms_bytes(out@.map_values(|x: RoomInfo| x@)) + cur@));
        }
    }
    proof {
        if has_w {
            assert(w.skip(count as int) =~= Seq::<RoomInfoView>::empty());
            assert(rooms_bytes(w.skip(count as int)) =~= Seq::<u8>::empty());
        }
    }
    if cur.len() != 0 {
        return Err(ProtocolError::TrailingBytes { count: cur.len() as u64 });
    }
    assert(bytes@ =~= rooms_field(out@.map_values(|x: RoomInfo| x@)));
    Ok(out)
}

/// Reads a string that fills `bytes` exactly.
fn read_string_exact(bytes: &[u8]) -> (r: Result<String, ProtocolError>)
    ensures
        match r {
            Ok(s) => str_fits(s@) && bytes@ == str_field(s@),
            Err(_) => forall|s: Seq<char>| str_fits(s) ==> #[trigger] str_field(s) != bytes@,
        },
{
    let (s, rest) = match read_string(bytes) {
        Ok(x) => x,
        Err(e) => {
            proof {
                assert forall|x: Seq<char>| str_fits(x) implies #[trigger] str_field(x) != bytes@ by {
                    lemma_str_field_ok(x, Seq::empty());
                    assert(str_field(x) + Seq::<u8>::empty() =~= str_field(x));
                }
            }
            return Err(e);
        },
    };
    if rest.len() != 0 {
        proof {
            assert forall|x: Seq<char>| str_fits(x) implies #[trigger] str_field(x) != bytes@ by {
                if str_field(x) == bytes@ {
                    assert(str_field(x) + Seq::<u8>::empty() =~= str_field(x));
                    lemma_str_field_unique(s@, rest@, x, Seq::empty());
                }
            }
        }
        return Err(ProtocolError::TrailingBytes { count: rest.len() as u64 });
    }
    assert(bytes@ =~= str_field(s@));
    Ok(s)
}

/// Reads a byte string that fills `bytes` exactly.
fn read_bytes_exact(bytes: &[u8]) -> (r: Result<Vec<u8>, ProtocolError>)
    ensures
        match r {
            Ok(b) => fits_prefix(b@) && bytes@ == bytes_field(b@),
            Err(_) => forall|b: Seq<u8>| fits_prefix(b) ==> #[trigger] bytes_field(b) != bytes@,
        },
{
    let (b, rest) = match read_bytes(bytes) {
        Ok(x) => x,
        Err(e) => {
            proof {
                assert forall|x: Seq<u8>| fits_prefix(x) implies #[trigger] bytes_field(x) != bytes@ by {
                    lemma_bytes_field_ok(x, Seq::empty());
                    assert(bytes_field(x) + Seq::<u8>::empty() =~= bytes_field(x));
                }
            }
            return Err(e);
        },
    };
    if rest.len() != 0 {
        proof {
            assert forall|x: Seq<u8>| fits_prefix(x) implies #[trigger] bytes_field(x) != bytes@ by {
                if bytes_field(x) == bytes@ {
                    assert(bytes_field(x) + Seq::<u8>::empty() =~= bytes_field(x));
                    lemma_bytes_field_unique(b@, rest@, x, Seq::empty());
                }
            }
        }
        return Err(ProtocolError::TrailingBytes { count: rest.len() as u64 });
    }
    assert(bytes@ =~= bytes_field(b@));
    Ok(b)
}

/// Reads an integer that fills `bytes` exactly.
fn read_i32_exact(bytes: &[u8]) -> (r: Result<i32, ProtocolError>)
    ensures
        match r {
            Ok(v) => bytes@ == i32_be(v),
            Err(_) => forall|v: i32| #[trigger] i32_be(v) != bytes@,
        },
{
    let (v, rest) = match read_i32(bytes) {
        Ok(x) => x,
        Err(e) => {
            return Err(e);
        },
    };
    if rest.len() != 0 {
        return Err(ProtocolError::TrailingBytes { count: rest.len() as u64 });
    }
    assert(bytes@ =~= i32_be(v));
    Ok(v)
}

/// What parsing the fields of the variant tagged `tag` from `b` may give:
/// a message of that variant whose fields are exactly `b`, or an error when
/// no such message has them.
pub open spec fn body_parsed(tag: u8, b: Seq<u8>, r: Result<PacketType, ProtocolError>) -> bool {
    match r {
        Ok(m) => tag_of(m@) == tag && wf(m@) && body(m@) == b,
        Err(_) => forall|m: PacketView| tag_of(m) == tag && wf(m) ==> #[trigger] body(m) != b,
    }
}

fn parse_two_strings(tag: u8, bytes: &[u8]) -> (r: Result<(String, String), ProtocolError>)
    requires
        tag == TAG_AUTHENTICATE || tag == TAG_UPDATE_ROOM,
    ensures
        match r {
            Ok((a, b)) => str_fits(a@) && str_fits(b@) && bytes@ == str_field(a@) + str_field(b@),
            Err(_) => forall|m: PacketView| tag_of(m) == tag && wf(m) ==> #[trigger] body(m) != bytes@,
        },
{
    let (a, rest) = match read_string(bytes) {
        Ok(x) => x,
        Err(e) => {
            proof {
                assert forall|m: PacketView| tag_of(m) == tag && wf(m) implies #[trigger] body(m) != bytes@ by {
                    match m {
                        PacketView::Authenticate { app_id, version } => lemma_str_field_ok(app_id, str_field(version)),
                        PacketView::UpdateRoom { room_id, metadata } => lemma_str_field_ok(room_id, str_field(metadata)),
                        _ => {},
                    }
                }
            }
            return Err(e);
        },
    };
    match read_string_exact(rest) {
        Ok(b) => Ok((a, b)),
        Err(e) => {
            proof {
                assert forall|m: PacketView| tag_of(m) == tag && wf(m) implies #[trigger] body(m) != bytes@ by {
                    match m {
                        PacketView::Authenticate { app_id, version } => {
                            if body(m) == bytes@ {
                                lemma_str_field_unique(a@, rest@, app_id, str_field(version));
                            }
                        },
                        PacketView::UpdateRoom { room_id, metadata } => {
                            if body(m) == bytes@ {
                                lemma_str_field_unique(a@, rest@, room_id, str_field(metadata));
                            }
                        },
                        _ => {},
                    }
                }
            }
            Err(e)
        },
    }
}

fn parse_i32_then(tag: u8, bytes: &[u8]) -> (r: Result<(i32, &[u8]), ProtocolError>)
    requires
        tag == TAG_GAME_DATA || tag == TAG_ERROR,
    ensures
        match r {
            Ok((v, rest)) => bytes@ == i32_be(v) + rest@,
            Err(_) => forall|m: PacketView| tag_of(m) == tag && wf(m) ==> #[trigger] body(m) != bytes@,
        },
{
    read_i32(bytes)
}

fn parse_create_room(bytes: &[u8]) -> (r: Result<PacketType, ProtocolError>)
    ensures
        body_parsed(TAG_CREATE_ROOM, bytes@, r),
{
    if bytes.len() == 0 {
        return Err(ProtocolError::NotEnoughBytes { field: FieldKind::Flag, need: 1, have: 0 });
    }
    let flag = bytes[0];
    if flag > 1 {
        return Err(ProtocolError::InvalidFlag { value: flag });
    }
    let rest = slice_subrange(bytes, 1, bytes.len());
    match read_string_exact(rest) {
        Ok(metadata) => {
            let m = PacketType::CreateRoom { public: flag == 1, metadata };
            assert(bytes@ =~= seq![flag] + rest@);
            Ok(m)
        },
        Err(e) => {
            proof {
                assert forall|m: PacketView| tag_of(m) == TAG_CREATE_ROOM && wf(m) implies #[trigger] body(m) != bytes@ by {
                    match m {
                        PacketView::CreateRoom { public, metadata } => {
                            if body(m) == bytes@ {
                                assert(rest@ =~= str_field(metadata));
                            }
                        },
                        _ => {},
                    }
                }
            }
            Err(e)
        },
    }
}

fn parse_connected_to_room(bytes: &[u8]) -> (r: Result<PacketType, ProtocolError>)
    ensures
        body_parsed(TAG_CONNECTED_TO_ROOM, bytes@, r),
{
    let (room_id, rest) = match read_string(bytes) {
        Ok(x) => x,
        Err(e) => {
            proof {
                assert forall|m: PacketView| tag_of(m) == TAG_CONNECTED_TO_ROOM && wf(m) implies #[trigger] body(m)
                    != bytes@ by {
                    match m {
                        PacketView::ConnectedToRoom { room_id, peer_id, existing_peers } => {
                            lemma_str_field_ok(room_id, i32_be(peer_id) + ints_field(existing_peers));
                        },
                        _ => {},
                    }
                }
            }
            return Err(e);
        },
    };
    let (peer_id, rest2) = match read_i32(rest) {
        Ok(x) => x,
        Err(e) => {
            proof {
                assert forall|m: PacketView| tag_of(m) == TAG_CONNECTED_TO_ROOM && wf(m) implies #[trigger] body(m)
                    != bytes@ by {
                    match m {
                        PacketView::ConnectedToRoom { room_id: r0, peer_id, existing_peers } => {
                            if body(m) == bytes@ {
                                lemma_str_field_unique(room_id@, rest@, r0, i32_be(peer_id) + ints_field(existing_peers));
                            }
                        },
                        _ => {},
                    }
                }
            }
            return Err(e);
        },
    };
    match read_ints_exact(rest2) {
        Ok(existing_peers) => {
            assert(bytes@ =~= str_field(room_id@) + (i32_be(peer_id) + ints_field(existing_peers@)));
            Ok(PacketType::ConnectedToRoom { room_id, peer_id, existing_peers })
        },
        Err(e) => {
            proof {
                assert forall|m: PacketView| tag_of(m) == TAG_CONNECTED_TO_ROOM && wf(m) implies #[trigger] body(m)
                    != bytes@ by {
                    match m {
                        PacketView::ConnectedToRoom { room_id: r0, peer_id: p0, existing_peers } => {
                            if body(m) == bytes@ {
                                lemma_str_field_unique(room_id@, rest@, r0, i32_be(p0) + ints_field(existing_peers));
                                lemma_i32_unique(peer_id, rest2@, p0, ints_field(existing_peers));
                            }
                        },
                        _ => {},
                    }
                }
            }
            Err(e)
        },
    }
}

fn parse_game_data(bytes: &[u8]) -> (r: Result<PacketType, ProtocolError>)
    ensures
        body_parsed(TAG_GAME_DATA, bytes@, r),
{
    let (from_peer, rest) = match parse_i32_then(TAG_GAME_DATA, bytes) {
        Ok(x) => x,
        Err(e) => {
            return Err(e);
        },
    };
    match read_bytes_exact(rest) {
        Ok(data) => Ok(PacketType::GameData { from_peer, data }),
        Err(e) => {
            proof {
                assert forall|m: PacketView| tag_of(m) == TAG_GAME_DATA && wf(m) implies #[trigger] body(m) != bytes@ by {
                    match m {
                        PacketView::GameData { from_peer: f0, data } => {
                            if body(m) == bytes@ {
                                lemma_i32_unique(from_peer, rest@, f0, bytes_field(data));
                            }
                        },
                        _ => {},
                    }
                }
            }
            Err(e)
        },
    }
}

fn parse_error(bytes: &[u8]) -> (r: Result<PacketType, ProtocolError>)
    ensures
        body_parsed(TAG_ERROR, bytes@, r),
{
    let (error_code, rest) = match parse_i32_then(TAG_ERROR, bytes) {
        Ok(x) => x,
        Err(e) => {
            return Err(e);
        },
    };
    match read_string_exact(rest) {
        Ok(error_message) => Ok(PacketType::Error { error_code, error_message }),
        Err(e) => {
            proof {
                assert forall|m: PacketView| tag_of(m) == TAG_ERROR && wf(m) implies #[trigger] body(m) != bytes@ by {
                    match m {
                        PacketView::Error { error_code: c0, error_message } => {
                            if body(m) == bytes@ {
                                lemma_i32_unique(error_code, rest@, c0, str_field(error_message));
                            }
                        },
                        _ => {},
                    }
                }
            }
            Err(e)
        },
    }
}

fn parse_empty(tag: u8, bytes: &[u8], m: PacketType) -> (r: Result<PacketType, ProtocolError>)
    requires
        tag_of(m@) == tag,
        body(m@) == Seq::<u8>::empty(),
        wf(m@),
        forall|x: PacketView| tag_of(x) == tag ==> body(x) == Seq::<u8>::empty(),
    ensures
        body_parsed(tag, bytes@, r),
{
    if bytes.len() != 0 {
        return Err(ProtocolError::TrailingBytes { count: bytes.len() as u64 });
    }
    assert(bytes@ =~= Seq::<u8>::empty());
    Ok(m)
}

/// Parses the fields that follow the tag byte `tag`.
fn parse_body(tag: u8, bytes: &[u8]) -> (r: Result<PacketType, ProtocolError>)
    ensures
        body_parsed(tag, bytes@, r),
        tag > TAG_ERROR ==> r == Err::<PacketType, ProtocolError>(ProtocolError::UnknownTag { tag }),
{
    if tag == TAG_AUTHENTICATE {
        match parse_two_strings(tag, bytes) {
            Ok((app_id, version)) => Ok(PacketType::Authenticate { app_id, version }),
            Err(e) => Err(e),
        }
    } else if tag == TAG_CREATE_ROOM {
        parse_create_room(bytes)
    } else if tag == TAG_JOIN_ROOM {
        match read_string_exact(bytes) {
            Ok(room_id) => Ok(PacketType::JoinRoom { room_id }),
            Err(e) => Err(e),
        }
    } else if tag == TAG_UPDATE_ROOM {
        match parse_two_strings(tag, bytes) {
            Ok((room_id, metadata)) => Ok(PacketType::UpdateRoom { room_id, metadata }),
            Err(e) => Err(e),
        }
    } else if tag == TAG_LIST_ROOMS {
        parse_empty(tag, bytes, PacketType::ListRooms)
    } else if tag == TAG_ROOMS_INFO {
        match read_rooms_exact(bytes) {
            Ok(rooms) => Ok(PacketType::RoomsInfo { rooms }),
            Err(e) => Err(e),
        }
    } else if tag == TAG_CLIENT_AUTHENTICATED {
        parse_empty(tag, bytes, PacketType::ClientAuthenticated)
    } else if tag == TAG_CONNECTED_TO_ROOM {
        parse_connected_to_room(bytes)
    } else if tag == TAG_PEER_JOINED_ROOM {
        match read_i32_exact(bytes) {
            Ok(peer_id) => Ok(PacketType::PeerJoinedRoom { peer_id }),
            Err(e) => Err(e),
        }
    } else if tag == TAG_PEER_LEFT_ROOM {
        match read_i32_exact(bytes) {
            Ok(peer_id) => Ok(PacketType::PeerLeftRoom { peer_id }),
            Err(e) => Err(e),
        }
    } else if tag == TAG_PEER_READY {
        parse_empty(tag, bytes, PacketType::PeerReady)
    } else if tag == TAG_GAME_DATA {
        parse_game_data(bytes)
    } else if tag == TAG_FORCE_DISCONNECT {
        parse_empty(tag, bytes, PacketType::ForceDisconnect)
    } else if tag == TAG_ERROR {
        parse_error(bytes)
    } else {
        Err(ProtocolError::UnknownTag { tag })
    }
}

/// The message that `b` encodes, if any.
pub open spec fn decoded(b: Seq<u8>) -> Option<PacketView> {
    if exists|m: PacketView| wf(m) && #[trigger] encode(m) == b {
        Some(choose|m: PacketView| wf(m) && #[trigger] encode(m) == b)
    } else {
        None
    }
}

impl PacketType {
    /// Decodes one message that fills `bytes` exactly.
    pub fn from_bytes(bytes: &[u8]) -> (r: Result<PacketType, ProtocolError>)
        ensures
            match r {
                Ok(m) => decoded(bytes@) == Some(m@),
                Err(_) => decoded(bytes@) is None,
            },
            bytes@.len() > 0 && bytes@[0] > TAG_ERROR ==> r == Err::<PacketType, ProtocolError>(
                ProtocolError::UnknownTag { tag: bytes@[0] },
            ),
            bytes@.len() == 0 ==> r == Err::<PacketType, ProtocolError>(
                ProtocolError::NotEnoughBytes { field: FieldKind::Tag, need: 1, have: 0 },
            ),
    {
        if bytes.len() == 0 {
            return Err(ProtocolError::NotEnoughBytes { field: FieldKind::Tag, need: 1, have: 0 });
        }
        let tag = bytes[0];
        let rest = slice_subrange(bytes, 1, bytes.len());
        let r = parse_body(tag, rest);
        proof {
            assert(bytes@ =~= seq![tag] + rest@);
            if r is Ok {
                lemma_encoding_unique_all(r->Ok_0@);
            } else {
                {
                    assert forall|m: PacketView| wf(m) implies #[trigger] encode(m) != bytes@ by {
                        if encode(m) == bytes@ {
                            assert(encode(m)[0] == tag_of(m));
                            assert(encode(m).skip(1) =~= body(m));
                            assert(rest@ =~= bytes@.skip(1));
                        }
                    }
                }
            }
        }
        r
    }
}

proof fn lemma_encoding_unique_all(m: PacketView)
    requires
        wf(m),
    ensures
        decoded(encode(m)) == Some(m),
{
    let b = encode(m);
    assert(wf(m) && encode(m) == b);
    let c = choose|x: PacketView| wf(x) && #[trigger] encode(x) == b;
    lemma_encoding_unique(c, m);
}

proof fn lemma_ints_unique(a: Seq<i32>, ta: Seq<u8>, b: Seq<i32>, tb: Seq<u8>)
    requires
        a.len() == b.len(),
        ints_bytes(a) + ta == ints_bytes(b) + tb,
    ensures
        a == b,
        ta == tb,
    decreases a.len(),
{
    if a.len() == 0 {
        assert(ints_bytes(a) + ta =~= ta);
        assert(ints_bytes(b) + tb =~= tb);
    } else {
        assert(ints_bytes(a) + ta =~= i32_be(a[0]) + (ints_bytes(a.drop_first()) + ta));
        assert(ints_bytes(b) + tb =~= i32_be(b[0]) + (ints_bytes(b.drop_first()) + tb));
        lemma_i32_unique(a[0], ints_bytes(a.drop_first()) + ta, b[0], ints_bytes(b.drop_first()) + tb);
        lemma_ints_unique(a.drop_first(), ta, b.drop_first(), tb);
        assert(a =~= seq![a[0]] + a.drop_first());
        assert(b =~= seq![b[0]] + b.drop_first());
    }
}

proof fn lemma_rooms_unique(a: Seq<RoomInfoView>, ta: Seq<u8>, b: Seq<RoomInfoView>, tb: Seq<u8>)
    requires
        a.len() == b.len(),
        rooms_fit(a),
        rooms_fit(b),
        rooms_bytes(a) + ta == rooms_bytes(b) + tb,
    ensures
        a == b,
        ta == tb,
    decreases a.len(),
{
    if a.len() == 0 {
        assert(rooms_bytes(a) + ta =~= ta);
        assert(rooms_bytes(b) + tb =~= tb);
    } else {
        let ra = rooms_bytes(a.drop_first()) + ta;
        let rb = rooms_bytes(b.drop_first()) + tb;
        assert(str_fits(a[0].id) && str_fits(b[0].id));
        assert(rooms_bytes(a) + ta =~= str_field(a[0].id) + (str_field(a[0].metadata) + ra));
        assert(rooms_bytes(b) + tb =~= str_field(b[0].id) + (str_field(b[0].metadata) + rb));
        lemma_str_field_unique(a[0].id, str_field(a[0].metadata) + ra, b[0].id, str_field(b[0].metadata) + rb);
        lemma_str_field_unique(a[0].metadata, ra, b[0].metadata, rb);
        assert(rooms_fit(a.drop_first()) && rooms_fit(b.drop_first())) by {
            assert forall|i: int| 0 <= i < a.drop_first().len() implies str_fits(#[trigger] a.drop_first()[i].id)
                && str_fits(a.drop_first()[i].metadata) by {
                assert(a.drop_first()[i] == a[i + 1]);
                assert(str_fits(a[i + 1].id) && str_fits(a[i + 1].metadata));
            }
            assert forall|i: int| 0 <= i < b.drop_first().len() implies str_fits(#[trigger] b.drop_first()[i].id)
                && str_fits(b.drop_first()[i].metadata) by {
                assert(b.drop_first()[i] == b[i + 1]);
                assert(str_fits(b[i + 1].id) && str_fits(b[i + 1].metadata));
            }
        }
        lemma_rooms_unique(a.drop_first(), ta, b.drop_first(), tb);
        assert(a =~= seq![a[0]] + a.drop_first());
        assert(b =~= seq![b[0]] + b.drop_first());
    }
}

/// No two distinct well-formed messages share an encoding.
pub proof fn lemma_encoding_unique(m1: PacketView, m2: PacketView)
    requires
        wf(m1),
        wf(m2),
        encode(m1) == encode(m2),
    ensures
        m1 == m2,
{
    let e = Seq::<u8>::empty();
    assert(encode(m1)[0] == tag_of(m1));
    assert(encode(m2)[0] == tag_of(m2));
    assert(encode(m1).skip(1) =~= body(m1));
    assert(encode(m2).skip(1) =~= body(m2));
    let b = body(m1);
    assert(body(m1) == body(m2));
    match (m1, m2) {
        (PacketView::Authenticate { app_id: a1, version: v1 }, PacketView::Authenticate { app_id: a2, version: v2 }) => {
            lemma_str_field_unique(a1, str_field(v1), a2, str_field(v2));
            assert(str_field(v1) + e =~= str_field(v1));
            assert(str_field(v2) + e =~= str_field(v2));
            lemma_str_field_unique(v1, e, v2, e);
        },
        (PacketView::CreateRoom { public: p1, metadata: d1 }, PacketView::CreateRoom { public: p2, metadata: d2 }) => {
            assert(b[0] == flag_byte(p1));
            assert(body(m2)[0] == flag_byte(p2));
            assert(b.skip(1) =~= str_field(d1) + e);
            assert(body(m2).skip(1) =~= str_field(d2) + e);
            lemma_str_field_unique(d1, e, d2, e);
        },
        (PacketView::JoinRoom { room_id: r1 }, PacketView::JoinRoom { room_id: r2 }) => {
            assert(str_field(r1) + e =~= str_field(r1));
            assert(str_field(r2) + e =~= str_field(r2));
            lemma_str_field_unique(r1, e, r2, e);
        },
        (PacketView::UpdateRoom { room_id: a1, metadata: v1 }, PacketView::UpdateRoom { room_id: a2, metadata: v2 }) => {
            lemma_str_field_unique(a1, str_field(v1), a2, str_field(v2));
            assert(str_field(v1) + e =~= str_field(v1));
            assert(str_field(v2) + e =~= str_field(v2));
            lemma_str_field_unique(v1, e, v2, e);
        },
        (PacketView::RoomsInfo { rooms: r1 }, PacketView::RoomsInfo { rooms: r2 }) => {
            lemma_i32_unique(r1.len() as i32, rooms_bytes(r1), r2.len() as i32, rooms_bytes(r2));
            assert(rooms_bytes(r1) + e =~= rooms_bytes(r1));
            assert(rooms_bytes(r2) + e =~= rooms_bytes(r2));
            lemma_rooms_unique(r1, e, r2, e);
        },
        (
            PacketView::ConnectedToRoom { room_id: r1, peer_id: p1, existing_peers: x1 },
            PacketView::ConnectedToRoom { room_id: r2, peer_id: p2, existing_peers: x2 },
        ) => {
            lemma_str_field_unique(r1, i32_be(p1) + ints_field(x1), r2, i32_be(p2) + ints_field(x2));
            lemma_i32_unique(p1, ints_field(x1), p2, ints_field(x2));
            lemma_i32_unique(x1.len() as i32, ints_bytes(x1), x2.len() as i32, ints_bytes(x2));
            assert(ints_bytes(x1) + e =~= ints_bytes(x1));
            assert(ints_bytes(x2) + e =~= ints_bytes(x2));
            lemma_ints_unique(x1, e, x2, e);
        },
        (PacketView::PeerJoinedRoom { peer_id: p1 }, PacketView::PeerJoinedRoom { peer_id: p2 }) => {
            assert(i32_be(p1) + e =~= i32_be(p1));
            assert(i32_be(p2) + e =~= i32_be(p2));
            lemma_i32_unique(p1, e, p2, e);
        },
        (PacketView::PeerLeftRoom { peer_id: p1 }, PacketView::PeerLeftRoom { peer_id: p2 }) => {
            assert(i32_be(p1) + e =~= i32_be(p1));
            assert(i32_be(p2) + e =~= i32_be(p2));
            lemma_i32_unique(p1, e, p2, e);
        },
        (PacketView::GameData { from_peer: f1, data: d1 }, PacketView::GameData { from_peer: f2, data: d2 }) => {
            lemma_i32_unique(f1, bytes_field(d1), f2, bytes_field(d2));
            assert(bytes_field(d1) + e =~= bytes_field(d1));
            assert(bytes_field(d2) + e =~= bytes_field(d2));
            lemma_bytes_field_unique(d1, e, d2, e);
        },
        (PacketView::Error { error_code: c1, error_message: s1 }, PacketView::Error { error_code: c2, error_message: s2 }) => {
            lemma_i32_unique(c1, str_field(s1), c2, str_field(s2));
            assert(str_field(s1) + e =~= str_field(s1));
            assert(str_field(s2) + e =~= str_field(s2));
            lemma_str_field_unique(s1, e, s2, e);
        },
        _ => {},
    }
}

/// Decoding the encoding of a well-formed message gives that message back.
pub proof fn lemma_round_trip(m: PacketView)
    requires
        wf(m),
    ensures
        decoded(encode(m)) == Some(m),
{
    lemma_encoding_unique_all(m);
}

} // verus!
