//! The relay client: the session, the reliable channel in both directions
//! and the outgoing frame queue, driven by the host's calls, the datagrams
//! it hands in, and the time that passes between polls.

use vstd::prelude::*;
use crate::frame::decode_frame;
use crate::frame::encode_frame;
use crate::frame::frame_bytes;
use crate::frame::Frame;
use crate::frame::FrameError;
use crate::frame::FrameView;
use crate::frame::parse_frame;
use crate::message::decoded;
use crate::message::PacketType;
use crate::message::PacketView;
use crate::message::wf;
use crate::receiver::receive_step;
use crate::receiver::ReceiverView;
use crate::receiver::ReliableReceiver;
use crate::sender::due_frames;
use crate::sender::PendingView;
use crate::sender::ReliableSender;
use crate::sender::RETRANSMIT_INTERVAL_MS;
use crate::session::handle_step;
use crate::session::Channel;
use crate::session::EventView;
use crate::session::RelayClientError;
use crate::session::RelayEvent;
use crate::session::Session;
use crate::session::SessionState;
use crate::session::SessionView;
use crate::session::CLIENT_VERSION;
use crate::session::ModeView;
use crate::session::authenticated;
use crate::session::refusal_of;
use crate::session::refused_error;
use crate::session::session_wf;
use crate::wire::str_fits;
use crate::wire::fits_prefix;

verus! {

/// Milliseconds of session time between keepalive frames.
pub const KEEPALIVE_INTERVAL_MS: u64 = 5000;

/// Milliseconds of session time between retransmission sweeps.
pub const RESEND_SWEEP_MS: u64 = 50;

/// The payload of a keepalive frame, sent unreliably.
pub const KEEPALIVE_BYTE: u8 = 3;

/// What handling one payload does: the session after it, the events it
/// reports and the faults it records. A payload that holds no message is a
/// parsing fault, and a message that the session refuses is a fault with
/// the session's reason; neither changes the session.
pub open spec fn handle_payload(v: SessionView, p: Seq<u8>, channel: Channel) -> (
    SessionView,
    Seq<EventView>,
    Seq<RelayClientError>,
) {
    match decoded(p) {
        Some(m) => match handle_step(v, m, channel) {
            Some((w, events)) => (w, events, Seq::empty()),
            None => (v, Seq::empty(), seq![refused_error(v, m)]),
        },
        None => (v, Seq::empty(), seq![RelayClientError::PacketParsingError]),
    }
}

/// Handling payloads, each with the channel it came on, one after another.
pub open spec fn handle_all(v: SessionView, ps: Seq<(Seq<u8>, Channel)>) -> (
    SessionView,
    Seq<EventView>,
    Seq<RelayClientError>,
)
    decreases ps.len(),
{
    if ps.len() == 0 {
        (v, Seq::empty(), Seq::empty())
    } else {
        let (v1, e1, f1) = handle_all(v, ps.drop_last());
        let (v2, e2, f2) = handle_payload(v1, ps.last().0, ps.last().1);
        (v2, e1 + e2, f1 + f2)
    }
}

/// Whether a session that was open at `a` is over at `b`.
pub open spec fn ended(a: SessionView, b: SessionView) -> bool {
    a.state != SessionState::Disconnected && b.state == SessionState::Disconnected
}

/// A payload that arrived for the session.
#[derive(Debug, Clone, PartialEq, Eq)]
pub enum ClientEvent {
    PacketReceived { data: Vec<u8>, channel: Channel },
}

/// The payload and channel of a [`ClientEvent`].
pub open spec fn event_view(e: ClientEvent) -> (Seq<u8>, Channel) {
    match e {
        ClientEvent::PacketReceived { data, channel } => (data@, channel),
    }
}

/// The events for payloads that all came on `channel`.
pub open spec fn on_channel(ps: Seq<Seq<u8>>, channel: Channel) -> Seq<(Seq<u8>, Channel)> {
    ps.map_values(|p: Seq<u8>| (p, channel))
}

/// What handling one datagram produced.
pub struct Inbound {
    /// Events for the host, in order.
    pub events: Vec<RelayEvent>,
    /// Datagrams and messages that were dropped, and why.
    pub faults: Vec<RelayClientError>,
}

/// The relay client.
pub struct RelayClient {
    app_id: String,
    session: Session,
    sender: ReliableSender,
    receiver: ReliableReceiver,
    outgoing: Vec<Vec<u8>>,
    now_ms: u64,
    since_keepalive_ms: u64,
    since_sweep_ms: u64,
}

impl RelayClient {
    /// The session's state.
    pub closed spec fn session_view(&self) -> SessionView {
        self.session@
    }

    /// Frames waiting to be written to the socket, oldest first.
    pub closed spec fn outgoing(&self) -> Seq<Seq<u8>> {
        self.outgoing@.map_values(|f: Vec<u8>| f@)
    }

    /// The sequence number of the next reliable send.
    pub closed spec fn sender_next_seq(&self) -> u32 {
        self.sender.next_seq()
    }

    /// The reliable sends not yet acknowledged.
    pub closed spec fn pending(&self) -> Seq<PendingView> {
        self.sender.pending()
    }

    /// The receiving half of the reliable channel.
    pub closed spec fn receiver_view(&self) -> ReceiverView {
        self.receiver@
    }

    /// The application identifier that the client authenticates with.
    pub closed spec fn app_id(&self) -> Seq<char> {
        self.app_id@
    }

    /// Milliseconds of session time since the last keepalive frame.
    pub closed spec fn since_keepalive(&self) -> u64 {
        self.since_keepalive_ms
    }

    /// Milliseconds of session time since the last retransmission sweep.
    pub closed spec fn since_sweep(&self) -> u64 {
        self.since_sweep_ms
    }

    /// Session time in milliseconds: the sum of the polls' elapsed times.
    pub closed spec fn now(&self) -> u64 {
        self.now_ms
    }

    /// The client's invariant.
    pub closed spec fn wf(&self) -> bool {
        self.sender.wf() && self.receiver.wf() && session_wf(self.session@)
    }

    /// A client that has not connected.
    pub fn new() -> (r: Self)
        ensures
            r.window_open(),
            r.wf(),
            r.session_view() == crate::session::disconnected_view(),
            r.outgoing().len() == 0,
            r.pending().len() == 0,
            r.receiver_view().delivered == 0,
            r.receiver_view().slots.len() == 0,
            r.now() == 0,
            r.since_keepalive() == 0,
            r.since_sweep() == 0,
    {
        let r = RelayClient {
            app_id: String::new(),
            session: Session::new(),
            sender: ReliableSender::new(),
            receiver: ReliableReceiver::new(),
            outgoing: Vec::new(),
            now_ms: 0,
            since_keepalive_ms: 0,
            since_sweep_ms: 0,
        };
        assert(r.outgoing() =~= Seq::<Seq<u8>>::empty());
        r
    }

    /// Starts a fresh session over a new connection that will authenticate
    /// with `app_id`. Everything of an earlier session is dropped.
    pub fn connect(&mut self, app_id: String)
        ensures
            final(self).window_open(),
            final(self).app_id() == app_id@,
            final(self).wf(),
            final(self).session_view() == (SessionView {
                state: SessionState::Connecting,
                ..crate::session::disconnected_view()
            }),
            final(self).outgoing().len() == 0,
            final(self).pending().len() == 0,
            final(self).receiver_view().delivered == 0,
    {
        *self = RelayClient::new();
        self.app_id = app_id;
        self.session.connect();
    }

    /// Ends the session at once: in-flight reliable sends and queued frames
    /// are dropped and the room directory is cleared.
    pub fn disconnect(&mut self)
        ensures
            final(self).window_open(),
            final(self).wf(),
            final(self).session_view() == crate::session::disconnected_view(),
            final(self).outgoing().len() == 0,
            final(self).pending().len() == 0,
    {
        *self = RelayClient::new();
    }

    /// The session's state.
    pub fn state(&self) -> (r: SessionState)
        ensures
            r == self.session_view().state,
    {
        self.session.state()
    }

    /// The session, for reading.
    pub fn session(&self) -> (r: &Session)
        ensures
            r@ == self.session_view(),
    {
        &self.session
    }

    /// Whether the local peer is the room's authority.
    pub fn is_server(&self) -> (r: bool)
        ensures
            r == crate::session::is_authority(self.session_view()),
    {
        self.session.is_server()
    }

    /// Takes the frames waiting to be written, oldest first.
    pub fn take_outgoing(&mut self) -> (r: Vec<Vec<u8>>)
        requires
            old(self).wf(),
        ensures
            final(self).sender_next_seq() == old(self).sender_next_seq(),
            old(self).window_open() ==> final(self).window_open(),
            final(self).wf(),
            r@.map_values(|f: Vec<u8>| f@) == old(self).outgoing(),
            final(self).outgoing().len() == 0,
            final(self).session_view() == old(self).session_view(),
            final(self).pending() == old(self).pending(),
    {
        let out = self.outgoing.split_off(0);
        assert(self.outgoing() =~= Seq::<Seq<u8>>::empty());
        out
    }

    /// Puts back, ahead of everything queued since, the frames that the
    /// socket could not take yet, so that submission order is kept.
    pub fn requeue(&mut self, unsent: Vec<Vec<u8>>)
        requires
            old(self).wf(),
        ensures
            final(self).sender_next_seq() == old(self).sender_next_seq(),
            old(self).window_open() ==> final(self).window_open(),
            final(self).wf(),
            final(self).outgoing() == unsent@.map_values(|f: Vec<u8>| f@) + old(self).outgoing(),
            final(self).session_view() == old(self).session_view(),
            final(self).pending() == old(self).pending(),
    {
        let mut queue = unsent;
        let ghost front = queue@.map_values(|f: Vec<u8>| f@);
        let ghost back = self.outgoing();
        let mut rest = self.outgoing.split_off(0);
        queue.append(&mut rest);
        self.outgoing = queue;
        assert(self.outgoing() =~= front + back);
    }

    /// Queues `msg` for the relay on `channel`.
    fn send_message(&mut self, msg: PacketType, channel: Channel) -> (r: Result<(), RelayClientError>)
        requires
            old(self).wf(),
            wf(msg@),
        ensures
            final(self).wf(),
            final(self).session_view() == old(self).session_view(),
            final(self).receiver_view() == old(self).receiver_view(),
            channel == Channel::Unreliable ==> r is Ok && final(self).outgoing() == old(self).outgoing().push(
                frame_bytes(FrameView::Unreliable { payload: crate::message::encode(msg@) }),
            ) && final(self).pending() == old(self).pending(),
            final(self).now() == old(self).now(),
            final(self).app_id() == old(self).app_id(),
            channel == Channel::Reliable ==> match r {
                Ok(_) => sent_reliably(*old(self), *final(self), msg@),
                Err(e) => e == RelayClientError::SendWindowFull && unchanged(*old(self), *final(self))
                    && !old(self).window_open(),
            },
            channel == Channel::Reliable && old(self).window_open() ==> r is Ok,
    {
        let bytes = msg.to_bytes();
        let ghost before = self.outgoing();
        match channel {
            Channel::Unreliable => {
                let frame = encode_frame(&Frame::Unreliable { payload: bytes });
                self.outgoing.push(frame);
                assert(self.outgoing() =~= before.push(
                    frame_bytes(FrameView::Unreliable { payload: crate::message::encode(msg@) }),
                ));
                Ok(())
            },
            Channel::Reliable => {
                let copy = vstd::slice::slice_to_vec(bytes.as_slice());
                match self.sender.submit(copy, self.now_ms) {
                    Some(seq) => {
                        let frame = encode_frame(&Frame::Reliable { seq, payload: bytes });
                        self.outgoing.push(frame);
                        assert(self.outgoing() =~= before.push(
                            frame_bytes(FrameView::Reliable { seq, payload: crate::message::encode(msg@) }),
                        ));
                        assert(sent_with(*old(self), *self, crate::message::encode(msg@), seq));
                        Ok(())
                    },
                    None => Err(RelayClientError::SendWindowFull),
                }
            },
        }
    }

    /// Whether a reliable message can be queued now.
    pub open spec fn window_open(&self) -> bool {
        !crate::sender::holds_seq(self.pending(), self.sender_next_seq())
    }

    /// Queues the request `msg` reliably, unless the window is full.
    fn send_request(&mut self, msg: PacketType) -> (r: Result<(), RelayClientError>)
        requires
            old(self).wf(),
            old(self).window_open(),
            wf(msg@),
        ensures
            final(self).wf(),
            r is Ok,
            sent_reliably(*old(self), *final(self), msg@),
            final(self).session_view() == old(self).session_view(),
    {
        self.send_message(msg, Channel::Reliable)
    }

    /// Sends game data to the peer `target` on `channel`.
    pub fn send_game_data(&mut self, target: i32, data: Vec<u8>, channel: Channel) -> (r: Result<(), RelayClientError>)
        requires
            old(self).wf(),
        ensures
            final(self).wf(),
            final(self).session_view() == old(self).session_view(),
            ({
                let m = PacketView::GameData { from_peer: target, data: data@ };
                let fits = fits_prefix(data@);
                let window = channel == Channel::Unreliable || old(self).window_open();
                let in_room = old(self).session_view().state == SessionState::InRoom;
                &&& r is Ok <==> fits && window && in_room
                &&& r is Ok && channel == Channel::Reliable ==> sent_reliably(*old(self), *final(self), m)
                &&& r is Ok && channel == Channel::Unreliable ==> final(self).outgoing() == old(self).outgoing().push(
                    frame_bytes(FrameView::Unreliable { payload: crate::message::encode(m) }),
                ) && final(self).pending() == old(self).pending()
                &&& r is Err ==> unchanged(*old(self), *final(self))
                &&& !fits ==> r == Err::<(), RelayClientError>(RelayClientError::FieldTooLong)
                &&& fits && !window ==> r == Err::<(), RelayClientError>(RelayClientError::SendWindowFull)
                &&& fits && window && !in_room ==> r == Err::<(), RelayClientError>(
                    refusal_of(old(self).session_view().state),
                )
            }),
    {
        if data.len() > 0x7fff_ffff {
            return Err(RelayClientError::FieldTooLong);
        }
        if channel == Channel::Reliable && !self.sender.can_submit() {
            return Err(RelayClientError::SendWindowFull);
        }
        let msg = match self.session.send_game_data(target, data) {
            Ok(m) => m,
            Err(e) => {
                return Err(e);
            },
        };
        self.send_message(msg, channel)
    }

    /// Reports that the transport reached the relay. A connecting session
    /// becomes connected and sends its authentication request.
    pub fn on_transport_connected(&mut self) -> (r: Vec<RelayEvent>)
        requires
            old(self).wf(),
        ensures
            final(self).wf(),
            old(self).session_view().state != SessionState::Connecting ==> unchanged(*old(self), *final(self))
                && r@.len() == 0,
            old(self).session_view().state == SessionState::Connecting ==> {
                &&& r@.map_values(|e: RelayEvent| e@) == seq![EventView::ConnectedToServer]
                &&& str_fits(old(self).app_id()) && old(self).window_open() ==> final(self).session_view()
                    == (SessionView { state: SessionState::Connected, auth_sent: true, ..old(self).session_view() })
                    && sent_reliably(
                    *old(self),
                    *final(self),
                    PacketView::Authenticate { app_id: old(self).app_id(), version: CLIENT_VERSION@ },
                )
                &&& !(str_fits(old(self).app_id()) && old(self).window_open()) ==> final(self).session_view()
                    == (SessionView { state: SessionState::Connected, ..old(self).session_view() })
                    && final(self).outgoing() == old(self).outgoing() && final(self).pending()
                    == old(self).pending()
            },
    {
        let mut events: Vec<RelayEvent> = Vec::new();
        match self.session.on_transport_connected() {
            Some(e) => events.push(e),
            None => {
                return events;
            },
        }
        assert(events@.map_values(|e: RelayEvent| e@) =~= seq![EventView::ConnectedToServer]);
        if !fits_wire(&self.app_id) || !self.sender.can_submit() {
            return events;
        }
        proof {
            reveal_strlit("1.0.0");
            vstd::utf8::is_ascii_chars_encode_utf8(CLIENT_VERSION@);
        }
        let app_id = self.app_id.clone();
        match self.session.authenticate(app_id) {
            Ok(msg) => {
                let ghost mid = *self;
                let ghost m = msg@;
                let _ = self.send_request(msg);
                proof {
                    lemma_sent_from(*old(self), mid, *self, m);
                }
            },
            Err(_) => {},
        }
        events
    }

    /// Hands each received payload in turn to the session, collecting the
    /// events it reports and the faults of what it dropped.
    pub fn handle_events(&mut self, received: &Vec<ClientEvent>) -> (r: Inbound)
        requires
            old(self).wf(),
        ensures
            old(self).window_open() ==> final(self).window_open(),
            final(self).wf(),
            (final(self).session_view(), r.events@.map_values(|e: RelayEvent| e@), r.faults@) == handle_all(
                old(self).session_view(),
                received@.map_values(|e: ClientEvent| event_view(e)),
            ),
            final(self).outgoing() == old(self).outgoing(),
            final(self).pending() == old(self).pending(),
            final(self).sender_next_seq() == old(self).sender_next_seq(),
            final(self).receiver_view() == old(self).receiver_view(),
            final(self).now() == old(self).now(),
            final(self).app_id() == old(self).app_id(),
            final(self).since_keepalive() == old(self).since_keepalive(),
            final(self).since_sweep() == old(self).since_sweep(),
    {
        let ghost pv = received@.map_values(|e: ClientEvent| event_view(e));
        let ghost s0 = self.session_view();
        let mut events: Vec<RelayEvent> = Vec::new();
        let mut faults: Vec<RelayClientError> = Vec::new();
        let mut i: usize = 0;
        assert(pv.take(0) =~= Seq::<(Seq<u8>, Channel)>::empty());
        assert(events@.map_values(|e: RelayEvent| e@) =~= Seq::<EventView>::empty());
        assert(faults@ =~= Seq::<RelayClientError>::empty());
        while i < received.len()
            invariant
                self.wf(),
                i <= received@.len(),
                pv == received@.map_values(|e: ClientEvent| event_view(e)),
                (self.session_view(), events@.map_values(|e: RelayEvent| e@), faults@) == handle_all(
                    s0,
                    pv.take(i as int),
                ),
                self.outgoing() == old(self).outgoing(),
                self.pending() == old(self).pending(),
                self.sender_next_seq() == old(self).sender_next_seq(),
                self.receiver_view() == old(self).receiver_view(),
                self.now() == old(self).now(),
                self.app_id() == old(self).app_id(),
                self.since_keepalive() == old(self).since_keepalive(),
                self.since_sweep() == old(self).since_sweep(),
            decreases received@.len() - i,
        {
            let ghost e1 = events@.map_values(|e: RelayEvent| e@);
            let ghost f1 = faults@;
            proof {
                assert(pv.take(i + 1).drop_last() =~= pv.take(i as int));
                assert(pv.take(i + 1).last() == event_view(received@[i as int]));
            }
            let (data, channel) = match &received[i] {
                ClientEvent::PacketReceived { data, channel } => (data, *channel),
            };
            match PacketType::from_bytes(data.as_slice()) {
                Ok(msg) => {
                    proof {
                        lemma_decoded_wf(data@);
                    }
                    match self.session.handle_packet(msg, channel) {
                        Ok(mut evs) => {
                            let ghost e2 = evs@.map_values(|e: RelayEvent| e@);
                            events.append(&mut evs);
                            assert(events@.map_values(|e: RelayEvent| e@) =~= e1 + e2);
                            assert(f1 + Seq::<RelayClientError>::empty() =~= f1);
                        },
                        Err(e) => {
                            faults.push(e);
                            assert(e1 + Seq::<EventView>::empty() =~= e1);
                            assert(faults@ =~= f1 + seq![e]);
                        },
                    }
                },
                Err(_) => {
                    faults.push(RelayClientError::PacketParsingError);
                    assert(e1 + Seq::<EventView>::empty() =~= e1);
                    assert(faults@ =~= f1 + seq![RelayClientError::PacketParsingError]);
                },
            }
            i = i + 1;
        }
        assert(pv.take(received@.len() as int) =~= pv);
        Inbound { events, faults }
    }

    /// Drops the reliable channel's state and the queued frames, as when
    /// the session ends.
    fn drop_channel(&mut self)
        requires
            old(self).wf(),
        ensures
            final(self).window_open(),
            final(self).wf(),
            final(self).session_view() == old(self).session_view(),
            final(self).outgoing().len() == 0,
            final(self).pending().len() == 0,
            final(self).receiver_view().delivered == 0,
            final(self).now() == old(self).now(),
    {
        self.sender = ReliableSender::new();
        self.receiver = ReliableReceiver::new();
        self.outgoing = Vec::new();
        assert(self.outgoing() =~= Seq::<Seq<u8>>::empty());
    }

    /// Takes one datagram from the relay through the reliable channel: an
    /// acknowledgment clears a pending send; reliable data is acknowledged
    /// and handed over in sequence order, without duplicates; unreliable
    /// data is handed over as it is. The session is not touched.
    pub fn receive_frame(&mut self, bytes: &[u8]) -> (r: Result<Vec<ClientEvent>, FrameError>)
        requires
            old(self).wf(),
        ensures
            final(self).sender_next_seq() == old(self).sender_next_seq(),
            old(self).window_open() ==> final(self).window_open(),
            final(self).wf(),
            final(self).now() == old(self).now(),
            final(self).session_view() == old(self).session_view(),
            match parse_frame(bytes@) {
                Err(e) => r == Err::<Vec<ClientEvent>, FrameError>(e) && unchanged(*old(self), *final(self)),
                Ok(FrameView::Ack { seq }) => {
                    &&& r is Ok && r->Ok_0@.len() == 0
                    &&& final(self).outgoing() == old(self).outgoing()
                    &&& final(self).receiver_view() == old(self).receiver_view()
                    &&& !crate::sender::holds_seq(final(self).pending(), seq)
                    &&& !crate::sender::holds_seq(old(self).pending(), seq) ==> final(self).pending()
                        == old(self).pending()
                    &&& crate::sender::holds_seq(old(self).pending(), seq) ==> exists|i: int|
                        0 <= i < old(self).pending().len() && old(self).pending()[i].seq == seq
                            && final(self).pending() == old(self).pending().remove(i)
                },
                Ok(FrameView::Unreliable { payload }) => {
                    &&& r is Ok && r->Ok_0@.map_values(|e: ClientEvent| event_view(e)) == seq![
                        (payload, Channel::Unreliable),
                    ]
                    &&& unchanged(*old(self), *final(self))
                },
                Ok(FrameView::Reliable { seq, payload }) => {
                    let (rv, delivered, ack) = receive_step(old(self).receiver_view(), seq, payload);
                    &&& r is Ok && r->Ok_0@.map_values(|e: ClientEvent| event_view(e)) == on_channel(
                        delivered,
                        Channel::Reliable,
                    )
                    &&& final(self).outgoing() == match ack {
                        Some(a) => old(self).outgoing().push(frame_bytes(FrameView::Ack { seq: a })),
                        None => old(self).outgoing(),
                    }
                    &&& final(self).pending() == old(self).pending()
                    &&& final(self).receiver_view() == rv
                },
            },
    {
        let frame = match decode_frame(bytes) {
            Ok(f) => f,
            Err(e) => {
                return Err(e);
            },
        };
        let mut out: Vec<ClientEvent> = Vec::new();
        match frame {
            Frame::Ack { seq } => {
                self.sender.on_ack(seq);
            },
            Frame::Unreliable { payload } => {
                out.push(ClientEvent::PacketReceived { data: payload, channel: Channel::Unreliable });
                assert(out@.map_values(|e: ClientEvent| event_view(e)) =~= seq![
                    (frame@->Unreliable_payload, Channel::Unreliable),
                ]);
            },
            Frame::Reliable { seq, payload } => {
                let receipt = self.receiver.receive(seq, payload);
                let ghost before = self.outgoing();
                match receipt.ack {
                    Some(a) => {
                        let ack = encode_frame(&Frame::Ack { seq: a });
                        self.outgoing.push(ack);
                        assert(self.outgoing() =~= before.push(frame_bytes(FrameView::Ack { seq: a })));
                    },
                    None => {},
                }
                let delivered = receipt.delivered;
                let ghost dv = delivered@.map_values(|p: Vec<u8>| p@);
                let mut i: usize = 0;
                while i < delivered.len()
                    invariant
                        i <= delivered@.len(),
                        dv == delivered@.map_values(|p: Vec<u8>| p@),
                        out@.map_values(|e: ClientEvent| event_view(e)) == on_channel(dv.take(i as int), Channel::Reliable),
                    decreases delivered@.len() - i,
                {
                    let data = vstd::slice::slice_to_vec(delivered[i].as_slice());
                    let ghost prev = out@.map_values(|e: ClientEvent| event_view(e));
                    assert(data@ == dv[i as int]);
                    out.push(ClientEvent::PacketReceived { data, channel: Channel::Reliable });
                    assert(out@.map_values(|e: ClientEvent| event_view(e)) =~= prev.push((dv[i as int], Channel::Reliable)));
                    assert(on_channel(dv.take(i + 1), Channel::Reliable) =~= on_channel(dv.take(i as int), Channel::Reliable).push(
                        (dv[i as int], Channel::Reliable),
                    ));
                    i = i + 1;
                }
                assert(dv.take(delivered@.len() as int) =~= dv);
            },
        }
        Ok(out)
    }

    /// Handles one datagram from the relay: it goes through the reliable
    /// channel, and each payload it hands over goes to the session. When
    /// the session ends, the channel's state and queued frames are dropped.
    pub fn receive_datagram(&mut self, bytes: &[u8]) -> (r: Inbound)
        requires
            old(self).wf(),
        ensures
            old(self).window_open() ==> final(self).window_open(),
            final(self).wf(),
            final(self).now() == old(self).now(),
            match parse_frame(bytes@) {
                Err(_) => unchanged(*old(self), *final(self)) && r.events@.len() == 0 && r.faults@ == seq![
                    RelayClientError::PacketParsingError,
                ],
                Ok(FrameView::Ack { seq }) => {
                    &&& r.faults@.len() == 0
                    &&& final(self).session_view() == old(self).session_view()
                    &&& final(self).outgoing() == old(self).outgoing()
                    &&& final(self).receiver_view() == old(self).receiver_view()
                    &&& !crate::sender::holds_seq(final(self).pending(), seq)
                    &&& !crate::sender::holds_seq(old(self).pending(), seq) ==> final(self).pending()
                        == old(self).pending()
                    &&& crate::sender::holds_seq(old(self).pending(), seq) ==> exists|i: int|
                        0 <= i < old(self).pending().len() && old(self).pending()[i].seq == seq
                            && final(self).pending() == old(self).pending().remove(i)
                    &&& r.events@.len() == 0
                },
                Ok(FrameView::Unreliable { payload }) => {
                    let (v, events, faults) = handle_all(
                        old(self).session_view(),
                        seq![(payload, Channel::Unreliable)],
                    );
                    let ended = ended(old(self).session_view(), v);
                    &&& final(self).session_view() == v
                    &&& r.events@.map_values(|e: RelayEvent| e@) == events
                    &&& r.faults@ == faults
                    &&& !ended ==> final(self).outgoing() == old(self).outgoing()
                        && final(self).pending() == old(self).pending() && final(self).receiver_view()
                        == old(self).receiver_view()
                    &&& ended ==> final(self).outgoing().len() == 0 && final(self).pending().len() == 0
                },
                Ok(FrameView::Reliable { seq, payload }) => {
                    let (rv, delivered, ack) = receive_step(old(self).receiver_view(), seq, payload);
                    let (v, events, faults) = handle_all(
                        old(self).session_view(),
                        on_channel(delivered, Channel::Reliable),
                    );
                    let acked = match ack {
                        Some(a) => old(self).outgoing().push(frame_bytes(FrameView::Ack { seq: a })),
                        None => old(self).outgoing(),
                    };
                    let ended = ended(old(self).session_view(), v);
                    &&& final(self).session_view() == v
                    &&& r.events@.map_values(|e: RelayEvent| e@) == events
                    &&& r.faults@ == faults
                    &&& !ended ==> final(self).outgoing() == acked && final(self).pending() == old(self).pending()
                        && final(self).receiver_view() == rv
                    &&& ended ==> final(self).outgoing().len() == 0 && final(self).pending().len() == 0
                },
            },
    {
        let was_open = self.session.state() != SessionState::Disconnected;
        let received = match self.receive_frame(bytes) {
            Ok(evs) => evs,
            Err(_) => {
                let mut faults: Vec<RelayClientError> = Vec::new();
                faults.push(RelayClientError::PacketParsingError);
                return Inbound { events: Vec::new(), faults };
            },
        };
        proof {
            if parse_frame(bytes@) is Ok && parse_frame(bytes@)->Ok_0 is Ack {
                assert(received@.map_values(|e: ClientEvent| event_view(e)) =~= Seq::<(Seq<u8>, Channel)>::empty());
            }
        }
        let r = self.handle_events(&received);
        if was_open && self.session.state() == SessionState::Disconnected {
            self.drop_channel();
        }
        r
    }

    /// Lets `delta_ms` of session time pass. While a session is open, a
    /// keepalive frame is queued once enough time has passed since the last
    /// one, and on each retransmission sweep every unacknowledged send that
    /// is due is queued again.
    pub fn poll(&mut self, delta_ms: u64)
        requires
            old(self).wf(),
        ensures
            final(self).sender_next_seq() == old(self).sender_next_seq(),
            old(self).window_open() ==> final(self).window_open(),
            final(self).wf(),
            final(self).now() == sat_add(old(self).now(), delta_ms),
            final(self).session_view() == old(self).session_view(),
            final(self).receiver_view() == old(self).receiver_view(),
            old(self).session_view().state == SessionState::Disconnected ==> final(self).outgoing()
                == old(self).outgoing() && final(self).pending() == old(self).pending(),
            old(self).session_view().state != SessionState::Disconnected ==> {
                let now = sat_add(old(self).now(), delta_ms);
                let keepalive = sat_add(old(self).since_keepalive(), delta_ms) >= KEEPALIVE_INTERVAL_MS;
                let sweep = sat_add(old(self).since_sweep(), delta_ms) >= RESEND_SWEEP_MS;
                let with_keepalive = if keepalive {
                    old(self).outgoing().push(keepalive_frame())
                } else {
                    old(self).outgoing()
                };
                &&& final(self).outgoing() == if sweep {
                    with_keepalive + due_frames(old(self).pending(), now, RETRANSMIT_INTERVAL_MS)
                } else {
                    with_keepalive
                }
                &&& final(self).pending() == if sweep {
                    old(self).pending().map_values(
                        |p: PendingView| crate::sender::after_sweep(p, now, RETRANSMIT_INTERVAL_MS),
                    )
                } else {
                    old(self).pending()
                }
                &&& final(self).since_keepalive() == if keepalive {
                    0
                } else {
                    sat_add(old(self).since_keepalive(), delta_ms)
                }
                &&& final(self).since_sweep() == if sweep {
                    0
                } else {
                    sat_add(old(self).since_sweep(), delta_ms)
                }
            },
    {
        self.now_ms = add_saturating(self.now_ms, delta_ms);
        if self.session.state() == SessionState::Disconnected {
            return;
        }
        let ghost before = self.outgoing();
        self.since_keepalive_ms = add_saturating(self.since_keepalive_ms, delta_ms);
        if self.since_keepalive_ms >= KEEPALIVE_INTERVAL_MS {
            let mut payload: Vec<u8> = Vec::new();
            payload.push(KEEPALIVE_BYTE);
            let frame = encode_frame(&Frame::Unreliable { payload });
            self.outgoing.push(frame);
            self.since_keepalive_ms = 0;
            assert(self.outgoing() =~= before.push(keepalive_frame()));
        }
        self.since_sweep_ms = add_saturating(self.since_sweep_ms, delta_ms);
        if self.since_sweep_ms >= RESEND_SWEEP_MS {
            let ghost mid = self.outgoing();
            let mut resends = self.sender.collect_resends(self.now_ms, RETRANSMIT_INTERVAL_MS);
            self.outgoing.append(&mut resends);
            self.since_sweep_ms = 0;
            assert(self.outgoing() =~= mid + due_frames(old(self).pending(), self.now_ms, RETRANSMIT_INTERVAL_MS));
        }
    }

    /// Tells the relay that the client is ready for game data.
    pub fn send_ready(&mut self) -> (r: Result<(), RelayClientError>)
        requires
            old(self).wf(),
        ensures
            final(self).wf(),
            request_outcome(
                *old(self),
                *final(self),
                r,
                true,
                SessionState::InRoom,
                PacketView::PeerReady,
                old(self).session_view(),
            ),
    {
        if !self.sender.can_submit() {
            return Err(RelayClientError::SendWindowFull);
        }
        match self.session.send_ready() {
            Ok(msg) => self.send_request(msg),
            Err(e) => Err(e),
        }
    }

    /// Requests a new room, listed publicly or not, with `metadata`.
    pub fn host_room(&mut self, public: bool, metadata: String) -> (r: Result<(), RelayClientError>)
        requires
            old(self).wf(),
        ensures
            final(self).wf(),
            request_outcome(
                *old(self),
                *final(self),
                r,
                str_fits(metadata@),
                SessionState::Authenticated,
                PacketView::CreateRoom { public, metadata: metadata@ },
                SessionView { state: SessionState::AwaitingRoom, mode: ModeView::HostingRoom, ..old(self).session_view() },
            ),
    {
        if !fits_wire(&metadata) {
            return Err(RelayClientError::FieldTooLong);
        }
        if !self.sender.can_submit() {
            return Err(RelayClientError::SendWindowFull);
        }
        match self.session.host_room(public, metadata) {
            Ok(msg) => {
                let ghost mid = *self;
                let ghost m = msg@;
                let r = self.send_request(msg);
                proof {
                    lemma_sent_from(*old(self), mid, *self, m);
                }
                r
            },
            Err(e) => Err(e),
        }
    }

    /// Requests to join the room `room_id`.
    pub fn join_room(&mut self, room_id: String) -> (r: Result<(), RelayClientError>)
        requires
            old(self).wf(),
        ensures
            final(self).wf(),
            request_outcome(
                *old(self),
                *final(self),
                r,
                str_fits(room_id@),
                SessionState::Authenticated,
                PacketView::JoinRoom { room_id: room_id@ },
                SessionView {
                    state: SessionState::AwaitingRoom,
                    mode: ModeView::JoiningRoom(room_id@),
                    ..old(self).session_view()
                },
            ),
    {
        if !fits_wire(&room_id) {
            return Err(RelayClientError::FieldTooLong);
        }
        if !self.sender.can_submit() {
            return Err(RelayClientError::SendWindowFull);
        }
        match self.session.join_room(room_id) {
            Ok(msg) => {
                let ghost mid = *self;
                let ghost m = msg@;
                let r = self.send_request(msg);
                proof {
                    lemma_sent_from(*old(self), mid, *self, m);
                }
                r
            },
            Err(e) => Err(e),
        }
    }

    /// Requests the list of public rooms.
    pub fn list_rooms(&mut self) -> (r: Result<(), RelayClientError>)
        requires
            old(self).wf(),
        ensures
            final(self).wf(),
            final(self).session_view() == old(self).session_view(),
            r is Ok <==> authenticated(old(self).session_view().state) && old(self).window_open(),
            r is Ok ==> sent_reliably(*old(self), *final(self), PacketView::ListRooms),
            r is Err ==> unchanged(*old(self), *final(self)),
            !old(self).window_open() ==> r == Err::<(), RelayClientError>(RelayClientError::SendWindowFull),
            old(self).window_open() && !authenticated(old(self).session_view().state) ==> r == Err::<
                (),
                RelayClientError,
            >(refusal_of(old(self).session_view().state)),
    {
        if !self.sender.can_submit() {
            return Err(RelayClientError::SendWindowFull);
        }
        match self.session.list_rooms() {
            Ok(msg) => {
                let ghost mid = *self;
                let ghost m = msg@;
                let r = self.send_request(msg);
                proof {
                    lemma_sent_from(*old(self), mid, *self, m);
                }
                r
            },
            Err(e) => Err(e),
        }
    }

    /// Requests to replace the current room's metadata.
    pub fn update_room(&mut self, metadata: String) -> (r: Result<(), RelayClientError>)
        requires
            old(self).wf(),
        ensures
            final(self).wf(),
            final(self).session_view() == old(self).session_view(),
            ({
                let v = old(self).session_view();
                let in_room = v.state == SessionState::InRoom && v.room_id is Some;
                &&& r is Ok <==> str_fits(metadata@) && old(self).window_open() && in_room
                &&& r is Ok ==> sent_reliably(
                    *old(self),
                    *final(self),
                    PacketView::UpdateRoom { room_id: v.room_id->Some_0, metadata: metadata@ },
                )
                &&& r is Err ==> unchanged(*old(self), *final(self))
                &&& !str_fits(metadata@) ==> r == Err::<(), RelayClientError>(RelayClientError::FieldTooLong)
                &&& str_fits(metadata@) && !old(self).window_open() ==> r == Err::<(), RelayClientError>(
                    RelayClientError::SendWindowFull,
                )
                &&& str_fits(metadata@) && old(self).window_open() && !in_room ==> r == Err::<(), RelayClientError>(
                    refusal_of(v.state),
                )
            }),
    {
        if !fits_wire(&metadata) {
            return Err(RelayClientError::FieldTooLong);
        }
        if !self.sender.can_submit() {
            return Err(RelayClientError::SendWindowFull);
        }
        match self.session.update_room(metadata) {
            Ok(msg) => {
                let ghost mid = *self;
                let ghost m = msg@;
                let r = self.send_request(msg);
                proof {
                    lemma_sent_from(*old(self), mid, *self, m);
                }
                r
            },
            Err(e) => Err(e),
        }
    }
}

/// Whether `b` is `a` with `payload` queued as a reliable frame under `seq`.
pub open spec fn sent_with(a: RelayClient, b: RelayClient, payload: Seq<u8>, seq: u32) -> bool {
    &&& b.outgoing() == a.outgoing().push(frame_bytes(FrameView::Reliable { seq, payload }))
    &&& b.pending() == a.pending().push(
        PendingView { seq, payload, first_sent_ms: a.now(), last_sent_ms: a.now() },
    )
    &&& seq == a.sender_next_seq()
    &&& b.sender_next_seq() == crate::sender::seq_after(seq)
    &&& b.receiver_view() == a.receiver_view()
    &&& b.now() == a.now()
}

/// Whether `b` is `a` with the encoding of `m` queued as a reliable frame.
pub open spec fn sent_reliably(a: RelayClient, b: RelayClient, m: PacketView) -> bool {
    exists|seq: u32| #[trigger] sent_with(a, b, crate::message::encode(m), seq)
}

/// The keepalive frame.
pub open spec fn keepalive_frame() -> Seq<u8> {
    frame_bytes(FrameView::Unreliable { payload: seq![KEEPALIVE_BYTE] })
}

/// `a + b`, or the largest `u64` when that overflows.
pub open spec fn sat_add(a: u64, b: u64) -> u64 {
    if a + b > u64::MAX {
        u64::MAX
    } else {
        (a + b) as u64
    }
}

/// `a + b`, or the largest `u64` when that overflows.
pub fn add_saturating(a: u64, b: u64) -> (r: u64)
    ensures
        r == sat_add(a, b),
{
    if a > u64::MAX - b {
        u64::MAX
    } else {
        a + b
    }
}

proof fn lemma_decoded_wf(b: Seq<u8>)
    requires
        decoded(b) is Some,
    ensures
        wf(decoded(b)->Some_0),
        crate::message::encode(decoded(b)->Some_0) == b,
{
}

proof fn lemma_sent_from(a: RelayClient, mid: RelayClient, b: RelayClient, m: PacketView)
    requires
        sent_reliably(mid, b, m),
        mid.outgoing() == a.outgoing(),
        mid.pending() == a.pending(),
        mid.sender_next_seq() == a.sender_next_seq(),
        mid.receiver_view() == a.receiver_view(),
        mid.now() == a.now(),
    ensures
        sent_reliably(a, b, m),
{
    let seq = choose|seq: u32| #[trigger] sent_with(mid, b, crate::message::encode(m), seq);
    assert(sent_with(a, b, crate::message::encode(m), seq));
}

/// Whether nothing observable changed from `a` to `b`.
pub open spec fn unchanged(a: RelayClient, b: RelayClient) -> bool {
    &&& b.session_view() == a.session_view()
    &&& b.outgoing() == a.outgoing()
    &&& b.pending() == a.pending()
    &&& b.receiver_view() == a.receiver_view()
    &&& b.now() == a.now()
}

/// The outcome of a request that carries strings that must fit their
/// prefixes (`fits`), is allowed only at `needed`, sends `m` reliably and
/// moves the session to `next`.
pub open spec fn request_outcome(
    a: RelayClient,
    b: RelayClient,
    r: Result<(), RelayClientError>,
    fits: bool,
    needed: SessionState,
    m: PacketView,
    next: SessionView,
) -> bool {
    &&& r is Ok <==> fits && a.window_open() && a.session_view().state == needed
    &&& r is Ok ==> sent_reliably(a, b, m) && b.session_view() == next
    &&& r is Err ==> unchanged(a, b)
    &&& !fits ==> r == Err::<(), RelayClientError>(RelayClientError::FieldTooLong)
    &&& fits && !a.window_open() ==> r == Err::<(), RelayClientError>(RelayClientError::SendWindowFull)
    &&& fits && a.window_open() && a.session_view().state != needed ==> r == Err::<(), RelayClientError>(
        refusal_of(a.session_view().state),
    )
}

/// Whether `s` fits a length prefix on the wire.
pub fn fits_wire(s: &String) -> (r: bool)
    ensures
        r == crate::wire::str_fits(s@),
{
    s.as_str().as_bytes().len() <= 0x7fff_ffff
}

} // verus!
