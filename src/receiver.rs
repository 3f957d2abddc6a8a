//! The receiving half of the reliable channel: acknowledgment, duplicate
//! suppression and in-order delivery over wrapping sequence numbers.

use vstd::prelude::*;

verus! {

/// How many sequence numbers past the next expected one are buffered when
/// they arrive early. Frames further ahead are dropped unacknowledged, so
/// the sender transmits them again later.
pub const RECEIVE_WINDOW: u32 = 1024;

/// Half of the sequence number space: a number this far or further behind
/// the next expected one counts as already delivered.
pub const HALF_SPACE: u32 = 0x8000_0000;

/// How far `seq` lies ahead of `base`, counting modulo 2^32.
pub open spec fn seq_distance(seq: u32, base: u32) -> u32 {
    ((seq as int - base as int) % 0x1_0000_0000) as u32
}

/// The payloads held in the leading filled slots.
pub open spec fn leading_run(slots: Seq<Option<Seq<u8>>>) -> Seq<Seq<u8>>
    decreases slots.len(),
{
    if slots.len() == 0 {
        Seq::empty()
    } else {
        match slots[0] {
            Some(p) => seq![p] + leading_run(slots.drop_first()),
            None => Seq::empty(),
        }
    }
}

/// The slots that remain once the leading filled slots and the empty slot
/// after them are consumed.
pub open spec fn after_run(slots: Seq<Option<Seq<u8>>>) -> Seq<Option<Seq<u8>>>
    decreases slots.len(),
{
    if slots.len() == 0 {
        slots
    } else {
        match slots[0] {
            Some(p) => after_run(slots.drop_first()),
            None => slots.drop_first(),
        }
    }
}

/// The mathematical form of a [`ReliableReceiver`]: the sequence number of
/// the stream's first payload, how many payloads were delivered, and the
/// early arrivals, where `slots[j]` holds the payload numbered
/// `delivered + 1 + j` if it has arrived. The payload numbered `k` travels
/// under sequence number `(first_seq + k) mod 2^32`.
pub struct ReceiverView {
    pub first_seq: u32,
    pub delivered: nat,
    pub slots: Seq<Option<Seq<u8>>>,
}

/// The sequence number of the next payload to deliver.
pub open spec fn expected_seq(v: ReceiverView) -> u32 {
    ((v.first_seq + v.delivered) % 0x1_0000_0000) as u32
}

/// `slots` with `payload` placed at index `j`, growing them with empty slots
/// as needed; a slot that is already filled keeps its payload.
pub open spec fn place(slots: Seq<Option<Seq<u8>>>, j: int, payload: Seq<u8>) -> Seq<Option<Seq<u8>>> {
    if j < slots.len() {
        if slots[j] is Some {
            slots
        } else {
            slots.update(j, Some(payload))
        }
    } else {
        slots + Seq::new((j - slots.len()) as nat, |i: int| None::<Seq<u8>>) + seq![Some(payload)]
    }
}

/// What receiving `payload` under `seq` does: the new state, the payloads
/// delivered to the application in order, and the acknowledgment to send.
pub open spec fn receive_step(v: ReceiverView, seq: u32, payload: Seq<u8>) -> (ReceiverView, Seq<Seq<u8>>, Option<u32>) {
    let d = seq_distance(seq, expected_seq(v));
    if d == 0 {
        let out = seq![payload] + leading_run(v.slots);
        (ReceiverView { delivered: v.delivered + out.len(), slots: after_run(v.slots), ..v }, out, Some(seq))
    } else if d < RECEIVE_WINDOW {
        (ReceiverView { slots: place(v.slots, d - 1, payload), ..v }, Seq::empty(), Some(seq))
    } else if d >= HALF_SPACE {
        (v, Seq::empty(), Some(seq))
    } else {
        (v, Seq::empty(), None)
    }
}

/// Whether the early arrivals held in `v` are the payloads of `stream` under
/// their numbers, and no more than `stream` was delivered.
pub open spec fn agrees_with(v: ReceiverView, stream: Seq<Seq<u8>>) -> bool {
    &&& v.delivered <= stream.len()
    &&& slots_agree(v.slots, v.delivered + 1 as int, stream)
}

/// Whether each filled slot `j` holds the payload numbered `base + j`.
pub open spec fn slots_agree(slots: Seq<Option<Seq<u8>>>, base: int, stream: Seq<Seq<u8>>) -> bool {
    forall|j: int|
        0 <= j < slots.len() && #[trigger] slots[j] is Some ==> base + j < stream.len() && slots[j]->Some_0
            == stream[base + j]
}

/// Whether a reliable frame carries the payload numbered `k` of `stream`,
/// which starts at sequence number `first_seq`, with `k` less than half the
/// sequence space away from `delivered`.
pub open spec fn frame_in_stream(
    stream: Seq<Seq<u8>>,
    first_seq: u32,
    seq: u32,
    payload: Seq<u8>,
    k: int,
    delivered: nat,
) -> bool {
    &&& 0 <= k < stream.len()
    &&& (first_seq + k) % 0x1_0000_0000 == seq as int
    &&& stream[k] == payload
    &&& delivered < k + HALF_SPACE
    &&& k < delivered + HALF_SPACE
}

proof fn lemma_run_agrees(slots: Seq<Option<Seq<u8>>>, base: int, stream: Seq<Seq<u8>>)
    requires
        0 <= base <= stream.len(),
        slots_agree(slots, base, stream),
    ensures
        base + leading_run(slots).len() <= stream.len(),
        leading_run(slots) == stream.subrange(base, base + leading_run(slots).len()),
        slots_agree(after_run(slots), base + leading_run(slots).len() + 1, stream),
    decreases slots.len(),
{
    if slots.len() == 0 {
        assert(stream.subrange(base, base) =~= Seq::<Seq<u8>>::empty());
    } else {
        let rest = slots.drop_first();
        match slots[0] {
            Some(p) => {
                assert(slots[0] is Some);
                assert(slots_agree(rest, base + 1, stream)) by {
                    assert forall|j: int| 0 <= j < rest.len() && #[trigger] rest[j] is Some implies base + 1 + j
                        < stream.len() && rest[j]->Some_0 == stream[base + 1 + j] by {
                        assert(rest[j] == slots[j + 1]);
                    }
                }
                lemma_run_agrees(rest, base + 1, stream);
                let n = leading_run(rest).len();
                assert(leading_run(slots) =~= stream.subrange(base, base + 1 + n));
            },
            None => {
                assert(stream.subrange(base, base) =~= Seq::<Seq<u8>>::empty());
                assert(slots_agree(rest, base + 1, stream)) by {
                    assert forall|j: int| 0 <= j < rest.len() && #[trigger] rest[j] is Some implies base + 1 + j
                        < stream.len() && rest[j]->Some_0 == stream[base + 1 + j] by {
                        assert(rest[j] == slots[j + 1]);
                    }
                }
            },
        }
    }
}

/// Reliable delivery is in order and free of duplicates, across wraparound:
/// when every early arrival held is the stream's payload under its number,
/// receiving any frame of the stream (one delayed, repeated or reordered
/// by the network) hands the application exactly the next stretch of the
/// stream, and keeps every early arrival the stream's own. A frame whose
/// payload was already delivered changes nothing and delivers nothing.
pub proof fn lemma_delivery_in_order(v: ReceiverView, stream: Seq<Seq<u8>>, seq: u32, payload: Seq<u8>, k: int)
    requires
        agrees_with(v, stream),
        frame_in_stream(stream, v.first_seq, seq, payload, k, v.delivered),
    ensures
        ({
            let (w, out, ack) = receive_step(v, seq, payload);
            &&& agrees_with(w, stream)
            &&& v.delivered <= w.delivered
            &&& out == stream.subrange(v.delivered as int, w.delivered as int)
            &&& k < v.delivered ==> w == v && out.len() == 0 && ack == Some(seq)
            &&& k == v.delivered ==> w.delivered > k && ack == Some(seq)
            &&& v.delivered < k < v.delivered + RECEIVE_WINDOW ==> ack == Some(seq)
        }),
{
    let base = expected_seq(v);
    let d = seq_distance(seq, base);
    assert(k >= v.delivered ==> d == k - v.delivered);
    assert(k < v.delivered ==> d == 0x1_0000_0000 + k - v.delivered);
    let (w, out, ack) = receive_step(v, seq, payload);
    if d == 0 {
        lemma_run_agrees(v.slots, v.delivered + 1 as int, stream);
        let n = leading_run(v.slots).len();
        assert(out =~= stream.subrange(v.delivered as int, v.delivered + 1 + n as int));
    } else if d < RECEIVE_WINDOW {
        let j = d - 1;
        let slots2 = place(v.slots, j, payload);
        assert(slots_agree(slots2, v.delivered + 1 as int, stream)) by {
            assert forall|i: int| 0 <= i < slots2.len() && #[trigger] slots2[i] is Some implies v.delivered + 1 + i
                < stream.len() && slots2[i]->Some_0 == stream[v.delivered + 1 + i] by {
                if i == j {
                } else if i < v.slots.len() {
                    assert(slots2[i] == v.slots[i]);
                } else {
                    assert(slots2[i] is None);
                }
            }
        }
        assert(out =~= stream.subrange(v.delivered as int, v.delivered as int));
    } else {
        assert(out =~= stream.subrange(v.delivered as int, v.delivered as int));
    }
}

/// Whether step `i` of a run of receive steps moved the count of deliveries
/// forward and handed over the stream's payloads in between.
pub open spec fn step_delivers(
    stream: Seq<Seq<u8>>,
    states: Seq<ReceiverView>,
    outs: Seq<Seq<Seq<u8>>>,
    i: int,
) -> bool {
    &&& states[i].delivered <= states[i + 1].delivered
    &&& outs[i] == stream.subrange(states[i].delivered as int, states[i + 1].delivered as int)
}

/// Concatenation of the payloads handed over by each step.
pub open spec fn concat_all(outs: Seq<Seq<Seq<u8>>>) -> Seq<Seq<u8>>
    decreases outs.len(),
{
    if outs.len() == 0 {
        Seq::empty()
    } else {
        concat_all(outs.drop_last()) + outs.last()
    }
}

/// The payloads of a run of receive steps, each as
/// `lemma_delivery_in_order` describes, together form exactly the front of
/// the stream: nothing is delivered twice or out of order.
pub proof fn lemma_deliveries_form_prefix(
    stream: Seq<Seq<u8>>,
    states: Seq<ReceiverView>,
    outs: Seq<Seq<Seq<u8>>>,
)
    requires
        states.len() == outs.len() + 1,
        states[0].delivered == 0,
        forall|i: int| 0 <= i < outs.len() ==> #[trigger] step_delivers(stream, states, outs, i),
        states.last().delivered <= stream.len(),
    ensures
        concat_all(outs) == stream.take(states.last().delivered as int),
    decreases outs.len(),
{
    if outs.len() == 0 {
        assert(stream.take(0) =~= Seq::<Seq<u8>>::empty());
    } else {
        let n = outs.len() - 1;
        let s2 = states.drop_last();
        let o2 = outs.drop_last();
        assert forall|i: int| 0 <= i < o2.len() implies #[trigger] step_delivers(stream, s2, o2, i) by {
            assert(step_delivers(stream, states, outs, i));
        }
        assert(step_delivers(stream, states, outs, n));
        assert(s2.last() == states[n]);
        lemma_deliveries_form_prefix(stream, s2, o2);
        assert(stream.take(states[n].delivered as int) + outs[n] =~= stream.take(states.last().delivered as int));
    }
}

/// What one received reliable frame produced.
pub struct Receipt {
    /// Payloads to hand to the application, in sequence order.
    pub delivered: Vec<Vec<u8>>,
    /// The sequence number to acknowledge, if any.
    pub ack: Option<u32>,
}

/// The receiving half of a reliable channel.
pub struct ReliableReceiver {
    first_seq: u32,
    next_expected: u32,
    slots: Vec<Option<Vec<u8>>>,
    delivered: Ghost<nat>,
}

/// The mathematical form of a buffered slot.
pub open spec fn slot_view(s: Option<Vec<u8>>) -> Option<Seq<u8>> {
    match s {
        Some(p) => Some(p@),
        None => None,
    }
}

impl View for ReliableReceiver {
    type V = ReceiverView;

    closed spec fn view(&self) -> ReceiverView {
        ReceiverView { first_seq: self.first_seq, delivered: self.delivered@, slots: self.slots@.map_values(|s: Option<Vec<u8>>| slot_view(s)) }
    }
}

impl ReliableReceiver {
    /// The receiver's invariant: the next expected number follows the count
    /// of deliveries, and early arrivals stay inside the window.
    pub closed spec fn wf(&self) -> bool {
        &&& self.next_expected == expected_seq(self@)
        &&& self.slots@.len() < RECEIVE_WINDOW
    }

    /// A receiver whose stream starts at sequence number 0.
    pub fn new() -> (r: Self)
        ensures
            r.wf(),
            r@.first_seq == 0,
            r@.delivered == 0,
            r@.slots.len() == 0,
    {
        ReliableReceiver::with_initial_seq(0)
    }

    /// A receiver whose stream starts at sequence number `first_seq`.
    pub fn with_initial_seq(first_seq: u32) -> (r: Self)
        ensures
            r.wf(),
            r@.first_seq == first_seq,
            r@.delivered == 0,
            r@.slots.len() == 0,
    {
        let r = ReliableReceiver { first_seq, next_expected: first_seq, slots: Vec::new(), delivered: Ghost(0) };
        assert(r@.slots =~= Seq::empty());
        r
    }

    /// The sequence number of the next payload to deliver.
    pub fn next_expected(&self) -> (r: u32)
        requires
            self.wf(),
        ensures
            r == expected_seq(self@),
    {
        self.next_expected
    }

    /// Handles a reliable frame carrying `payload` under `seq`.
    pub fn receive(&mut self, seq: u32, payload: Vec<u8>) -> (r: Receipt)
        requires
            old(self).wf(),
        ensures
            final(self).wf(),
            final(self)@.slots.len() < RECEIVE_WINDOW,
            (final(self)@, r.delivered@.map_values(|p: Vec<u8>| p@), r.ack) == receive_step(old(self)@, seq, payload@),
    {
        let d = seq.wrapping_sub(self.next_expected);
        assert(d == seq_distance(seq, expected_seq(self@)));
        if d == 0 {
            self.deliver_run(seq, payload)
        } else if d < RECEIVE_WINDOW {
            self.buffer(d, payload);
            let r = Receipt { delivered: Vec::new(), ack: Some(seq) };
            assert(r.delivered@.map_values(|p: Vec<u8>| p@) =~= Seq::empty());
            r
        } else if d >= HALF_SPACE {
            let r = Receipt { delivered: Vec::new(), ack: Some(seq) };
            assert(r.delivered@.map_values(|p: Vec<u8>| p@) =~= Seq::empty());
            r
        } else {
            let r = Receipt { delivered: Vec::new(), ack: None };
            assert(r.delivered@.map_values(|p: Vec<u8>| p@) =~= Seq::empty());
            r
        }
    }

    /// Stores an early arrival `d` numbers ahead of the next expected one.
    fn buffer(&mut self, d: u32, payload: Vec<u8>)
        requires
            old(self).wf(),
            0 < d < RECEIVE_WINDOW,
        ensures
            final(self).wf(),
            final(self)@ == (ReceiverView { slots: place(old(self)@.slots, d - 1, payload@), ..old(self)@ }),
            final(self).next_expected == old(self).next_expected,
    {
        let j = (d - 1) as usize;
        let ghost old_slots = self@.slots;
        if j < self.slots.len() {
            if self.slots[j].is_none() {
                let ghost p = payload@;
                self.slots.set(j, Some(payload));
                assert(self@.slots =~= old_slots.update(j as int, Some(p)));
            }
        } else {
            let ghost p = payload@;
            let ghost start = self.slots@.len();
            while self.slots.len() < j
                invariant
                    start <= self.slots@.len() <= j,
                    j < RECEIVE_WINDOW - 1,
                    self.next_expected == old(self).next_expected,
                    self.first_seq == old(self).first_seq,
                    self.delivered == old(self).delivered,
                    self@.slots =~= old_slots + Seq::new((self.slots@.len() - start) as nat, |i: int| None::<Seq<u8>>),
                decreases j - self.slots@.len(),
            {
                let ghost prev = self@.slots;
                self.slots.push(None);
                assert(self@.slots =~= prev.push(None));
            }
            self.slots.push(Some(payload));
            assert(self@.slots =~= old_slots + Seq::new((j - old_slots.len()) as nat, |i: int| None::<Seq<u8>>) + seq![Some(p)]);
        }
    }

    /// Delivers the expected payload and every buffered one that follows it
    /// without a gap.
    fn deliver_run(&mut self, seq: u32, payload: Vec<u8>) -> (r: Receipt)
        requires
            old(self).wf(),
            seq == old(self).next_expected,
        ensures
            final(self).wf(),
            (final(self)@, r.delivered@.map_values(|p: Vec<u8>| p@), r.ack) == receive_step(old(self)@, seq, payload@),
    {
        let ghost s0 = self@.slots;
        let ghost want = seq![payload@] + leading_run(s0);
        let mut out: Vec<Vec<u8>> = Vec::new();
        out.push(payload);
        self.next_expected = self.next_expected.wrapping_add(1);
        self.delivered = Ghost(self.delivered@ + 1);
        assert(out@.map_values(|p: Vec<u8>| p@) =~= seq![want[0]]);
        loop
            invariant_except_break
                want == out@.map_values(|p: Vec<u8>| p@) + leading_run(self@.slots),
                after_run(s0) == after_run(self@.slots),
            invariant
                self.first_seq == old(self).first_seq,
                self.next_expected == expected_seq(self@),
                self.slots@.len() < RECEIVE_WINDOW,
                self.delivered@ == old(self).delivered@ + out@.len(),
            ensures
                want == out@.map_values(|p: Vec<u8>| p@),
                after_run(s0) == self@.slots,
            decreases self.slots@.len(),
        {
            if self.slots.len() == 0 {
                assert(leading_run(self@.slots) == Seq::<Seq<u8>>::empty());
                assert(want =~= out@.map_values(|q: Vec<u8>| q@));
                break;
            }
            let ghost cur = self@.slots;
            let first = self.slots.remove(0);
            assert(self@.slots =~= cur.drop_first());
            match first {
                Some(p) => {
                    let ghost pv = p@;
                    let ghost before = out@.map_values(|q: Vec<u8>| q@);
                    out.push(p);
                    self.next_expected = self.next_expected.wrapping_add(1);
                    self.delivered = Ghost(self.delivered@ + 1);
                    assert(out@.map_values(|q: Vec<u8>| q@) =~= before.push(pv));
                    assert(leading_run(cur) == seq![pv] + leading_run(cur.drop_first()));
                    assert(want =~= out@.map_values(|q: Vec<u8>| q@) + leading_run(self@.slots));
                },
                None => {
                    assert(leading_run(cur) == Seq::<Seq<u8>>::empty());
                    assert(want =~= out@.map_values(|q: Vec<u8>| q@));
                    assert(after_run(cur) == cur.drop_first());
                    break;
                },
            }
        }
        Receipt { delivered: out, ack: Some(seq) }
    }
}

} // verus!
