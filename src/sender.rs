//! The sending half of the reliable channel: sequence numbering, the set of
//! unacknowledged sends, and the retransmission sweep.

use vstd::prelude::*;
use crate::frame::encode_frame;
use crate::frame::frame_bytes;
use crate::frame::Frame;
use crate::frame::FrameView;
use vstd::slice::slice_to_vec;

verus! {

/// Milliseconds after its last transmission at which an unacknowledged send
/// is transmitted again.
pub const RETRANSMIT_INTERVAL_MS: u64 = 100;

/// A reliable payload that has been sent and not yet acknowledged.
#[derive(Debug, Clone)]
pub struct PendingSend {
    pub seq: u32,
    pub payload: Vec<u8>,
    pub first_sent_ms: u64,
    pub last_sent_ms: u64,
}

/// The mathematical form of a [`PendingSend`].
pub struct PendingView {
    pub seq: u32,
    pub payload: Seq<u8>,
    pub first_sent_ms: u64,
    pub last_sent_ms: u64,
}

impl View for PendingSend {
    type V = PendingView;

    open spec fn view(&self) -> PendingView {
        PendingView {
            seq: self.seq,
            payload: self.payload@,
            first_sent_ms: self.first_sent_ms,
            last_sent_ms: self.last_sent_ms,
        }
    }
}

/// The sequence number that follows `seq`, modulo 2^32.
pub open spec fn seq_after(seq: u32) -> u32 {
    ((seq as int + 1) % 0x1_0000_0000) as u32
}

/// The reliable frame that carries a pending send.
pub open spec fn pending_frame(p: PendingView) -> Seq<u8> {
    frame_bytes(FrameView::Reliable { seq: p.seq, payload: p.payload })
}

/// Whether a pending send is due for retransmission at `now_ms`.
pub open spec fn is_due(p: PendingView, now_ms: u64, interval_ms: u64) -> bool {
    now_ms >= p.last_sent_ms && now_ms - p.last_sent_ms >= interval_ms
}

/// The pending send after a sweep at `now_ms`.
pub open spec fn after_sweep(p: PendingView, now_ms: u64, interval_ms: u64) -> PendingView {
    if is_due(p, now_ms, interval_ms) {
        PendingView { last_sent_ms: now_ms, ..p }
    } else {
        p
    }
}

/// The frames that a sweep at `now_ms` transmits again, in the order of `ps`.
pub open spec fn due_frames(ps: Seq<PendingView>, now_ms: u64, interval_ms: u64) -> Seq<Seq<u8>>
    decreases ps.len(),
{
    if ps.len() == 0 {
        Seq::empty()
    } else {
        let rest = due_frames(ps.drop_last(), now_ms, interval_ms);
        if is_due(ps.last(), now_ms, interval_ms) {
            rest.push(pending_frame(ps.last()))
        } else {
            rest
        }
    }
}

/// Every unacknowledged send that is due at `now_ms` is among the frames
/// that a sweep at `now_ms` transmits again: a send whose acknowledgment
/// was lost keeps being retransmitted until one arrives.
pub proof fn lemma_due_send_is_resent(ps: Seq<PendingView>, i: int, now_ms: u64, interval_ms: u64)
    requires
        0 <= i < ps.len(),
        is_due(ps[i], now_ms, interval_ms),
    ensures
        due_frames(ps, now_ms, interval_ms).contains(pending_frame(ps[i])),
    decreases ps.len(),
{
    let rest = due_frames(ps.drop_last(), now_ms, interval_ms);
    if i == ps.len() - 1 {
        assert(due_frames(ps, now_ms, interval_ms) == rest.push(pending_frame(ps.last())));
        assert(due_frames(ps, now_ms, interval_ms)[rest.len() as int] == pending_frame(ps[i]));
    } else {
        assert(ps.drop_last()[i] == ps[i]);
        lemma_due_send_is_resent(ps.drop_last(), i, now_ms, interval_ms);
        let j = choose|j: int| 0 <= j < rest.len() && rest[j] == pending_frame(ps[i]);
        if is_due(ps.last(), now_ms, interval_ms) {
            assert(due_frames(ps, now_ms, interval_ms)[j] == pending_frame(ps[i]));
        }
    }
}

/// Whether some pending send carries `seq`.
pub open spec fn holds_seq(ps: Seq<PendingView>, seq: u32) -> bool {
    exists|i: int| 0 <= i < ps.len() && #[trigger] ps[i].seq == seq
}

/// Whether `p` carries one of the `submitted` payloads under its number,
/// the first of them having been numbered `first_seq`.
pub open spec fn is_submitted(first_seq: u32, submitted: Seq<Seq<u8>>, p: PendingView) -> bool {
    exists|k: int|
        0 <= k < submitted.len() && (first_seq + k) % 0x1_0000_0000 == p.seq as int && #[trigger] submitted[k]
            == p.payload
}

/// The sending half of a reliable channel.
pub struct ReliableSender {
    first_seq: u32,
    next_seq: u32,
    pending: Vec<PendingSend>,
    /// Every payload submitted so far, in order; the payload numbered `k`
    /// travels with sequence number `k mod 2^32`.
    submitted: Ghost<Seq<Seq<u8>>>,
}

impl ReliableSender {
    /// The sequence number that the next submission gets.
    pub closed spec fn next_seq(&self) -> u32 {
        self.next_seq
    }

    /// The sequence number of the first submission.
    pub closed spec fn first_seq(&self) -> u32 {
        self.first_seq
    }

    /// The unacknowledged sends, oldest first.
    pub closed spec fn pending(&self) -> Seq<PendingView> {
        self.pending@.map_values(|p: PendingSend| p@)
    }

    /// Every payload submitted so far, in order.
    pub closed spec fn submitted(&self) -> Seq<Seq<u8>> {
        self.submitted@
    }

    /// The sender's invariant: sequence numbers follow the submissions, each
    /// pending send is one of them, and no two pending sends share a number.
    pub open spec fn wf(&self) -> bool {
        &&& self.next_seq() as int == (self.first_seq() + self.submitted().len()) % 0x1_0000_0000
        &&& forall|i: int, j: int|
            0 <= i < j < self.pending().len() ==> #[trigger] self.pending()[i].seq
                != #[trigger] self.pending()[j].seq
        &&& forall|i: int|
            0 <= i < self.pending().len() ==> is_submitted(self.first_seq(), self.submitted(), #[trigger] self.pending()[i])
    }

    /// A sender that has sent nothing and numbers from 0.
    pub fn new() -> (r: Self)
        ensures
            r.wf(),
            r.first_seq() == 0,
            r.next_seq() == 0,
            r.pending().len() == 0,
            r.submitted().len() == 0,
    {
        ReliableSender::with_initial_seq(0)
    }

    /// A sender that has sent nothing and numbers from `first_seq`.
    pub fn with_initial_seq(first_seq: u32) -> (r: Self)
        ensures
            r.wf(),
            r.first_seq() == first_seq,
            r.next_seq() == first_seq,
            r.pending().len() == 0,
            r.submitted().len() == 0,
    {
        ReliableSender { first_seq, next_seq: first_seq, pending: Vec::new(), submitted: Ghost(Seq::empty()) }
    }

    /// The unacknowledged sends, oldest first.
    pub fn pending_sends(&self) -> (r: &Vec<PendingSend>)
        ensures
            r@.map_values(|p: PendingSend| p@) == self.pending(),
    {
        &self.pending
    }

    /// Whether a submission would be accepted now: no unacknowledged send
    /// holds the next sequence number.
    pub fn can_submit(&self) -> (r: bool)
        ensures
            r == !holds_seq(self.pending(), self.next_seq()),
    {
        !self.has_pending(self.next_seq)
    }

    /// Whether a send with sequence number `seq` is unacknowledged.
    pub fn has_pending(&self, seq: u32) -> (r: bool)
        ensures
            r == holds_seq(self.pending(), seq),
    {
        let mut i: usize = 0;
        while i < self.pending.len()
            invariant
                i <= self.pending@.len(),
                forall|j: int| 0 <= j < i ==> self.pending()[j].seq != seq,
            decreases self.pending@.len() - i,
        {
            if self.pending[i].seq == seq {
                assert(self.pending()[i as int].seq == seq);
                return true;
            }
            i = i + 1;
        }
        false
    }

    /// Numbers `payload` with the next sequence number and keeps it until it
    /// is acknowledged. Returns that number, or `None` when a send with that
    /// number is still unacknowledged (all 2^32 numbers are in flight).
    pub fn submit(&mut self, payload: Vec<u8>, now_ms: u64) -> (r: Option<u32>)
        requires
            old(self).wf(),
        ensures
            final(self).wf(),
            match r {
                Some(seq) => {
                    &&& !holds_seq(old(self).pending(), old(self).next_seq())
                    &&& seq == old(self).next_seq()
                    &&& final(self).next_seq() == seq_after(seq)
                    &&& final(self).submitted() == old(self).submitted().push(payload@)
                    &&& final(self).first_seq() == old(self).first_seq()
                    &&& final(self).pending() == old(self).pending().push(
                        PendingView { seq, payload: payload@, first_sent_ms: now_ms, last_sent_ms: now_ms },
                    )
                },
                None => holds_seq(old(self).pending(), old(self).next_seq()) && *final(self) == *old(self),
            },
    {
        let seq = self.next_seq;
        if self.has_pending(seq) {
            return None;
        }
        let ghost old_pending = self.pending();
        let ghost k = self.submitted().len();
        let ghost p = payload@;
        self.pending.push(PendingSend { seq, payload, first_sent_ms: now_ms, last_sent_ms: now_ms });
        self.next_seq = seq.wrapping_add(1);
        self.submitted = Ghost(self.submitted@.push(p));
        proof {
            assert(self.pending() =~= old_pending.push(
                PendingView { seq, payload: p, first_sent_ms: now_ms, last_sent_ms: now_ms },
            ));
            assert forall|i: int| 0 <= i < self.pending().len() implies is_submitted(self.first_seq(), self.submitted(), #[trigger] self.pending()[i]) by {
                if i == old_pending.len() {
                    assert(self.submitted()[k as int] == p);
                } else {
                    assert(self.pending()[i] == old_pending[i]);
                    let k2 = choose|k2: int|
                        0 <= k2 < old(self).submitted().len() && (old(self).first_seq() + k2) % 0x1_0000_0000
                            == old_pending[i].seq as int && #[trigger] old(self).submitted()[k2] == old_pending[i].payload;
                    assert(self.submitted()[k2] == old(self).submitted()[k2]);
                }
            }
            assert forall|i: int, j: int|
                0 <= i < j < self.pending().len() implies #[trigger] self.pending()[i].seq
                    != #[trigger] self.pending()[j].seq by {
                if j == old_pending.len() {
                    assert(self.pending()[i] == old_pending[i]);
                    assert(!holds_seq(old_pending, seq));
                    assert(old_pending[i].seq != seq);
                } else {
                    assert(self.pending()[i] == old_pending[i]);
                    assert(self.pending()[j] == old_pending[j]);
                }
            }
        }
        Some(seq)
    }

    /// Handles an acknowledgment: the pending send with sequence number `seq`
    /// is dropped. An acknowledgment for no pending send changes nothing.
    pub fn on_ack(&mut self, seq: u32)
        requires
            old(self).wf(),
        ensures
            final(self).wf(),
            final(self).next_seq() == old(self).next_seq(),
            final(self).first_seq() == old(self).first_seq(),
            final(self).submitted() == old(self).submitted(),
            !holds_seq(final(self).pending(), seq),
            holds_seq(old(self).pending(), seq) ==> exists|i: int|
                0 <= i < old(self).pending().len() && old(self).pending()[i].seq == seq
                    && final(self).pending() == old(self).pending().remove(i),
            !holds_seq(old(self).pending(), seq) ==> final(self).pending() == old(self).pending(),
    {
        let mut i: usize = 0;
        while i < self.pending.len()
            invariant
                i <= self.pending@.len(),
                *self == *old(self),
                self.wf(),
                forall|j: int| 0 <= j < i ==> self.pending()[j].seq != seq,
            decreases self.pending@.len() - i,
        {
            if self.pending[i].seq == seq {
                let ghost old_pending = self.pending();
                self.pending.remove(i);
                proof {
                    assert(self.pending() =~= old_pending.remove(i as int));
                    assert forall|j: int| 0 <= j < self.pending().len() implies #[trigger] self.pending()[j].seq
                        != seq by {
                        assert(old_pending[i as int].seq == seq);
                        if j < i {
                            assert(self.pending()[j] == old_pending[j]);
                        } else {
                            assert(self.pending()[j] == old_pending[j + 1]);
                            assert(old_pending[i as int].seq != old_pending[j + 1].seq);
                        }
                    }
                    assert forall|a: int, b: int|
                        0 <= a < b < self.pending().len() implies #[trigger] self.pending()[a].seq
                            != #[trigger] self.pending()[b].seq by {
                        let a2 = if a < i { a } else { a + 1 };
                        let b2 = if b < i { b } else { b + 1 };
                        assert(self.pending()[a] == old_pending[a2]);
                        assert(self.pending()[b] == old_pending[b2]);
                    }
                    assert forall|a: int| 0 <= a < self.pending().len() implies is_submitted(self.first_seq(), self.submitted(), #[trigger] self.pending()[a]) by {
                        let a2 = if a < i { a } else { a + 1 };
                        assert(self.pending()[a] == old_pending[a2]);
                                            }
                    assert(self.next_seq() == old(self).next_seq());
                    assert(self.submitted() == old(self).submitted());
                    assert(self.wf());
                }
                return;
            }
            i = i + 1;
        }
    }

    /// Transmits again every pending send that has gone `interval_ms` without
    /// a transmission, marking it as sent at `now_ms`. Returns their frames,
    /// oldest send first.
    pub fn collect_resends(&mut self, now_ms: u64, interval_ms: u64) -> (r: Vec<Vec<u8>>)
        requires
            old(self).wf(),
        ensures
            final(self).wf(),
            final(self).next_seq() == old(self).next_seq(),
            final(self).first_seq() == old(self).first_seq(),
            final(self).submitted() == old(self).submitted(),
            final(self).pending() == old(self).pending().map_values(
                |p: PendingView| after_sweep(p, now_ms, interval_ms),
            ),
            r@.map_values(|f: Vec<u8>| f@) == due_frames(old(self).pending(), now_ms, interval_ms),
    {
        let ghost old_pending = self.pending();
        let mut out: Vec<Vec<u8>> = Vec::new();
        let mut i: usize = 0;
        while i < self.pending.len()
            invariant
                self.wf(),
                i <= self.pending@.len(),
                self.pending@.len() == old_pending.len(),
                self.next_seq() == old(self).next_seq(),
                self.first_seq() == old(self).first_seq(),
                self.submitted() == old(self).submitted(),
                forall|j: int| 0 <= j < i ==> #[trigger] self.pending()[j] == after_sweep(old_pending[j], now_ms, interval_ms),
                forall|j: int| i <= j < self.pending@.len() ==> #[trigger] self.pending()[j] == old_pending[j],
                out@.map_values(|f: Vec<u8>| f@) == due_frames(old_pending.take(i as int), now_ms, interval_ms),
            decreases self.pending@.len() - i,
        {
            proof {
                assert(old_pending.take(i + 1).drop_last() == old_pending.take(i as int));
            }
            let last = self.pending[i].last_sent_ms;
            if now_ms >= last && now_ms - last >= interval_ms {
                let seq = self.pending[i].seq;
                let first = self.pending[i].first_sent_ms;
                let payload = slice_to_vec(self.pending[i].payload.as_slice());
                let kept = slice_to_vec(self.pending[i].payload.as_slice());
                let bytes = encode_frame(&Frame::Reliable { seq, payload });
                out.push(bytes);
                let ghost before = self.pending();
                assert(kept@ == before[i as int].payload);
                self.pending.set(i, PendingSend { seq, payload: kept, first_sent_ms: first, last_sent_ms: now_ms });
                proof {
                    assert(self.pending()[i as int] == after_sweep(old_pending[i as int], now_ms, interval_ms));
                    assert(self.pending() =~= before.update(i as int, after_sweep(old_pending[i as int], now_ms, interval_ms)));
                    assert forall|a: int, b: int|
                        0 <= a < b < self.pending().len() implies #[trigger] self.pending()[a].seq
                            != #[trigger] self.pending()[b].seq by {
                        assert(self.pending()[a].seq == before[a].seq);
                        assert(self.pending()[b].seq == before[b].seq);
                    }
                    assert forall|a: int| 0 <= a < self.pending().len() implies is_submitted(self.first_seq(), self.submitted(), #[trigger] self.pending()[a]) by {
                        assert(self.pending()[a].seq == before[a].seq);
                        assert(self.pending()[a].payload == before[a].payload);
                                            }
                }
            }
            i = i + 1;
        }
        proof {
            assert(old_pending.take(old_pending.len() as int) == old_pending);
            assert(self.pending() =~= old_pending.map_values(|p: PendingView| after_sweep(p, now_ms, interval_ms)));
        }
        out
    }
}

} // verus!
