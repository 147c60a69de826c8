//! Sender engine: per-subscriber bookkeeping for one in-flight message.
//! It tracks which chunk indices each subscriber still owes an
//! acknowledgement for, when each chunk was first transmitted, and when a
//! heartbeat is due; acknowledgements shrink the pending set, negative
//! acknowledgements ask for immediate repair, and an age sweep finds the
//! chunks to retransmit.
use vstd::prelude::*;

use crate::protocol::{MessageId, SubscriberId, CHUNKS_PER_HEARTBEAT, RETRANSMIT_DELAY_USEC};

verus! {

/// Ghost image of one subscriber's delivery progress.
pub ghost struct ProgressV {
    pub sub: SubscriberId,
    pub pending: Seq<bool>,
    pub sent: Seq<bool>,
    pub sent_at: Seq<u64>,
    pub sent_since_heartbeat: usize,
}

/// Delivery progress of one subscriber for the in-flight message:
/// `pending[i]` means chunk `i` is not acknowledged yet, `sent[i]` that it
/// went out at least once, `sent_at[i]` when it first did.
pub struct SubscriberProgress {
    pub sub: SubscriberId,
    pub pending: Vec<bool>,
    pub sent: Vec<bool>,
    pub sent_at: Vec<u64>,
    pub sent_since_heartbeat: usize,
}

impl View for SubscriberProgress {
    type V = ProgressV;

    open spec fn view(&self) -> ProgressV {
        ProgressV {
            sub: self.sub,
            pending: self.pending@,
            sent: self.sent@,
            sent_at: self.sent_at@,
            sent_since_heartbeat: self.sent_since_heartbeat,
        }
    }
}

/// `p` after acknowledging every index of `indices` that is in range:
/// those chunks stop being pending; nothing else moves.
pub open spec fn cleared(p: ProgressV, total: int, indices: Seq<u32>) -> ProgressV {
    ProgressV {
        sub: p.sub,
        pending: Seq::new(total as nat, |j: int| p.pending[j] && !indices.contains(j as u32)),
        sent: p.sent,
        sent_at: p.sent_at,
        sent_since_heartbeat: p.sent_since_heartbeat,
    }
}

impl SubscriberProgress {
    /// Drop every in-range index of `indices` from this row's pending set.
    fn clear_acked(&mut self, total: usize, indices: &Vec<u32>)
        requires
            old(self).pending@.len() == total,
            total <= u32::MAX,
        ensures
            final(self)@ == cleared(old(self)@, total as int, indices@),
    {
        let ghost row_before = self@;
        let m = indices.len();
        let mut t: usize = 0;
        proof {
            assert(self.pending@ =~= Seq::new(
                total as nat,
                |j: int| row_before.pending[j] && !indices@.take(0).contains(j as u32),
            ));
        }
        while t < m
            invariant
                m == indices@.len(),
                t <= m,
                total <= u32::MAX,
                self.pending@.len() == total,
                self@.sub == row_before.sub,
                self@.sent == row_before.sent,
                self@.sent_at == row_before.sent_at,
                self@.sent_since_heartbeat == row_before.sent_since_heartbeat,
                row_before.pending.len() == total,
                self.pending@ == Seq::new(
                    total as nat,
                    |j: int| row_before.pending[j] && !indices@.take(t as int).contains(j as u32),
                ),
            decreases m - t,
        {
            let x = indices[t];
            if (x as usize) < total {
                self.pending[x as usize] = false;
            }
            t = t + 1;
            proof {
                let prefix = indices@.take(t as int - 1);
                let x0 = indices@[t as int - 1];
                assert(indices@.take(t as int) =~= prefix.push(x0));
                assert forall|j: int| 0 <= j < total implies self.pending@[j] == (
                row_before.pending[j] && !indices@.take(t as int).contains(j as u32)) by {
                    assert forall|y: u32| prefix.push(x0).contains(y) <==> (prefix.contains(y) || y
                        == x0) by {
                        if prefix.push(x0).contains(y) {
                            let w = choose|w: int|
                                0 <= w < prefix.push(x0).len() && prefix.push(x0)[w] == y;
                            if w < prefix.len() {
                                assert(prefix[w] == y);
                            }
                        }
                        if prefix.contains(y) {
                            let w = choose|w: int| 0 <= w < prefix.len() && prefix[w] == y;
                            assert(prefix.push(x0)[w] == y);
                        }
                        if y == x0 {
                            assert(prefix.push(x0)[prefix.len() as int] == y);
                        }
                    }
                }
                assert(self.pending@ =~= Seq::new(
                    total as nat,
                    |j: int| row_before.pending[j] && !indices@.take(t as int).contains(j as u32),
                ));
            }
        }
        proof {
            assert(indices@.take(m as int) =~= indices@);
            assert(self.pending@ =~= cleared(row_before, total as int, indices@).pending);
        }
    }
}

/// Every chunk the subscriber owes has been acknowledged.
pub open spec fn spec_sub_done(p: ProgressV) -> bool {
    forall|j: int| 0 <= j < p.pending.len() ==> !p.pending[j]
}

/// Chunk `j` is overdue at time `now`: still pending, transmitted, and
/// older than the retransmit delay.
pub open spec fn spec_due(p: ProgressV, j: int, now: u64) -> bool {
    &&& p.pending[j]
    &&& p.sent[j]
    &&& p.sent_at[j] + RETRANSMIT_DELAY_USEC < now
}

/// The sender's whole picture of one in-flight message: its id, its chunk
/// count, and each known subscriber's progress.
pub struct SenderState {
    pub id: MessageId,
    pub total: usize,
    pub subs: Vec<SubscriberProgress>,
}

impl SenderState {
    /// The progress rows, as ghost values.
    pub open spec fn progress(&self) -> Seq<ProgressV> {
        self.subs@.map_values(|p: SubscriberProgress| p@)
    }

    /// Every row tracks exactly `total` chunks, and the chunk count fits
    /// a wire index.
    pub open spec fn wf(&self) -> bool {
        &&& self.total <= u32::MAX
        &&& forall|i: int|
            0 <= i < self.progress().len() ==> (#[trigger] self.progress()[i]).pending.len()
                == self.total && self.progress()[i].sent.len() == self.total
                && self.progress()[i].sent_at.len() == self.total
    }

    /// Some row belongs to `sub`.
    pub open spec fn knows(&self, sub: SubscriberId) -> bool {
        exists|i: int| 0 <= i < self.progress().len() && (#[trigger] self.progress()[i]).sub == sub
    }

    /// A sender with no subscribers yet for message `id` of `total` chunks.
    pub fn new(id: MessageId, total: usize) -> (s: SenderState)
        requires
            total <= u32::MAX,
        ensures
            s.wf(),
            s.id == id,
            s.total == total,
            s.progress() == Seq::<ProgressV>::empty(),
    {
        let s = SenderState { id, total, subs: Vec::new() };
        proof {
            assert(s.progress() =~= Seq::<ProgressV>::empty());
        }
        s
    }

    /// Admit a subscriber: it owes every chunk of the in-flight message,
    /// none has been transmitted to it, and no heartbeat is due yet.
    pub fn add_subscriber(&mut self, sub: SubscriberId)
        requires
            old(self).wf(),
        ensures
            final(self).wf(),
            final(self).id == old(self).id,
            final(self).total == old(self).total,
            final(self).progress() == old(self).progress().push(
                ProgressV {
                    sub: sub,
                    pending: Seq::new(old(self).total as nat, |j: int| true),
                    sent: Seq::new(old(self).total as nat, |j: int| false),
                    sent_at: Seq::new(old(self).total as nat, |j: int| 0u64),
                    sent_since_heartbeat: 0usize,
                },
            ),
    {
        let n = self.total;
        let mut pending: Vec<bool> = Vec::new();
        let mut sent: Vec<bool> = Vec::new();
        let mut sent_at: Vec<u64> = Vec::new();
        let mut k: usize = 0;
        while k < n
            invariant
                k <= n,
                pending@ == Seq::new(k as nat, |j: int| true),
                sent@ == Seq::new(k as nat, |j: int| false),
                sent_at@ == Seq::new(k as nat, |j: int| 0u64),
            decreases n - k,
        {
            pending.push(true);
            sent.push(false);
            sent_at.push(0u64);
            k = k + 1;
            proof {
                assert(pending@ =~= Seq::new(k as nat, |j: int| true));
                assert(sent@ =~= Seq::new(k as nat, |j: int| false));
                assert(sent_at@ =~= Seq::new(k as nat, |j: int| 0u64));
            }
        }
        let row = SubscriberProgress { sub, pending, sent, sent_at, sent_since_heartbeat: 0 };
        self.subs.push(row);
        proof {
            assert(self.progress() =~= old(self).progress().push(
                ProgressV {
                    sub: sub,
                    pending: Seq::new(old(self).total as nat, |j: int| true),
                    sent: Seq::new(old(self).total as nat, |j: int| false),
                    sent_at: Seq::new(old(self).total as nat, |j: int| 0u64),
                    sent_since_heartbeat: 0usize,
                },
            ));
        }
    }

    /// Is `sub` in the fan-out list?
    pub fn has_subscriber(&self, sub: SubscriberId) -> (r: bool)
        ensures
            r == self.knows(sub),
    {
        let mut i: usize = 0;
        while i < self.subs.len()
            invariant
                i <= self.progress().len(),
                forall|k: int| 0 <= k < i ==> (#[trigger] self.progress()[k]).sub != sub,
            decreases self.progress().len() - i,
        {
            if self.subs[i].sub == sub {
                proof {
                    assert(self.progress()[i as int].sub == sub);
                }
                return true;
            }
            i = i + 1;
        }
        false
    }

    /// Record that chunk `index` was just transmitted to the subscriber in
    /// row `i`: remember the first transmission time, and say whether this
    /// transmission makes a heartbeat due.
    pub fn record_send(&mut self, i: usize, index: u32, now: u64) -> (heartbeat_due: bool)
        requires
            old(self).wf(),
            i < old(self).progress().len(),
            (index as int) < old(self).total,
            old(self).progress()[i as int].sent_since_heartbeat < CHUNKS_PER_HEARTBEAT,
        ensures
            final(self).wf(),
            final(self).id == old(self).id,
            final(self).total == old(self).total,
            final(self).progress().len() == old(self).progress().len(),
            forall|k: int|
                0 <= k < old(self).progress().len() && k != i ==> final(self).progress()[k]
                    == old(self).progress()[k],
            final(self).progress()[i as int].sub == old(self).progress()[i as int].sub,
            final(self).progress()[i as int].pending == old(self).progress()[i as int].pending,
            final(self).progress()[i as int].sent == (if old(self).progress()[i as int].sent[index as int] {
                old(self).progress()[i as int].sent
            } else {
                old(self).progress()[i as int].sent.update(index as int, true)
            }),
            final(self).progress()[i as int].sent_at == (if old(self).progress()[i as int].sent[index as int] {
                old(self).progress()[i as int].sent_at
            } else {
                old(self).progress()[i as int].sent_at.update(index as int, now)
            }),
            heartbeat_due == (old(self).progress()[i as int].sent_since_heartbeat + 1
                == CHUNKS_PER_HEARTBEAT),
            final(self).progress()[i as int].sent_since_heartbeat == (if heartbeat_due {
                0usize
            } else {
                (old(self).progress()[i as int].sent_since_heartbeat + 1) as usize
            }),
    {
        let row = &mut self.subs[i];
        let idx = index as usize;
        if !row.sent[idx] {
            row.sent[idx] = true;
            row.sent_at[idx] = now;
        }
        let due = row.sent_since_heartbeat + 1 == CHUNKS_PER_HEARTBEAT;
        if due {
            row.sent_since_heartbeat = 0;
        } else {
            row.sent_since_heartbeat = row.sent_since_heartbeat + 1;
        }
        proof {
            assert(self.progress() =~= old(self).progress().update(
                i as int,
                self.progress()[i as int],
            ));
        }
        due
    }

    /// Apply an acknowledgement: for the current message, the listed chunk
    /// indices stop being pending for every row of that subscriber; an
    /// acknowledgement for another message, or from an unknown subscriber,
    /// changes nothing.
    pub fn handle_ack(&mut self, sub: SubscriberId, msg: MessageId, indices: &Vec<u32>)
        requires
            old(self).wf(),
        ensures
            final(self).wf(),
            final(self).id == old(self).id,
            final(self).total == old(self).total,
            final(self).progress().len() == old(self).progress().len(),
            forall|k: int|
                0 <= k < old(self).progress().len() && (msg != old(self).id || old(
                    self,
                ).progress()[k].sub != sub) ==> final(self).progress()[k] == old(self).progress()[k],
            forall|k: int|
                0 <= k < old(self).progress().len() && msg == old(self).id && old(
                    self,
                ).progress()[k].sub == sub ==> final(self).progress()[k] == (ProgressV {
                    sub: old(self).progress()[k].sub,
                    pending: Seq::new(
                        old(self).total as nat,
                        |j: int| old(self).progress()[k].pending[j] && !indices@.contains(j as u32),
                    ),
                    sent: old(self).progress()[k].sent,
                    sent_at: old(self).progress()[k].sent_at,
                    sent_since_heartbeat: old(self).progress()[k].sent_since_heartbeat,
                }),
    {
        if msg != self.id {
            return ;
        }
        let n = self.subs.len();
        let total = self.total;
        let mut i: usize = 0;
        while i < n
            invariant
                n == self.progress().len(),
                i <= n,
                self.wf(),
                self.id == old(self).id,
                self.total == old(self).total,
                total == old(self).total,
                self.progress().len() == old(self).progress().len(),
                msg == old(self).id,
                forall|k: int|
                    0 <= k < n && (i <= k || old(self).progress()[k].sub != sub) ==> self.progress()[k]
                        == old(self).progress()[k],
                forall|k: int|
                    0 <= k < i && old(self).progress()[k].sub == sub ==> self.progress()[k]
                        == cleared(old(self).progress()[k], old(self).total as int, indices@),
            decreases n - i,
        {
            let ghost before = self.progress();
            if self.subs[i].sub == sub {
                proof {
                    assert(self.progress()[i as int] == self.subs@[i as int]@);
                    assert(self.subs@[i as int]@.pending.len() == total);
                }
                let row = &mut self.subs[i];
                row.clear_acked(total, indices);
            }
            proof {
                if before[i as int].sub == sub {
                    assert(self.progress() =~= before.update(
                        i as int,
                        cleared(before[i as int], total as int, indices@),
                    ));
                } else {
                    assert(self.progress() =~= before);
                }
            }
            i = i + 1;
        }
    }

    /// Answer a negative acknowledgement: for the current message and a
    /// known subscriber, the in-range indices it reports missing are handed
    /// back for immediate retransmission; anything else asks for nothing.
    pub fn handle_nack(&self, sub: SubscriberId, msg: MessageId, indices: &Vec<u32>) -> (resend:
        Vec<u32>)
        requires
            self.wf(),
        ensures
            msg == self.id && self.knows(sub) ==> resend@ == indices@.filter(
                |x: u32| (x as int) < self.total,
            ),
            !(msg == self.id && self.knows(sub)) ==> resend@ == Seq::<u32>::empty(),
    {
        let mut resend: Vec<u32> = Vec::new();
        proof {
            assert(resend@ =~= Seq::<u32>::empty());
        }
        if msg != self.id {
            return resend;
        }
        if !self.has_subscriber(sub) {
            return resend;
        }
        let m = indices.len();
        let mut t: usize = 0;
        proof {
            assert(indices@.take(0).filter(|x: u32| (x as int) < self.total) =~= Seq::<
                u32,
            >::empty()) by {
                reveal(Seq::filter);
            }
        }
        while t < m
            invariant
                self.wf(),
                m == indices@.len(),
                t <= m,
                resend@ == indices@.take(t as int).filter(|x: u32| (x as int) < self.total),
            decreases m - t,
        {
            let x = indices[t];
            if (x as usize) < self.total {
                resend.push(x);
            }
            t = t + 1;
            proof {
                let pred = |x: u32| (x as int) < self.total;
                let prev = indices@.take(t as int - 1);
                let cur = indices@.take(t as int);
                assert(cur.drop_last() =~= prev);
                assert(cur.last() == indices@[t as int - 1]);
                reveal(Seq::filter);
                assert(cur.filter(pred) == if pred(cur.last()) {
                    prev.filter(pred).push(cur.last())
                } else {
                    prev.filter(pred)
                });
            }
        }
        proof {
            assert(indices@.take(m as int) =~= indices@);
        }
        resend
    }

    /// The chunk indices that are overdue for the subscriber in row `i` at
    /// time `now`, in increasing order.
    pub fn due_retransmits(&self, i: usize, now: u64) -> (v: Vec<u32>)
        requires
            self.wf(),
            i < self.progress().len(),
        ensures
            forall|x: u32|
                v@.contains(x) <==> (x as int) < self.total && spec_due(
                    self.progress()[i as int],
                    x as int,
                    now,
                ),
            forall|a: int, b: int| 0 <= a < b < v@.len() ==> v@[a] < v@[b],
    {
        let row = &self.subs[i];
        let n = self.total;
        let delay = RETRANSMIT_DELAY_USEC as u64;
        let mut v: Vec<u32> = Vec::new();
        let mut j: usize = 0;
        while j < n
            invariant
                self.wf(),
                i < self.progress().len(),
                n == self.total,
                row == self.subs@[i as int],
                row@ == self.progress()[i as int],
                delay == RETRANSMIT_DELAY_USEC as u64,
                j <= n,
                forall|x: u32|
                    v@.contains(x) <==> (x as int) < j && spec_due(
                        self.progress()[i as int],
                        x as int,
                        now,
                    ),
                forall|a: int, b: int| 0 <= a < b < v@.len() ==> v@[a] < v@[b],
                forall|a: int| 0 <= a < v@.len() ==> (v@[a] as int) < j,
            decreases n - j,
        {
            let s = row.sent_at[j];
            if row.pending[j] && row.sent[j] && s < now && now - s > delay {
                let ghost old_v = v@;
                v.push(j as u32);
                proof {
                    assert(spec_due(self.progress()[i as int], j as int, now));
                    assert forall|x: u32| v@.contains(x) <==> ((x as int) < j + 1 && spec_due(
                        self.progress()[i as int],
                        x as int,
                        now,
                    )) by {
                        assert(v@ == old_v.push(j as u32));
                        if v@.contains(x) {
                            let w = choose|w: int| 0 <= w < v@.len() && v@[w] == x;
                            if w < old_v.len() {
                                assert(old_v.contains(x));
                            } else {
                                assert(x == j as u32);
                            }
                        }
                        if (x as int) < j + 1 && spec_due(self.progress()[i as int], x as int, now) {
                            if (x as int) < j {
                                assert(old_v.contains(x));
                                let w = choose|w: int| 0 <= w < old_v.len() && old_v[w] == x;
                                assert(v@[w] == x);
                            } else {
                                assert(v@[v@.len() - 1] == x);
                            }
                        }
                    }
                }
            } else {
                proof {
                    assert forall|x: u32| v@.contains(x) <==> ((x as int) < j + 1 && spec_due(
                        self.progress()[i as int],
                        x as int,
                        now,
                    )) by {
                        if (x as int) == j as int {
                            assert(!spec_due(self.progress()[i as int], x as int, now));
                        }
                    }
                }
            }
            j = j + 1;
        }
        v
    }

    /// Has the subscriber in row `i` acknowledged every chunk?
    pub fn sub_done(&self, i: usize) -> (r: bool)
        requires
            self.wf(),
            i < self.progress().len(),
        ensures
            r == spec_sub_done(self.progress()[i as int]),
    {
        let row = &self.subs[i];
        let mut j: usize = 0;
        while j < row.pending.len()
            invariant
                row == self.subs@[i as int],
                row@ == self.progress()[i as int],
                i < self.progress().len(),
                j <= row.pending@.len(),
                forall|k: int| 0 <= k < j ==> !row.pending@[k],
            decreases row.pending@.len() - j,
        {
            if row.pending[j] {
                proof {
                    assert(self.progress()[i as int].pending[j as int]);
                }
                return false;
            }
            j = j + 1;
        }
        true
    }

    /// Is the whole send finished: has every known subscriber acknowledged
    /// every chunk?
    pub fn all_done(&self) -> (r: bool)
        requires
            self.wf(),
        ensures
            r == (forall|i: int|
                0 <= i < self.progress().len() ==> spec_sub_done(#[trigger] self.progress()[i])),
    {
        let mut i: usize = 0;
        while i < self.subs.len()
            invariant
                self.wf(),
                i <= self.progress().len(),
                forall|k: int| 0 <= k < i ==> spec_sub_done(#[trigger] self.progress()[k]),
            decreases self.progress().len() - i,
        {
            if !self.sub_done(i) {
                return false;
            }
            i = i + 1;
        }
        true
    }
}

} // verus!
