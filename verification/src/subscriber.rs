//! Receiver engine: turns an unordered, lossy stream of chunks and
//! heartbeats into complete messages, and accumulates the chunk indices
//! that the next heartbeat reply acknowledges.
use vstd::prelude::*;

use crate::protocol::{
    Chunk, ChunkV, MessageId, ParticipantToSubscriber, spec_chunk_count, spec_payload_chunk,
    CHUNK_SIZE,
};

verus! {

/// Ghost image of the in-flight reassembly state.
pub ghost struct SubscriberStateV {
    pub id: MessageId,
    pub buffer: Seq<u8>,
    pub received: Seq<bool>,
    pub acks: Seq<u32>,
}

/// In-flight reassembly state: the message being put back together,
/// which of its chunks have arrived, and the indices accumulated for
/// the next acknowledgement.
pub struct SubscriberState {
    pub id: MessageId,
    pub buffer: Vec<u8>,
    pub received: Vec<bool>,
    pub acks: Vec<u32>,
}

impl View for SubscriberState {
    type V = SubscriberStateV;

    open spec fn view(&self) -> SubscriberStateV {
        SubscriberStateV {
            id: self.id,
            buffer: self.buffer@,
            received: self.received@,
            acks: self.acks@,
        }
    }
}

/// Every flag of `s` is set.
pub open spec fn all_received(s: Seq<bool>) -> bool {
    forall|i: int| 0 <= i < s.len() ==> s[i]
}

/// `buf` with the bytes from `at` on replaced by `data`; everything else kept.
pub open spec fn splice(buf: Seq<u8>, at: int, data: Seq<u8>) -> Seq<u8> {
    Seq::new(buf.len(), |i: int| if at <= i < at + data.len() { data[i - at] } else { buf[i] })
}

/// The reassembly state right after a reset for the message `c` belongs to.
pub open spec fn reset_state(c: ChunkV) -> SubscriberStateV {
    SubscriberStateV {
        id: c.id,
        buffer: Seq::new(c.total_bytes as nat, |i: int| 0u8),
        received: Seq::new(c.total as nat, |i: int| false),
        acks: Seq::empty(),
    }
}

/// What receiving one chunk does: reset on a new message id, record the
/// index for the next acknowledgement, and, if the chunk is new, splice its
/// payload into the buffer and mark it received. The second component says
/// whether this very delivery completed the message.
pub open spec fn spec_deliver(s: SubscriberStateV, c: ChunkV) -> (SubscriberStateV, bool) {
    let s1 = if c.id != s.id {
        reset_state(c)
    } else {
        s
    };
    let s2 = SubscriberStateV {
        id: s1.id,
        buffer: s1.buffer,
        received: s1.received,
        acks: s1.acks.push(c.index),
    };
    if !s2.received[c.index as int] {
        let rec = s2.received.update(c.index as int, true);
        let out = SubscriberStateV {
            id: s2.id,
            buffer: splice(s2.buffer, c.index as int * CHUNK_SIZE as int, c.data),
            received: rec,
            acks: s2.acks,
        };
        (out, all_received(rec))
    } else {
        (s2, false)
    }
}

/// What a heartbeat does: for the current message id, hand out the
/// accumulated indices and clear the accumulator; any other id is stale
/// and leaves the state alone with no reply.
pub open spec fn spec_heartbeat(s: SubscriberStateV, id: MessageId) -> (
    SubscriberStateV,
    Option<Seq<u32>>,
) {
    if id == s.id {
        (
            SubscriberStateV { id: s.id, buffer: s.buffer, received: s.received, acks: Seq::empty() },
            Some(s.acks),
        )
    } else {
        (s, None)
    }
}

/// A vector of `n` zero bytes.
fn zero_bytes(n: usize) -> (v: Vec<u8>)
    ensures
        v@ == Seq::new(n as nat, |i: int| 0u8),
{
    let mut v: Vec<u8> = Vec::new();
    let mut k: usize = 0;
    while k < n
        invariant
            k <= n,
            v@ == Seq::new(k as nat, |i: int| 0u8),
        decreases n - k,
    {
        v.push(0u8);
        k = k + 1;
        proof {
            assert(v@ =~= Seq::new(k as nat, |i: int| 0u8));
        }
    }
    v
}

/// A vector of `n` cleared flags.
fn clear_flags(n: usize) -> (v: Vec<bool>)
    ensures
        v@ == Seq::new(n as nat, |i: int| false),
{
    let mut v: Vec<bool> = Vec::new();
    let mut k: usize = 0;
    while k < n
        invariant
            k <= n,
            v@ == Seq::new(k as nat, |i: int| false),
        decreases n - k,
    {
        v.push(false);
        k = k + 1;
        proof {
            assert(v@ =~= Seq::new(k as nat, |i: int| false));
        }
    }
    v
}

impl SubscriberState {
    /// A receiver with nothing in flight yet.
    pub fn new() -> (s: SubscriberState)
        ensures
            s@ == (SubscriberStateV {
                id: 0u64,
                buffer: Seq::<u8>::empty(),
                received: Seq::<bool>::empty(),
                acks: Seq::<u32>::empty(),
            }),
    {
        let s = SubscriberState { id: 0, buffer: Vec::new(), received: Vec::new(), acks: Vec::new() };
        proof {
            assert(s@.buffer =~= Seq::<u8>::empty());
            assert(s@.received =~= Seq::<bool>::empty());
            assert(s@.acks =~= Seq::<u32>::empty());
        }
        s
    }

    /// Receive one chunk; the result says whether this delivery completed
    /// the current message, in which case `self.buffer` holds it whole.
    pub fn handle_chunk(&mut self, c: &Chunk) -> (done: bool)
        requires
            c@.index < c@.total,
            c@.index as int * CHUNK_SIZE as int + c@.data.len() <= c@.total_bytes as int,
            c@.id == old(self)@.id ==> c@.total as int == old(self)@.received.len()
                && c@.total_bytes as int == old(self)@.buffer.len(),
            c@.id != old(self)@.id ==> c@.total_bytes <= usize::MAX as u64,
        ensures
            final(self)@ == spec_deliver(old(self)@, c@).0,
            done == spec_deliver(old(self)@, c@).1,
    {
        if c.id != self.id {
            self.id = c.id;
            self.buffer = zero_bytes(c.total_bytes as usize);
            self.received = clear_flags(c.total as usize);
            self.acks = Vec::new();
            proof {
                assert(self@.acks =~= Seq::<u32>::empty());
                assert(self@ == reset_state(c@));
            }
        }
        self.acks.push(c.index);
        let idx = c.index as usize;
        if !self.received[idx] {
            let ghost pre = self@;
            let buf_len = self.buffer.len();
            proof {
                assert(idx as int * (CHUNK_SIZE as int) + c@.data.len() <= buf_len as int);
            }
            let start = idx * CHUNK_SIZE;
            let mut j: usize = 0;
            while j < c.data.len()
                invariant
                    j <= c.data.len(),
                    start == idx * CHUNK_SIZE,
                    idx == c@.index,
                    start + c.data.len() <= self.buffer.len(),
                    self.buffer@.len() == pre.buffer.len(),
                    forall|t: int|
                        0 <= t < self.buffer@.len() ==> self.buffer@[t] == (if start <= t < start
                            + j {
                            c@.data[t - start]
                        } else {
                            pre.buffer[t]
                        }),
                    self.id == pre.id,
                    self.received@ == pre.received,
                    self.acks@ == pre.acks,
                decreases c.data.len() - j,
            {
                let b = c.data[j];
                self.buffer[start + j] = b;
                j = j + 1;
            }
            proof {
                assert(self.buffer@ =~= splice(pre.buffer, idx as int * CHUNK_SIZE as int, c@.data));
            }
            self.received[idx] = true;
            let mut complete = true;
            let mut k: usize = 0;
            while k < self.received.len()
                invariant
                    k <= self.received@.len(),
                    complete == (forall|t: int| 0 <= t < k ==> self.received@[t]),
                    self@ == (SubscriberStateV {
                        id: pre.id,
                        buffer: splice(pre.buffer, c@.index as int * CHUNK_SIZE as int, c@.data),
                        received: pre.received.update(c@.index as int, true),
                        acks: pre.acks,
                    }),
                decreases self.received@.len() - k,
            {
                if !self.received[k] {
                    complete = false;
                }
                k = k + 1;
            }
            complete
        } else {
            false
        }
    }

    /// Receive a heartbeat: for the current message, hand back the indices
    /// to acknowledge and clear the accumulator; a stale id gets no reply.
    pub fn handle_heartbeat(&mut self, id: MessageId) -> (r: Option<Vec<u32>>)
        ensures
            id == old(self)@.id ==> (match r {
                Some(v) => v@ == old(self)@.acks,
                None => false,
            }) && final(self)@ == (SubscriberStateV {
                id: old(self)@.id,
                buffer: old(self)@.buffer,
                received: old(self)@.received,
                acks: Seq::empty(),
            }),
            id != old(self)@.id ==> r is None && final(self)@ == old(self)@,
    {
        if id == self.id {
            let mut out: Vec<u32> = Vec::new();
            core::mem::swap(&mut out, &mut self.acks);
            proof {
                assert(self@.acks =~= Seq::<u32>::empty());
            }
            Some(out)
        } else {
            None
        }
    }
}

/// What one control message from the participant means to a subscriber:
/// `Init` is a bare acknowledgement, `InitFailed` is reported but leaves
/// the subscriber free to reconnect and try again.
pub fn apply_subscriber_control(msg: &ParticipantToSubscriber) -> (failed: bool)
    ensures
        failed == (msg matches ParticipantToSubscriber::InitFailed),
{
    match msg {
        ParticipantToSubscriber::Init => false,
        ParticipantToSubscriber::InitFailed => true,
    }
}

/// Receiving a chunk whose index is already marked received leaves the
/// buffer and the received flags as they were and completes nothing: only
/// the acknowledgement accumulator notes the duplicate.
pub proof fn lemma_duplicate_chunk_idempotent(s: SubscriberStateV, c: ChunkV)
    requires
        c.id == s.id,
        0 <= c.index < s.received.len(),
        s.received[c.index as int],
    ensures
        spec_deliver(s, c).0.buffer == s.buffer,
        spec_deliver(s, c).0.received == s.received,
        spec_deliver(s, c).0.acks == s.acks.push(c.index),
        !spec_deliver(s, c).1,
{
}

/// A chunk bearing a new message id discards whatever was in flight: the
/// outcome does not depend on the prior state at all.
pub proof fn lemma_new_id_resets(s1: SubscriberStateV, s2: SubscriberStateV, c: ChunkV)
    requires
        c.id != s1.id,
        c.id != s2.id,
    ensures
        spec_deliver(s1, c) == spec_deliver(s2, c),
{
}

/// A heartbeat for any message other than the one in flight draws no
/// acknowledgement and moves nothing.
pub proof fn lemma_stale_heartbeat_ignored(s: SubscriberStateV, id: MessageId)
    requires
        id != s.id,
    ensures
        spec_heartbeat(s, id).0 == s,
        spec_heartbeat(s, id).1 is None,
{
}

/// Deliver the chunks of `payload` named by `order`, first to last;
/// the second component counts how many deliveries completed the message.
pub open spec fn run_deliveries(
    s: SubscriberStateV,
    payload: Seq<u8>,
    id: MessageId,
    ts: u64,
    order: Seq<int>,
) -> (SubscriberStateV, nat)
    decreases order.len(),
{
    if order.len() == 0 {
        (s, 0nat)
    } else {
        let first = spec_deliver(s, spec_payload_chunk(payload, id, ts, order[0]));
        let rest = run_deliveries(first.0, payload, id, ts, order.drop_first());
        (rest.0, rest.1 + (if first.1 {
            1nat
        } else {
            0nat
        }))
    }
}

/// The state is a faithful partial reassembly of `payload`: right sizes,
/// and every byte whose chunk is marked received already matches.
pub open spec fn partial_for(s: SubscriberStateV, payload: Seq<u8>, id: MessageId) -> bool {
    &&& s.id == id
    &&& s.buffer.len() == payload.len()
    &&& s.received.len() == spec_chunk_count(payload.len())
    &&& forall|b: int|
        0 <= b < payload.len() && s.received[b / (CHUNK_SIZE as int)] ==> #[trigger] s.buffer[b]
            == payload[b]
}

/// Size facts about the chunk count: the chunks cover the payload, and
/// only the last one may fall short of `CHUNK_SIZE`.
pub proof fn lemma_chunk_count_bounds(len: nat)
    ensures
        len <= spec_chunk_count(len) * CHUNK_SIZE,
        spec_chunk_count(len) * CHUNK_SIZE < len + CHUNK_SIZE,
        len >= 1 ==> spec_chunk_count(len) >= 1,
{
    let n = spec_chunk_count(len) as int;
    let x = len as int + CHUNK_SIZE as int - 1;
    let cs = CHUNK_SIZE as int;
    vstd::arithmetic::div_mod::lemma_fundamental_div_mod(x, cs);
    let r = x % cs;
    vstd::arithmetic::div_mod::lemma_mod_bound(x, cs);
    assert(x == n * cs + r);
}

/// Delivering one in-range chunk of `payload` keeps the reassembly
/// faithful, only adds received marks, marks that chunk received, and
/// completes exactly when the flags turn all true.
pub proof fn lemma_deliver_step(s: SubscriberStateV, payload: Seq<u8>, id: MessageId, ts: u64, j: int)
    requires
        partial_for(s, payload, id),
        0 <= j < spec_chunk_count(payload.len()),
        spec_chunk_count(payload.len()) <= u32::MAX,
        payload.len() <= u64::MAX,
    ensures
        partial_for(spec_deliver(s, spec_payload_chunk(payload, id, ts, j)).0, payload, id),
        forall|k: int|
            0 <= k < s.received.len() && s.received[k] ==> spec_deliver(
                s,
                spec_payload_chunk(payload, id, ts, j),
            ).0.received[k],
        spec_deliver(s, spec_payload_chunk(payload, id, ts, j)).0.received[j],
        spec_deliver(s, spec_payload_chunk(payload, id, ts, j)).1 == (!s.received[j]
            && all_received(spec_deliver(s, spec_payload_chunk(payload, id, ts, j)).0.received)),
        all_received(s.received) ==> spec_deliver(
            s,
            spec_payload_chunk(payload, id, ts, j),
        ).0.received == s.received,
        s.received[j] ==> spec_deliver(s, spec_payload_chunk(payload, id, ts, j)).0.received
            == s.received,
{
    let cs = CHUNK_SIZE as int;
    let c = spec_payload_chunk(payload, id, ts, j);
    lemma_chunk_count_bounds(payload.len());
    assert((j + 1) * cs == j * cs + cs) by (nonlinear_arith);
    assert(j * cs <= (spec_chunk_count(payload.len()) - 1) * cs) by (nonlinear_arith)
        requires
            j <= spec_chunk_count(payload.len()) - 1,
            cs >= 0,
    ;
    assert((spec_chunk_count(payload.len()) - 1) * cs == spec_chunk_count(payload.len()) * cs - cs)
        by (nonlinear_arith);
    assert(j * cs <= payload.len());
    if !s.received[j] {
        let out = spec_deliver(s, c).0;
        assert(out.received =~= s.received.update(j, true));
        assert forall|b: int|
            0 <= b < payload.len() && out.received[b / cs] implies #[trigger] out.buffer[b]
            == payload[b] by {
            let q = b / cs;
            vstd::arithmetic::div_mod::lemma_fundamental_div_mod(b, cs);
            vstd::arithmetic::div_mod::lemma_mod_bound(b, cs);
            assert(b == q * cs + b % cs);
            if q == j {
                if j * cs <= b < j * cs + c.data.len() {
                    assert(out.buffer[b] == c.data[b - j * cs]);
                    assert(c.data[b - j * cs] == payload[b]);
                } else {
                    assert(b >= (j + 1) * cs || b < j * cs);
                    assert(false) by (nonlinear_arith)
                        requires
                            b == q * cs + b % cs,
                            0 <= b % cs < cs,
                            q == j,
                            b >= (j + 1) * cs || b < j * cs,
                    ;
                }
            } else {
                assert(!(j * cs <= b < j * cs + c.data.len())) by (nonlinear_arith)
                    requires
                        b == q * cs + b % cs,
                        0 <= b % cs < cs,
                        q != j,
                        c.data.len() <= cs,
                    ;
                assert(out.buffer[b] == s.buffer[b]);
                assert(s.received[q]);
            }
        }
    } else {
        assert(spec_deliver(s, c).0.received =~= s.received);
    }
}

/// One delivery round: starting from any faithful partial state, running
/// the listed in-range chunk deliveries keeps it faithful, marks every
/// listed chunk received, and completes the message at most once — exactly
/// once if it was incomplete before and complete after.
pub proof fn lemma_run_deliveries(
    s: SubscriberStateV,
    payload: Seq<u8>,
    id: MessageId,
    ts: u64,
    order: Seq<int>,
)
    requires
        partial_for(s, payload, id),
        spec_chunk_count(payload.len()) <= u32::MAX,
        payload.len() <= u64::MAX,
        forall|t: int| 0 <= t < order.len() ==> 0 <= #[trigger] order[t] < spec_chunk_count(
            payload.len(),
        ),
    ensures
        partial_for(run_deliveries(s, payload, id, ts, order).0, payload, id),
        forall|k: int|
            0 <= k < s.received.len() && s.received[k] ==> run_deliveries(
                s,
                payload,
                id,
                ts,
                order,
            ).0.received[k],
        forall|t: int|
            0 <= t < order.len() ==> run_deliveries(s, payload, id, ts, order).0.received[#[trigger] order[t]],
        run_deliveries(s, payload, id, ts, order).1 == (if all_received(s.received) {
            0nat
        } else if all_received(run_deliveries(s, payload, id, ts, order).0.received) {
            1nat
        } else {
            0nat
        }),
    decreases order.len(),
{
    if order.len() > 0 {
        let c = spec_payload_chunk(payload, id, ts, order[0]);
        let first = spec_deliver(s, c);
        lemma_deliver_step(s, payload, id, ts, order[0]);
        lemma_run_deliveries(first.0, payload, id, ts, order.drop_first());
        let rest = run_deliveries(first.0, payload, id, ts, order.drop_first());
        assert forall|t: int|
            0 <= t < order.len() implies run_deliveries(
            s,
            payload,
            id,
            ts,
            order,
        ).0.received[#[trigger] order[t]] by {
            if t > 0 {
                assert(order.drop_first()[t - 1] == order[t]);
            }
        }
        if all_received(s.received) {
            assert(first.0.received == s.received);
            assert(!first.1);
        } else if first.1 {
            assert(all_received(first.0.received));
            assert(rest.1 == 0);
            assert(first.0.received.len() == spec_chunk_count(payload.len()));
            assert(rest.0.received.len() == spec_chunk_count(payload.len()));
            assert forall|k: int| 0 <= k < rest.0.received.len() implies rest.0.received[k] by {
                assert(first.0.received[k]);
            }
            assert(all_received(rest.0.received));
        } else {
            if s.received[order[0]] {
                assert(first.0.received == s.received);
                assert(!all_received(first.0.received));
            } else {
                assert(!all_received(first.0.received));
            }
        }
    }
}

/// Round trip of chunking and reassembly: splitting a payload into its
/// chunks and delivering them in any order, duplicates included, yields
/// the payload back, byte for byte, with exactly one completion — as long
/// as every chunk index is delivered at least once and the run starts on
/// a different message id, so the first chunk resets the state.
pub proof fn lemma_chunk_reassembly_round_trip(
    s0: SubscriberStateV,
    payload: Seq<u8>,
    id: MessageId,
    ts: u64,
    order: Seq<int>,
)
    requires
        1 <= payload.len() <= u64::MAX,
        spec_chunk_count(payload.len()) <= u32::MAX,
        s0.id != id,
        order.len() >= 1,
        forall|t: int| 0 <= t < order.len() ==> 0 <= #[trigger] order[t] < spec_chunk_count(
            payload.len(),
        ),
        forall|j: int| 0 <= j < spec_chunk_count(payload.len()) ==> order.contains(j),
    ensures
        run_deliveries(s0, payload, id, ts, order).0.buffer == payload,
        all_received(run_deliveries(s0, payload, id, ts, order).0.received),
        run_deliveries(s0, payload, id, ts, order).1 == 1,
{
    let cs = CHUNK_SIZE as int;
    let n = spec_chunk_count(payload.len()) as int;
    let c0 = spec_payload_chunk(payload, id, ts, order[0]);
    let fresh = reset_state(c0);
    lemma_chunk_count_bounds(payload.len());
    assert(fresh.buffer.len() == payload.len());
    assert(fresh.received.len() == n);
    assert(partial_for(fresh, payload, id));
    assert(!all_received(fresh.received)) by {
        assert(!fresh.received[0]);
    }
    let run = run_deliveries(s0, payload, id, ts, order);
    let stepped = spec_deliver(s0, c0);
    assert(stepped == spec_deliver(fresh, c0)) by {
        assert(c0.id == fresh.id);
        assert(c0.id != s0.id);
    }
    lemma_deliver_step(fresh, payload, id, ts, order[0]);
    lemma_run_deliveries(stepped.0, payload, id, ts, order.drop_first());
    let rest = run_deliveries(stepped.0, payload, id, ts, order.drop_first());
    assert(all_received(run.0.received)) by {
        assert forall|k: int| 0 <= k < run.0.received.len() implies run.0.received[k] by {
            assert(order.contains(k));
            let t = choose|t: int| 0 <= t < order.len() && order[t] == k;
            if t == 0 {
                assert(stepped.0.received[k]);
            } else {
                assert(order.drop_first()[t - 1] == k);
            }
        }
    }
    assert forall|b: int| 0 <= b < payload.len() implies run.0.buffer[b] == payload[b] by {
        let q = b / cs;
        vstd::arithmetic::div_mod::lemma_fundamental_div_mod(b, cs);
        vstd::arithmetic::div_mod::lemma_mod_bound(b, cs);
        assert(0 <= q) by (nonlinear_arith)
            requires
                b == q * cs + b % cs,
                0 <= b % cs < cs,
                0 <= b,
        ;
        assert(q < n) by (nonlinear_arith)
            requires
                b == q * cs + b % cs,
                0 <= b % cs < cs,
                b < payload.len(),
                payload.len() <= n * cs,
        ;
        assert(run.0.received[q]);
    }
    assert(run.0.buffer =~= payload);
    if stepped.1 {
        assert(rest.1 == 0);
    } else {
        assert(!all_received(stepped.0.received)) by {
            if all_received(stepped.0.received) {
                assert(!fresh.received[order[0]]);
            }
        }
        assert(rest.1 == 1);
    }
}

} // verus!
