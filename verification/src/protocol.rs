//! The wire schema: every message the protocol sends, and the tunable
//! constants of the data plane.
use vstd::prelude::*;

verus! {

/// Largest payload one chunk may carry, in bytes.
pub const CHUNK_SIZE: usize = 16384;

/// A heartbeat is interleaved after this many chunk transmissions.
pub const CHUNKS_PER_HEARTBEAT: usize = 16;

/// Upper bound on chunk indices in one acknowledgement batch.
pub const CHUNKS_PER_ACK: usize = 8;

/// Upper bound on chunk indices in one negative-acknowledgement batch.
pub const CHUNKS_PER_NACK: usize = 8;

/// Age, in microseconds, past which an unacknowledged chunk is retransmitted.
pub const RETRANSMIT_DELAY_USEC: usize = 100;

/// Chunks sent to each subscriber up front, before any feedback.
pub const CHUNKS_PER_INITIAL_BURST: usize = 8;

pub type MessageId = u64;

pub type ParticipantId = u64;

pub type PublisherId = u64;

pub type SubscriberId = u64;

/// A datagram endpoint: an IPv4 address, one octet per field, and a port.
#[derive(Clone, Copy, PartialEq, Eq, Structural, Debug)]
pub struct Endpoint {
    pub ip0: u8,
    pub ip1: u8,
    pub ip2: u8,
    pub ip3: u8,
    pub port: u16,
}

/// One fragment of a message, individually addressed by `index`.
pub struct Chunk {
    pub ts: u64,
    pub id: MessageId,
    pub total_bytes: u64,
    pub total: u32,
    pub index: u32,
    pub data: Vec<u8>,
}

/// Ghost image of a `Chunk`, with the payload as a byte sequence.
pub ghost struct ChunkV {
    pub ts: u64,
    pub id: MessageId,
    pub total_bytes: u64,
    pub total: u32,
    pub index: u32,
    pub data: Seq<u8>,
}

impl View for Chunk {
    type V = ChunkV;

    open spec fn view(&self) -> ChunkV {
        ChunkV {
            ts: self.ts,
            id: self.id,
            total_bytes: self.total_bytes,
            total: self.total,
            index: self.index,
            data: self.data@,
        }
    }
}

/// Data-plane traffic from a publisher to a subscriber.
pub enum PublisherToSubscriber {
    Heartbeat(MessageId),
    Chunk(Chunk),
}

/// Data-plane traffic from a subscriber back to a publisher.
pub enum SubscriberToPublisher {
    Ack(SubscriberId, MessageId, Vec<u32>),
    NAck(SubscriberId, MessageId, Vec<u32>),
}

/// Periodic advertisement of a participant's control port.
#[derive(Clone, Copy, PartialEq, Eq, Structural, Debug)]
pub struct Beacon {
    pub id: ParticipantId,
    pub port: u16,
}

/// Advertised publisher identity.
#[derive(Clone)]
pub struct PublisherRef {
    pub topic: String,
}

/// Advertised subscriber identity: where its datagrams go, and its topic.
#[derive(Clone)]
pub struct SubscriberRef {
    pub address: Endpoint,
    pub topic: String,
}

/// Ghost image of a `SubscriberRef`.
pub ghost struct SubscriberRefV {
    pub address: Endpoint,
    pub topic: Seq<char>,
}

impl View for SubscriberRef {
    type V = SubscriberRefV;

    open spec fn view(&self) -> SubscriberRefV {
        SubscriberRefV { address: self.address, topic: self.topic@ }
    }
}

/// First message of an entity's control stream.
pub enum ToParticipant {
    InitPub(PublisherId, PublisherRef),
    InitSub(SubscriberId, SubscriberRef),
}

/// A subscriber table as it travels on the wire: rows of id and identity.
pub type SubTable = Vec<(SubscriberId, SubscriberRef)>;

/// Control traffic from the participant to a publisher.
pub enum ParticipantToPublisher {
    Init(Vec<(SubscriberId, SubscriberRef)>),
    InitFailed,
    NewSub(SubscriberId, SubscriberRef),
    DropSub(SubscriberId),
}

/// Control traffic from the participant to a subscriber.
pub enum ParticipantToSubscriber {
    Init,
    InitFailed,
}

/// Ghost image of `PublisherToSubscriber`.
pub ghost enum PubToSubV {
    Heartbeat(MessageId),
    Chunk(ChunkV),
}

impl View for PublisherToSubscriber {
    type V = PubToSubV;

    open spec fn view(&self) -> PubToSubV {
        match self {
            PublisherToSubscriber::Heartbeat(id) => PubToSubV::Heartbeat(*id),
            PublisherToSubscriber::Chunk(c) => PubToSubV::Chunk(c@),
        }
    }
}

/// Ghost image of `SubscriberToPublisher`.
pub ghost enum SubToPubV {
    Ack(SubscriberId, MessageId, Seq<u32>),
    NAck(SubscriberId, MessageId, Seq<u32>),
}

impl View for SubscriberToPublisher {
    type V = SubToPubV;

    open spec fn view(&self) -> SubToPubV {
        match self {
            SubscriberToPublisher::Ack(s, m, v) => SubToPubV::Ack(*s, *m, v@),
            SubscriberToPublisher::NAck(s, m, v) => SubToPubV::NAck(*s, *m, v@),
        }
    }
}

/// Ghost image of `ToParticipant`.
pub ghost enum ToParticipantV {
    InitPub(PublisherId, Seq<char>),
    InitSub(SubscriberId, SubscriberRefV),
}

impl View for ToParticipant {
    type V = ToParticipantV;

    open spec fn view(&self) -> ToParticipantV {
        match self {
            ToParticipant::InitPub(id, r) => ToParticipantV::InitPub(*id, r.topic@),
            ToParticipant::InitSub(id, r) => ToParticipantV::InitSub(*id, r@),
        }
    }
}

/// Ghost image of `ParticipantToPublisher`.
pub ghost enum PartToPubV {
    Init(Seq<(SubscriberId, SubscriberRefV)>),
    InitFailed,
    NewSub(SubscriberId, SubscriberRefV),
    DropSub(SubscriberId),
}

/// The table entries as ghost pairs.
pub open spec fn table_view(s: Seq<(SubscriberId, SubscriberRef)>) -> Seq<
    (SubscriberId, SubscriberRefV),
> {
    s.map_values(|p: (SubscriberId, SubscriberRef)| (p.0, p.1@))
}

impl View for ParticipantToPublisher {
    type V = PartToPubV;

    open spec fn view(&self) -> PartToPubV {
        match self {
            ParticipantToPublisher::Init(t) => PartToPubV::Init(table_view(t@)),
            ParticipantToPublisher::InitFailed => PartToPubV::InitFailed,
            ParticipantToPublisher::NewSub(id, r) => PartToPubV::NewSub(*id, r@),
            ParticipantToPublisher::DropSub(id) => PartToPubV::DropSub(*id),
        }
    }
}

/// Number of chunks a message of `len` bytes is split into: the smallest
/// count of `CHUNK_SIZE`-byte chunks that covers `len` bytes.
pub open spec fn spec_chunk_count(len: nat) -> nat {
    (((len as int) + (CHUNK_SIZE as int) - 1) / (CHUNK_SIZE as int)) as nat
}

/// The byte range of `payload` that chunk `i` carries.
pub open spec fn spec_chunk_data(payload: Seq<u8>, i: int) -> Seq<u8> {
    let hi = if (i + 1) * (CHUNK_SIZE as int) <= payload.len() {
        (i + 1) * (CHUNK_SIZE as int)
    } else {
        payload.len() as int
    };
    payload.subrange(i * (CHUNK_SIZE as int), hi)
}

/// Chunk `i` of `payload`, as the sender builds it.
pub open spec fn spec_payload_chunk(payload: Seq<u8>, id: MessageId, ts: u64, i: int) -> ChunkV {
    ChunkV {
        ts: ts,
        id: id,
        total_bytes: payload.len() as u64,
        total: spec_chunk_count(payload.len()) as u32,
        index: i as u32,
        data: spec_chunk_data(payload, i),
    }
}

/// Split `data` into `ceil(len / CHUNK_SIZE)` chunks that share one message
/// id; each carries the total byte length, the total chunk count and its own
/// index, and the last one carries whatever remains past the full chunks.
pub fn make_chunks(ts: u64, id: MessageId, data: &Vec<u8>) -> (chunks: Vec<Chunk>)
    requires
        spec_chunk_count(data@.len()) <= u32::MAX,
    ensures
        chunks@.len() == spec_chunk_count(data@.len()),
        forall|i: int|
            0 <= i < chunks@.len() ==> chunks@[i]@ == spec_payload_chunk(data@, id, ts, i),
{
    let total_bytes = data.len();
    let n = if total_bytes == 0 {
        0
    } else {
        (total_bytes - 1) / CHUNK_SIZE + 1
    };
    proof {
        assert(n == spec_chunk_count(data@.len()));
    }
    let mut chunks: Vec<Chunk> = Vec::new();
    let mut i: usize = 0;
    while i < n
        invariant
            i <= n,
            n == spec_chunk_count(data@.len()),
            n <= u32::MAX,
            total_bytes == data@.len(),
            chunks@.len() == i,
            forall|k: int| 0 <= k < i ==> chunks@[k]@ == spec_payload_chunk(data@, id, ts, k),
        decreases n - i,
    {
        let start = i * CHUNK_SIZE;
        proof {
            assert(i * (CHUNK_SIZE as int) < i * (CHUNK_SIZE as int) + CHUNK_SIZE);
            assert(i + 1 <= n);
            assert((i + 1) * (CHUNK_SIZE as int) <= n * (CHUNK_SIZE as int)) by (nonlinear_arith)
                requires
                    i + 1 <= n,
            ;
            assert(start < n * (CHUNK_SIZE as int));
            assert(n * (CHUNK_SIZE as int) < data@.len() + CHUNK_SIZE) by (nonlinear_arith)
                requires
                    n == ((data@.len() as int) + (CHUNK_SIZE as int) - 1) / (CHUNK_SIZE as int),
                    CHUNK_SIZE as int > 0,
            ;
            assert(start < data@.len() + CHUNK_SIZE);
        }
        proof {
            assert(start <= data@.len()) by (nonlinear_arith)
                requires
                    i < n,
                    n == ((data@.len() as int) + (CHUNK_SIZE as int) - 1) / (CHUNK_SIZE as int),
                    start == i * (CHUNK_SIZE as int),
                    CHUNK_SIZE as int > 0,
            ;
        }
        let end = if total_bytes - start >= CHUNK_SIZE {
            start + CHUNK_SIZE
        } else {
            total_bytes
        };
        let mut piece: Vec<u8> = Vec::new();
        let mut j: usize = start;
        while j < end
            invariant
                start <= j <= end,
                end <= data@.len(),
                piece@ == data@.subrange(start as int, j as int),
            decreases end - j,
        {
            let b = data[j];
            piece.push(b);
            j = j + 1;
            proof {
                assert(piece@ =~= data@.subrange(start as int, j as int));
            }
        }
        let c = Chunk {
            ts: ts,
            id: id,
            total_bytes: total_bytes as u64,
            total: n as u32,
            index: i as u32,
            data: piece,
        };
        proof {
            assert(c@.data =~= spec_chunk_data(data@, i as int));
            assert(c@ == spec_payload_chunk(data@, id, ts, i as int));
        }
        chunks.push(c);
        i = i + 1;
    }
    chunks
}

} // verus!
