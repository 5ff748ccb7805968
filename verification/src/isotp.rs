//! Minimal ISO-TP (ISO 15765-2), 11-bit normal addressing.
//!
//! Covers what OBD-II diagnostics need: single frames, first/consecutive
//! frame reassembly, and flow-control frames for the live side. Offline
//! reassembly from a recorded log needs no flow control at all.
use vstd::prelude::*;

verus! {

/// OBD-II functional request ID (all ECUs).
pub const OBD_FUNCTIONAL_ID: u32 = 0x7DF;

/// Physical request ID of the primary ECU.
pub const OBD_ECU_REQUEST_ID: u32 = 0x7E0;

/// Response ID of the primary ECU.
pub const OBD_ECU_RESPONSE_ID: u32 = 0x7E8;

/// A fully reassembled ISO-TP message.
#[derive(Debug)]
pub struct IsotpMessage {
    /// Timestamp (µs) of the frame that completed the message.
    pub timestamp_us: i64,
    pub data: Vec<u8>,
}

#[derive(Debug)]
struct Pending {
    total_len: usize,
    data: Vec<u8>,
    next_sequence: u8,
}

/// Streaming reassembler for one ID's frames, fed in capture order.
#[derive(Debug)]
pub struct IsotpReassembler {
    pending: Option<Pending>,
}

/// A transfer in progress: announced length, bytes so far, expected
/// sequence number of the next consecutive frame.
pub struct PendingView {
    pub total_len: nat,
    pub data: Seq<u8>,
    pub next_sequence: u8,
}

/// A transfer in progress is incomplete, announced in 12 bits, and expects
/// a 4-bit sequence number.
pub open spec fn pending_ok(p: Option<PendingView>) -> bool {
    match p {
        None => true,
        Some(q) => q.data.len() < q.total_len <= 4095 && q.next_sequence < 16,
    }
}

spec fn pending_view(p: Option<Pending>) -> Option<PendingView> {
    match p {
        None => None,
        Some(q) => Some(
            PendingView { total_len: q.total_len as nat, data: q.data@, next_sequence: q.next_sequence },
        ),
    }
}

impl View for IsotpReassembler {
    type V = Option<PendingView>;

    closed spec fn view(&self) -> Option<PendingView> {
        pending_view(self.pending)
    }
}

impl IsotpReassembler {
    #[verifier::type_invariant]
    spec fn inv(self) -> bool {
        pending_ok(pending_view(self.pending))
    }
}

/// What a frame does to the transfer in progress, and the message it
/// completes, if any.
///
/// A single frame (PCI high nibble 0) carries 1..=7 bytes and cancels any
/// transfer. A first frame (1) announces a 12-bit length above 7 and carries
/// six bytes. A consecutive frame (2) must carry the expected sequence
/// number, else the transfer is dropped; it adds up to the missing number of
/// bytes (padding is ignored). Malformed frames reset or are ignored; flow
/// control and other frames change nothing.
pub open spec fn isotp_step(p: Option<PendingView>, f: Seq<u8>) -> (Option<PendingView>, Option<Seq<u8>>) {
    if f.len() == 0 {
        (p, None)
    } else {
        let pci = f[0];
        let kind = pci / 16;
        let low = pci % 16;
        if kind == 0 {
            if low == 0 || f.len() < low + 1 {
                (None, None)
            } else {
                (None, Some(f.subrange(1, 1 + low)))
            }
        } else if kind == 1 {
            if f.len() < 2 {
                (p, None)
            } else {
                let len = low * 256 + f[1];
                if len <= 7 || f.len() < 8 {
                    (None, None)
                } else {
                    (Some(PendingView { total_len: len as nat, data: f.subrange(2, 8), next_sequence: 1 }), None)
                }
            }
        } else if kind == 2 {
            match p {
                None => (None, None),
                Some(q) => if low != q.next_sequence {
                    (None, None)
                } else {
                    let remaining = q.total_len - q.data.len();
                    let take = if remaining < f.len() - 1 {
                        remaining
                    } else {
                        f.len() - 1
                    };
                    let data = q.data + f.subrange(1, 1 + take);
                    if data.len() >= q.total_len {
                        (None, Some(data))
                    } else {
                        (
                            Some(
                                PendingView {
                                    total_len: q.total_len,
                                    data,
                                    next_sequence: ((q.next_sequence + 1) % 16) as u8,
                                },
                            ),
                            None,
                        )
                    }
                },
            }
        } else {
            (p, None)
        }
    }
}

pub open spec fn message_data(m: Option<IsotpMessage>) -> Option<Seq<u8>> {
    match m {
        Some(x) => Some(x.data@),
        None => None,
    }
}

/// The bytes `src[from .. to]`.
fn copy_range(src: &[u8], from: usize, to: usize) -> (v: Vec<u8>)
    requires
        from <= to <= src@.len(),
    ensures
        v@ == src@.subrange(from as int, to as int),
{
    let mut v: Vec<u8> = Vec::new();
    append_range(&mut v, src, from, to);
    assert(v@ =~= src@.subrange(from as int, to as int));
    v
}

/// Append the bytes `src[from .. to]`.
fn append_range(v: &mut Vec<u8>, src: &[u8], from: usize, to: usize)
    requires
        from <= to <= src@.len(),
    ensures
        final(v)@ == old(v)@ + src@.subrange(from as int, to as int),
{
    let mut i: usize = from;
    while i < to
        invariant
            from <= i <= to,
            to <= src@.len(),
            v@ =~= old(v)@ + src@.subrange(from as int, i as int),
        decreases to - i,
    {
        v.push(src[i]);
        i = i + 1;
    }
}

impl Default for IsotpReassembler {
    fn default() -> (r: Self)
        ensures
            r@ is None,
    {
        IsotpReassembler { pending: None }
    }
}

impl IsotpReassembler {
    /// A reassembler with no transfer in progress.
    pub fn new() -> (r: Self)
        ensures
            r@ is None,
    {
        IsotpReassembler { pending: None }
    }

    /// Feed one CAN frame payload; returns a message when one completes.
    ///
    /// Malformed or out-of-sequence frames reset the pending transfer and are
    /// otherwise ignored — a reverse-engineering tool must not invent data.
    pub fn push(&mut self, timestamp_us: i64, frame_data: &[u8]) -> (r: Option<IsotpMessage>)
        ensures
            (final(self)@, message_data(r)) == isotp_step(old(self)@, frame_data@),
            r matches Some(m) ==> m.timestamp_us == timestamp_us,
            pending_ok(final(self)@),
    {
        proof {
            use_type_invariant(&*self);
        }
        if frame_data.len() == 0 {
            return None;
        }
        let pci = frame_data[0];
        let kind = pci >> 4;
        let low = pci & 0x0F;
        assert(kind == pci / 16 && low == pci % 16) by (bit_vector)
            requires
                kind == pci >> 4,
                low == pci & 0x0F,
        ;
        if kind == 0 {
            self.pending = None;
            let len = low as usize;
            if len == 0 || frame_data.len() < len + 1 {
                return None;
            }
            let data = copy_range(frame_data, 1, 1 + len);
            Some(IsotpMessage { timestamp_us, data })
        } else if kind == 1 {
            if frame_data.len() < 2 {
                return None;
            }
            let len = (low as usize) * 256 + frame_data[1] as usize;
            if len <= 7 || frame_data.len() < 8 {
                self.pending = None;
                return None;
            }
            let data = copy_range(frame_data, 2, 8);
            self.pending = Some(Pending { total_len: len, data, next_sequence: 1 });
            None
        } else if kind == 2 {
            let mut cur: Option<Pending> = None;
            std::mem::swap(&mut cur, &mut self.pending);
            match cur {
                None => None,
                Some(mut q) => {
                    if low != q.next_sequence {
                        return None;
                    }
                    let remaining = q.total_len - q.data.len();
                    let avail = frame_data.len() - 1;
                    let take = if remaining < avail {
                        remaining
                    } else {
                        avail
                    };
                    append_range(&mut q.data, frame_data, 1, 1 + take);
                    if q.data.len() >= q.total_len {
                        return Some(IsotpMessage { timestamp_us, data: q.data });
                    }
                    q.next_sequence = (q.next_sequence + 1) % 16;
                    self.pending = Some(q);
                    None
                },
            }
        } else {
            None
        }
    }
}

/// The frame bytes of a single frame: PCI length byte, payload, zero padding.
pub open spec fn single_frame_bytes(payload: Seq<u8>) -> Seq<u8> {
    seq![payload.len() as u8] + payload + Seq::new((7 - payload.len()) as nat, |i: int| 0u8)
}

/// Encode a payload as a padded single frame (fits 7 bytes or fewer).
pub fn encode_single_frame(payload: &[u8]) -> (r: Option<[u8; 8]>)
    ensures
        r is Some <==> 1 <= payload@.len() <= 7,
        r matches Some(f) ==> f@ == single_frame_bytes(payload@),
{
    if payload.len() == 0 || payload.len() > 7 {
        return None;
    }
    let mut frame = [0x00u8; 8];
    frame[0] = payload.len() as u8;
    let mut i: usize = 0;
    while i < payload.len()
        invariant
            1 <= payload@.len() <= 7,
            i <= payload@.len(),
            frame@.len() == 8,
            frame@[0] == payload@.len() as u8,
            forall|k: int| 0 <= k < i ==> frame@[k + 1] == payload@[k],
            forall|k: int| i + 1 <= k < 8 ==> frame@[k] == 0u8,
        decreases payload.len() - i,
    {
        frame[i + 1] = payload[i];
        i = i + 1;
    }
    assert(frame@ =~= single_frame_bytes(payload@));
    Some(frame)
}

/// Flow control "continue to send", block size 0, no separation time.
pub fn flow_control_cts() -> (f: [u8; 8])
    ensures
        f@ == seq![0x30u8, 0u8, 0u8, 0u8, 0u8, 0u8, 0u8, 0u8],
{
    let f = [0x30u8, 0x00, 0x00, 0x00, 0x00, 0x00, 0x00, 0x00];
    assert(f@ =~= seq![0x30u8, 0u8, 0u8, 0u8, 0u8, 0u8, 0u8, 0u8]);
    f
}

/// A payload of 1 to 7 bytes sent as a single frame is received unchanged,
/// whatever transfer was in progress, and cancels that transfer.
pub proof fn lemma_single_frame_roundtrip(p: Option<PendingView>, payload: Seq<u8>)
    requires
        1 <= payload.len() <= 7,
    ensures
        isotp_step(p, single_frame_bytes(payload)) == (None::<PendingView>, Some(payload)),
{
    let f = single_frame_bytes(payload);
    assert(f[0] == payload.len() as u8);
    assert(f[0] / 16 == 0 && f[0] % 16 == payload.len());
    assert(f.subrange(1, 1 + payload.len() as int) =~= payload);
}

/// A flow-control frame carries no message data and leaves the transfer in
/// progress untouched.
pub proof fn lemma_flow_control_ignored(p: Option<PendingView>)
    ensures
        isotp_step(p, seq![0x30u8, 0u8, 0u8, 0u8, 0u8, 0u8, 0u8, 0u8]) == (p, None::<Seq<u8>>),
{
    let f = seq![0x30u8, 0u8, 0u8, 0u8, 0u8, 0u8, 0u8, 0u8];
    assert(f[0] / 16 == 3);
}

} // verus!
