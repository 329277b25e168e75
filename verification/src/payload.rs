use vstd::prelude::*;
use vstd::endian::endianness;
use vstd::endian::Endian;

verus! {

/// Number of raw samples carried by one packet.
pub const N_PT_PER_FRAME: usize = 4096;

/// Size in bytes of one packet on the wire: the 8-byte counter followed by
/// the samples.
pub const PAYLOAD_BYTES: usize = 4104;

/// One packet of raw samples as the digitizer sends it: a running packet
/// counter followed by `N_PT_PER_FRAME` signed 8-bit samples.
pub struct Payload {
    pub pkt_cnt: u64,
    pub data: [i8; N_PT_PER_FRAME],
}

/// The value of eight bytes read as a little-endian unsigned integer.
pub open spec fn le_u64(b: Seq<u8>) -> int {
    b[0] + 0x100 * b[1] + 0x1_0000 * b[2] + 0x100_0000 * b[3] + 0x1_0000_0000 * b[4]
        + 0x100_0000_0000 * b[5] + 0x1_0000_0000_0000 * b[6] + 0x100_0000_0000_0000 * b[7]
}

/// The value of eight bytes read as a big-endian unsigned integer.
pub open spec fn be_u64(b: Seq<u8>) -> int {
    b[7] + 0x100 * b[6] + 0x1_0000 * b[5] + 0x100_0000 * b[4] + 0x1_0000_0000 * b[3]
        + 0x100_0000_0000 * b[2] + 0x1_0000_0000_0000 * b[1] + 0x100_0000_0000_0000 * b[0]
}

/// The value of eight bytes read in the byte order of the machine the
/// receiver runs on, as the digitizer's counter is laid out in memory.
pub open spec fn ne_u64(b: Seq<u8>) -> int {
    match endianness() {
        Endian::Little => le_u64(b),
        Endian::Big => be_u64(b),
    }
}

/// `u64::from_ne_bytes`: reads the eight bytes in the machine's byte
/// order, which `vstd::endian::endianness()` stands for. Trusted: std
/// documents it as the native-endian reading of the bytes.
#[verifier::external_body]
fn u64_from_ne_bytes(b: [u8; 8]) -> (r: u64)
    ensures
        r == ne_u64(b@),
{
    u64::from_ne_bytes(b)
}

/// Bytes read as two's-complement samples, one sample per byte.
pub open spec fn samples_from_bytes(b: Seq<u8>) -> Seq<i8> {
    Seq::new(b.len(), |i: int| b[i] as i8)
}

/// Samples written as bytes, one byte per sample in two's complement.
pub open spec fn bytes_from_samples(d: Seq<i8>) -> Seq<u8> {
    Seq::new(d.len(), |i: int| d[i] as u8)
}

/// The counter carried by the packet bytes `b`: its first eight bytes.
pub open spec fn packet_cnt(b: Seq<u8>) -> int {
    ne_u64(b.subrange(0, 8))
}

/// The samples carried by the packet bytes `b`: the bytes after the counter.
pub open spec fn packet_samples(b: Seq<u8>) -> Seq<i8> {
    samples_from_bytes(b.subrange(8, PAYLOAD_BYTES as int))
}

/// A packet with counter 0 and all samples 0.
pub open spec fn is_zeroed(p: Payload) -> bool {
    &&& p.pkt_cnt == 0
    &&& forall|i: int| 0 <= i < N_PT_PER_FRAME ==> p.data@[i] == 0
}

impl Default for Payload {
    /// A packet with counter 0 and all samples 0.
    fn default() -> (p: Payload)
        ensures
            is_zeroed(p),
    {
        Payload { pkt_cnt: 0, data: [0i8; 4096] }
    }
}

impl Payload {
    /// Takes over the header of `rhs` (its packet counter); the samples stay.
    pub fn copy_header(&mut self, rhs: &Self)
        ensures
            final(self).pkt_cnt == rhs.pkt_cnt,
            final(self).data == old(self).data,
    {
        self.pkt_cnt = rhs.pkt_cnt;
    }

    /// A stand-in for a lost packet: counter `pkt_cnt` and all samples 0.
    pub fn stand_in(pkt_cnt: u64) -> (p: Payload)
        ensures
            p.pkt_cnt == pkt_cnt,
            forall|i: int| 0 <= i < N_PT_PER_FRAME ==> p.data@[i] == 0,
    {
        Payload { pkt_cnt, data: [0i8; 4096] }
    }

    /// Resets the packet to counter 0 and all samples 0, as a packet is
    /// before it is used again.
    pub fn clear(&mut self)
        ensures
            is_zeroed(*final(self)),
    {
        self.pkt_cnt = 0;
        let mut i: usize = 0;
        while i < N_PT_PER_FRAME
            invariant
                i <= N_PT_PER_FRAME,
                self.pkt_cnt == 0,
                forall|j: int| 0 <= j < i ==> self.data@[j] == 0,
            decreases N_PT_PER_FRAME - i,
        {
            self.data[i] = 0;
            i = i + 1;
        }
    }

    /// Reads a packet from the bytes of one datagram. Only a datagram of
    /// exactly `PAYLOAD_BYTES` bytes is a packet: its first eight bytes are
    /// the counter, in the machine's byte order (the packet is the
    /// counter's and the samples' memory image), and the rest are the
    /// samples.
    pub fn from_bytes(bytes: &[u8]) -> (r: Option<Payload>)
        ensures
            r is Some <==> bytes@.len() == PAYLOAD_BYTES,
            r matches Some(p) ==> p.pkt_cnt == packet_cnt(bytes@) && p.data@ == packet_samples(
                bytes@,
            ),
    {
        if bytes.len() != PAYLOAD_BYTES {
            return None;
        }
        let head: [u8; 8] = [
            bytes[0],
            bytes[1],
            bytes[2],
            bytes[3],
            bytes[4],
            bytes[5],
            bytes[6],
            bytes[7],
        ];
        assert(head@ =~= bytes@.subrange(0, 8));
        let cnt: u64 = u64_from_ne_bytes(head);
        let mut p = Payload { pkt_cnt: cnt, data: [0i8; 4096] };
        let mut i: usize = 0;
        while i < N_PT_PER_FRAME
            invariant
                i <= N_PT_PER_FRAME,
                bytes@.len() == PAYLOAD_BYTES,
                p.pkt_cnt == cnt,
                forall|j: int| 0 <= j < i ==> p.data@[j] == bytes@[8 + j] as i8,
            decreases N_PT_PER_FRAME - i,
        {
            p.data[i] = bytes[8 + i] as i8;
            i = i + 1;
        }
        assert(p.data@ =~= packet_samples(bytes@));
        Some(p)
    }

    /// The samples as bytes, one byte per sample, as they are stored.
    pub fn data_bytes(&self) -> (b: Vec<u8>)
        ensures
            b@ == bytes_from_samples(self.data@),
    {
        let mut b: Vec<u8> = Vec::with_capacity(N_PT_PER_FRAME);
        let mut i: usize = 0;
        while i < N_PT_PER_FRAME
            invariant
                i <= N_PT_PER_FRAME,
                b@.len() == i,
                forall|j: int| 0 <= j < i ==> b@[j] == self.data@[j] as u8,
            decreases N_PT_PER_FRAME - i,
        {
            b.push(self.data[i] as u8);
            i = i + 1;
        }
        assert(b@ =~= bytes_from_samples(self.data@));
        b
    }

    /// Replaces the samples by `bytes`, one sample per byte; the counter
    /// stays.
    pub fn load_data(&mut self, bytes: &[u8])
        requires
            bytes@.len() == N_PT_PER_FRAME,
        ensures
            final(self).pkt_cnt == old(self).pkt_cnt,
            final(self).data@ == samples_from_bytes(bytes@),
    {
        let mut i: usize = 0;
        while i < N_PT_PER_FRAME
            invariant
                i <= N_PT_PER_FRAME,
                bytes@.len() == N_PT_PER_FRAME,
                self.pkt_cnt == old(self).pkt_cnt,
                forall|j: int| 0 <= j < i ==> self.data@[j] == bytes@[j] as i8,
            decreases N_PT_PER_FRAME - i,
        {
            self.data[i] = bytes[i] as i8;
            i = i + 1;
        }
        assert(self.data@ =~= samples_from_bytes(bytes@));
    }
}

/// Writing samples as bytes and reading them back gives the same samples.
pub proof fn lemma_samples_bytes_roundtrip(d: Seq<i8>)
    ensures
        samples_from_bytes(bytes_from_samples(d)) == d,
{
    assert forall|i: int| 0 <= i < d.len() implies #[trigger] samples_from_bytes(
        bytes_from_samples(d),
    )[i] == d[i] by {
        let x: i8 = d[i];
        assert((x as u8) as i8 == x) by (bit_vector);
    }
    assert(samples_from_bytes(bytes_from_samples(d)) =~= d);
}

/// Reading bytes as samples and writing them back gives the same bytes.
pub proof fn lemma_bytes_samples_roundtrip(b: Seq<u8>)
    ensures
        bytes_from_samples(samples_from_bytes(b)) == b,
{
    assert forall|i: int| 0 <= i < b.len() implies #[trigger] bytes_from_samples(
        samples_from_bytes(b),
    )[i] == b[i] by {
        let x: u8 = b[i];
        assert((x as i8) as u8 == x) by (bit_vector);
    }
    assert(bytes_from_samples(samples_from_bytes(b)) =~= b);
}

/// Reading bytes as samples works byte by byte and in place: sample `i`
/// is byte `i` read as two's complement, and there are as many samples as
/// bytes.
pub proof fn lemma_samples_in_place(b: Seq<u8>)
    ensures
        samples_from_bytes(b).len() == b.len(),
        forall|i: int| 0 <= i < b.len() ==> #[trigger] samples_from_bytes(b)[i] == b[i] as i8,
{
}

/// Writing samples as bytes works sample by sample and in place: byte `i`
/// is sample `i` in two's complement, and there are as many bytes as
/// samples.
pub proof fn lemma_bytes_in_place(d: Seq<i8>)
    ensures
        bytes_from_samples(d).len() == d.len(),
        forall|i: int| 0 <= i < d.len() ==> #[trigger] bytes_from_samples(d)[i] == d[i] as u8,
{
}

/// The samples of a packet are its bytes after the counter, in place:
/// sample `i` of a datagram `b` is byte `8 + i` read as two's complement.
pub proof fn lemma_packet_samples_in_place(b: Seq<u8>)
    requires
        b.len() == PAYLOAD_BYTES,
    ensures
        packet_samples(b).len() == N_PT_PER_FRAME,
        forall|i: int|
            0 <= i < N_PT_PER_FRAME ==> #[trigger] packet_samples(b)[i] == b[8 + i] as i8,
{
}

/// The counter of a packet is read in the machine's byte order: a datagram
/// whose first eight bytes are the bytes of `c` as the machine stores them
/// (`c.to_ne_bytes()`; least significant byte first on a little-endian
/// machine, last on a big-endian one) carries the counter `c`, whatever `c`.
pub proof fn lemma_packet_cnt_native(b: Seq<u8>, c: u64)
    requires
        b.len() == PAYLOAD_BYTES,
        endianness() == Endian::Little ==> {
            &&& b[0] == c & 0xff
            &&& b[1] == (c >> 8) & 0xff
            &&& b[2] == (c >> 16) & 0xff
            &&& b[3] == (c >> 24) & 0xff
            &&& b[4] == (c >> 32) & 0xff
            &&& b[5] == (c >> 40) & 0xff
            &&& b[6] == (c >> 48) & 0xff
            &&& b[7] == (c >> 56) & 0xff
        },
        endianness() == Endian::Big ==> {
            &&& b[7] == c & 0xff
            &&& b[6] == (c >> 8) & 0xff
            &&& b[5] == (c >> 16) & 0xff
            &&& b[4] == (c >> 24) & 0xff
            &&& b[3] == (c >> 32) & 0xff
            &&& b[2] == (c >> 40) & 0xff
            &&& b[1] == (c >> 48) & 0xff
            &&& b[0] == (c >> 56) & 0xff
        },
    ensures
        packet_cnt(b) == c,
{
    assert(c == (c & 0xff) + 0x100 * ((c >> 8) & 0xff) + 0x1_0000 * ((c >> 16) & 0xff) + 0x100_0000
        * ((c >> 24) & 0xff) + 0x1_0000_0000 * ((c >> 32) & 0xff) + 0x100_0000_0000 * ((c >> 40)
        & 0xff) + 0x1_0000_0000_0000 * ((c >> 48) & 0xff) + 0x100_0000_0000_0000 * ((c >> 56)
        & 0xff)) by (bit_vector);
    let h = b.subrange(0, 8);
    assert(forall|k: int| 0 <= k < 8 ==> h[k] == b[k]);
}

/// A cleared packet is all zero: counter 0 and every one of its
/// `N_PT_PER_FRAME` samples 0, and nothing else is.
pub proof fn lemma_zeroed_all_zero(p: Payload)
    ensures
        is_zeroed(p) <==> (p.pkt_cnt == 0 && forall|i: int|
            0 <= i < N_PT_PER_FRAME ==> #[trigger] p.data@[i] == 0i8),
{
}

} // verus!
