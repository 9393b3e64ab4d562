//! The fixed 40-byte packet header.
use crate::bytes::le_u32;
use crate::bytes::le_u32_at;
use vstd::prelude::*;
use vstd::slice::slice_subrange;

verus! {

/// Bytes in a packet header, sync pattern included.
pub const HEADER_LEN: usize = 40;

/// Bytes in the sync pattern that opens every header.
pub const SYNC_LEN: usize = 8;

/// The sync pattern as it appears on the wire: the little-endian bytes of
/// `0x0708050603040102`.
pub open spec fn sync_pattern() -> Seq<u8> {
    seq![0x02u8, 0x01u8, 0x04u8, 0x03u8, 0x06u8, 0x05u8, 0x08u8, 0x07u8]
}

/// Whether the eight bytes of `s` that start at `p` are the sync pattern.
pub open spec fn is_sync_at(s: Seq<u8>, p: int) -> bool {
    &&& 0 <= p
    &&& p + 8 <= s.len()
    &&& forall|j: int| 0 <= j < 8 ==> s[p + j] == #[trigger] sync_pattern()[j]
}

/// Byte `i` of the sync pattern.
pub fn sync_byte(i: usize) -> (b: u8)
    requires
        i < 8,
    ensures
        b == sync_pattern()[i as int],
{
    if i == 0 {
        0x02
    } else if i == 1 {
        0x01
    } else if i == 2 {
        0x04
    } else if i == 3 {
        0x03
    } else if i == 4 {
        0x06
    } else if i == 5 {
        0x05
    } else if i == 6 {
        0x08
    } else {
        0x07
    }
}

/// The header fields that follow the sync pattern, decoded from little-endian.
///
/// The sync bytes themselves are not kept: a header only exists once they have
/// matched, so they are always the same.
#[derive(Clone, Copy, Debug, PartialEq, Eq, Structural)]
pub struct Data {
    /// Firmware and format version, passed through.
    pub version: u32,
    /// Bytes in the whole packet, header included.
    pub total_packet_len: u32,
    /// Platform identifier, passed through.
    pub platform: u32,
    /// Number of the frame this packet carries.
    pub frame_number: u32,
    /// Sensor CPU cycle count, passed through.
    pub time_cpu_cycles: u32,
    /// Detected objects described by this packet.
    pub num_detected_obj: u32,
    /// TLV records in the payload.
    pub num_tlvs: u32,
    /// Sub-frame number, passed through.
    pub sub_frame_number: u32,
}

/// The header fields that the 32 bytes at the front of `s` encode: the part
/// of a header that follows its sync pattern.
pub open spec fn fields_of(s: Seq<u8>) -> Data
    recommends
        s.len() >= 32,
{
    Data {
        version: le_u32(s.subrange(0, 4)),
        total_packet_len: le_u32(s.subrange(4, 8)),
        platform: le_u32(s.subrange(8, 12)),
        frame_number: le_u32(s.subrange(12, 16)),
        time_cpu_cycles: le_u32(s.subrange(16, 20)),
        num_detected_obj: le_u32(s.subrange(20, 24)),
        num_tlvs: le_u32(s.subrange(24, 28)),
        sub_frame_number: le_u32(s.subrange(28, 32)),
    }
}

/// The header that the 40 bytes at the front of `s` encode, sync pattern
/// first.
pub open spec fn header_of(s: Seq<u8>) -> Data
    recommends
        s.len() >= 40,
{
    fields_of(s.skip(8))
}

impl Data {
    /// Whether the declared packet length covers at least the header itself.
    pub open spec fn well_formed(self) -> bool {
        self.total_packet_len >= 40
    }

    /// Payload bytes that follow a well-formed header.
    pub open spec fn spec_payload_len(self) -> nat
        recommends
            self.well_formed(),
    {
        (self.total_packet_len - 40) as nat
    }

    /// The number of payload bytes to read after this header, or `None` when
    /// the declared packet length is shorter than the header and the header is
    /// therefore corrupt.
    pub fn payload_len(&self) -> (len: Option<usize>)
        ensures
            self.well_formed() ==> len == Some(self.spec_payload_len() as usize),
            !self.well_formed() ==> len.is_none(),
    {
        if self.total_packet_len < 40 {
            None
        } else {
            Some((self.total_packet_len - 40) as usize)
        }
    }
}

impl Default for Data {
    fn default() -> (d: Data)
        ensures
            d == (Data {
                version: 0,
                total_packet_len: 0,
                platform: 0,
                frame_number: 0,
                time_cpu_cycles: 0,
                num_detected_obj: 0,
                num_tlvs: 0,
                sub_frame_number: 0,
            }),
    {
        Data {
            version: 0,
            total_packet_len: 0,
            platform: 0,
            frame_number: 0,
            time_cpu_cycles: 0,
            num_detected_obj: 0,
            num_tlvs: 0,
            sub_frame_number: 0,
        }
    }
}

/// Whether `bytes` starts with the sync pattern.
pub fn starts_with_sync(bytes: &[u8]) -> (found: bool)
    ensures
        found == is_sync_at(bytes@, 0),
{
    if bytes.len() < 8 {
        return false;
    }
    let mut i: usize = 0;
    while i < 8
        invariant
            i <= 8,
            bytes.len() >= 8,
            forall|j: int| 0 <= j < i ==> bytes@[j] == #[trigger] sync_pattern()[j],
        decreases 8 - i,
    {
        if bytes[i] != sync_byte(i) {
            return false;
        }
        i += 1;
    }
    true
}

/// Decodes the 32 bytes of header fields at the front of `bytes`.
pub fn parse_fields(bytes: &[u8]) -> (header: Data)
    requires
        bytes.len() >= 32,
    ensures
        header == fields_of(bytes@),
{
    Data {
        version: le_u32_at(bytes, 0),
        total_packet_len: le_u32_at(bytes, 4),
        platform: le_u32_at(bytes, 8),
        frame_number: le_u32_at(bytes, 12),
        time_cpu_cycles: le_u32_at(bytes, 16),
        num_detected_obj: le_u32_at(bytes, 20),
        num_tlvs: le_u32_at(bytes, 24),
        sub_frame_number: le_u32_at(bytes, 28),
    }
}

/// Turns the bytes of one header read into a header.
///
/// Gives a header exactly when `bytes` holds at least 40 bytes and opens with
/// the sync pattern; anything else is scan noise.
pub fn read_deserialize_data(bytes: &[u8]) -> (header: Option<Data>)
    ensures
        header == if bytes@.len() >= 40 && is_sync_at(bytes@, 0) {
            Some(header_of(bytes@))
        } else {
            None
        },
{
    if bytes.len() >= 40 && starts_with_sync(bytes) {
        let fields = slice_subrange(bytes, SYNC_LEN, bytes.len());
        assert(fields@ =~= bytes@.skip(8));
        Some(parse_fields(fields))
    } else {
        None
    }
}

} // verus!
