//! Minimal Art-Net datagram decoding.
//!
//! Only the two opcodes the install uses are understood: ArtDmx (0x5000),
//! which carries one universe of channel data, and ArtSync (0x5200), which
//! latches the frame accumulated so far. The opcode and the universe are
//! little-endian on the wire; the ArtDmx data length is big-endian.

use vstd::prelude::*;

verus! {

/// The 8-byte ID that prefixes every packet: `"Art-Net\0"`.
pub const ARTNET_ID: [u8; 8] = [0x41u8, 0x72u8, 0x74u8, 0x2du8, 0x4eu8, 0x65u8, 0x74u8, 0x00u8];

pub const OP_DMX: u16 = 0x5000;

pub const OP_SYNC: u16 = 0x5200;

/// Smallest valid ArtDmx packet: 8 (id) + 2 (opcode) + 2 (protocol version)
/// + 1 (sequence) + 1 (physical) + 2 (universe) + 2 (length) header bytes.
pub const ARTDMX_HEADER_LEN: usize = 18;

/// Largest channel count an ArtDmx packet may carry.
pub const MAX_DMX_CHANNELS: usize = 512;

/// One decoded datagram.
#[derive(Debug, Clone, PartialEq, Eq)]
pub enum Packet<'a> {
    /// ArtDmx: one universe of channel data.
    Dmx { universe: u16, data: &'a [u8] },
    /// ArtSync: latch/present the frame accumulated so far.
    Sync,
}

/// Mathematical model of a decoded datagram.
pub enum PacketModel {
    Dmx { universe: u16, data: Seq<u8> },
    Sync,
}

impl<'a> View for Packet<'a> {
    type V = PacketModel;

    open spec fn view(&self) -> PacketModel {
        match self {
            Packet::Dmx { universe, data } => PacketModel::Dmx { universe: *universe, data: data@ },
            Packet::Sync => PacketModel::Sync,
        }
    }
}

/// The Art-Net ID as a sequence of bytes.
pub open spec fn artnet_id() -> Seq<u8> {
    seq![0x41u8, 0x72u8, 0x74u8, 0x2du8, 0x4eu8, 0x65u8, 0x74u8, 0x00u8]
}

/// A 16-bit value from its low and high byte.
pub open spec fn u16_from_bytes(lo: u8, hi: u8) -> u16 {
    (lo as int + 256 * (hi as int)) as u16
}

pub open spec fn min_int(a: int, b: int) -> int {
    if a <= b { a } else { b }
}

/// Whether `buf` starts with the Art-Net ID and has room for an opcode.
pub open spec fn has_artnet_header(buf: Seq<u8>) -> bool {
    buf.len() >= 10 && buf.subrange(0, 8) == artnet_id()
}

/// The little-endian opcode at bytes 8..10.
pub open spec fn opcode_of(buf: Seq<u8>) -> u16 {
    u16_from_bytes(buf[8], buf[9])
}

/// How many data bytes an ArtDmx datagram yields: the big-endian length field,
/// clamped to 512 and to the bytes actually present after the header.
pub open spec fn dmx_data_len(buf: Seq<u8>) -> int {
    min_int(
        min_int(u16_from_bytes(buf[17], buf[16]) as int, MAX_DMX_CHANNELS as int),
        buf.len() - ARTDMX_HEADER_LEN,
    )
}

/// What a datagram decodes to; `None` for anything that is not a well-formed
/// ArtDmx or ArtSync packet.
pub open spec fn decode(buf: Seq<u8>) -> Option<PacketModel> {
    if !has_artnet_header(buf) {
        None
    } else if opcode_of(buf) == OP_SYNC {
        Some(PacketModel::Sync)
    } else if opcode_of(buf) == OP_DMX {
        if buf.len() < ARTDMX_HEADER_LEN {
            None
        } else {
            Some(
                PacketModel::Dmx {
                    universe: u16_from_bytes(buf[14], buf[15]),
                    data: buf.subrange(
                        ARTDMX_HEADER_LEN as int,
                        ARTDMX_HEADER_LEN + dmx_data_len(buf),
                    ),
                },
            )
        }
    } else {
        None
    }
}

pub open spec fn option_packet_view(p: Option<Packet>) -> Option<PacketModel> {
    match p {
        Some(p) => Some(p@),
        None => None,
    }
}

/// The bytes of an ArtDmx datagram as a sender lays them out: ID, opcode
/// (little-endian), protocol version 14 (big-endian), sequence, physical port,
/// universe (little-endian), data length (big-endian), data.
pub open spec fn dmx_datagram(universe: u16, sequence: u8, physical: u8, data: Seq<u8>) -> Seq<u8> {
    artnet_id() + seq![0x00u8, 0x50u8, 0u8, 14u8, sequence, physical]
        + seq![(universe % 256) as u8, (universe / 256) as u8]
        + seq![(data.len() / 256) as u8, (data.len() % 256) as u8] + data
}

/// The bytes of an ArtSync datagram as a sender lays them out.
pub open spec fn sync_datagram(aux1: u8, aux2: u8) -> Seq<u8> {
    artnet_id() + seq![0x00u8, 0x52u8, 0u8, 14u8, aux1, aux2]
}

fn u16_le(lo: u8, hi: u8) -> (r: u16)
    ensures
        r == u16_from_bytes(lo, hi),
{
    lo as u16 + 256 * (hi as u16)
}

/// Parse one received datagram. Returns `None` for anything that isn't a
/// well-formed ArtDmx/ArtSync packet; an ArtDmx packet's data is clamped to
/// 512 bytes and never reaches past the datagram.
pub fn parse(buf: &[u8]) -> (res: Option<Packet<'_>>)
    ensures
        option_packet_view(res) == decode(buf@),
        res matches Some(Packet::Dmx { data, .. }) ==> data@.len() <= MAX_DMX_CHANNELS,
{
    if buf.len() < 10 {
        return None;
    }
    let mut i: usize = 0;
    while i < 8
        invariant
            10 <= buf@.len(),
            0 <= i <= 8,
            forall|k: int| 0 <= k < i ==> buf@[k] == artnet_id()[k],
        decreases 8 - i,
    {
        if buf[i] != ARTNET_ID[i] {
            assert(buf@.subrange(0, 8)[i as int] != artnet_id()[i as int]);
            return None;
        }
        i = i + 1;
    }
    assert(buf@.subrange(0, 8) =~= artnet_id());
    let opcode = u16_le(buf[8], buf[9]);
    if opcode == OP_SYNC {
        Some(Packet::Sync)
    } else if opcode == OP_DMX {
        if buf.len() < ARTDMX_HEADER_LEN {
            return None;
        }
        let universe = u16_le(buf[14], buf[15]);
        let declared = u16_le(buf[17], buf[16]) as usize;
        let clamped = if declared < MAX_DMX_CHANNELS { declared } else { MAX_DMX_CHANNELS };
        let avail = buf.len() - ARTDMX_HEADER_LEN;
        let n = if clamped < avail { clamped } else { avail };
        let data = &buf[ARTDMX_HEADER_LEN..ARTDMX_HEADER_LEN + n];
        Some(Packet::Dmx { universe, data })
    } else {
        None
    }
}

/// A datagram laid out as a sender lays out an ArtDmx packet decodes to that
/// universe and exactly that data, provided the data fits in one packet.
pub proof fn lemma_dmx_datagram_decodes(universe: u16, sequence: u8, physical: u8, data: Seq<u8>)
    requires
        data.len() <= MAX_DMX_CHANNELS,
    ensures
        decode(dmx_datagram(universe, sequence, physical, data)) == Some(
            PacketModel::Dmx { universe, data },
        ),
{
    let buf = dmx_datagram(universe, sequence, physical, data);
    assert(buf.subrange(0, 8) =~= artnet_id());
    assert(opcode_of(buf) == OP_DMX);
    assert(u16_from_bytes(buf[14], buf[15]) == universe);
    assert(u16_from_bytes(buf[17], buf[16]) == data.len());
    assert(buf.subrange(18, 18 + data.len() as int) =~= data);
}

/// A datagram laid out as a sender lays out an ArtSync packet decodes to
/// `Sync`.
pub proof fn lemma_sync_datagram_decodes(aux1: u8, aux2: u8)
    ensures
        decode(sync_datagram(aux1, aux2)) == Some(PacketModel::Sync),
{
    let buf = sync_datagram(aux1, aux2);
    assert(buf.subrange(0, 8) =~= artnet_id());
    assert(opcode_of(buf) == OP_SYNC);
}

/// Only Art-Net packets decode: a decoded datagram starts with the bytes of
/// `"Art-Net\0"` followed by opcode 0x5000 (ArtDmx, with its full 18-byte
/// header) or 0x5200 (ArtSync), little-endian; an ArtDmx packet yields the
/// universe in bytes 14..16, little-endian, and at most 512 data bytes taken
/// from byte 18 on, as many as the big-endian length in bytes 16..18 says
/// when the datagram holds them.
pub proof fn lemma_decoded_is_artnet(buf: Seq<u8>)
    ensures
        decode(buf) is Some ==> {
            &&& buf.len() >= 10
            &&& buf[0] == 0x41 && buf[1] == 0x72 && buf[2] == 0x74 && buf[3] == 0x2d
            &&& buf[4] == 0x4e && buf[5] == 0x65 && buf[6] == 0x74 && buf[7] == 0x00
            &&& buf[8] == 0x00
            &&& (buf[9] == 0x50 || buf[9] == 0x52)
        },
        decode(buf) matches Some(PacketModel::Sync) ==> buf[9] == 0x52,
        decode(buf) matches Some(PacketModel::Dmx { universe, data }) ==> {
            let declared = buf[16] as int * 256 + buf[17] as int;
            &&& buf[9] == 0x50
            &&& buf.len() >= 18
            &&& universe == buf[14] as int + buf[15] as int * 256
            &&& data.len() <= 512
            &&& data.len() <= declared
            &&& (data.len() == declared || data.len() == 512 || data.len() == buf.len() - 18)
            &&& forall|j: int| 0 <= j < data.len() ==> #[trigger] data[j] == buf[18 + j]
        },
{
    if decode(buf) is Some {
        assert(buf.subrange(0, 8) == artnet_id());
        assert(buf[0] == buf.subrange(0, 8)[0]);
        assert(buf[1] == buf.subrange(0, 8)[1]);
        assert(buf[2] == buf.subrange(0, 8)[2]);
        assert(buf[3] == buf.subrange(0, 8)[3]);
        assert(buf[4] == buf.subrange(0, 8)[4]);
        assert(buf[5] == buf.subrange(0, 8)[5]);
        assert(buf[6] == buf.subrange(0, 8)[6]);
        assert(buf[7] == buf.subrange(0, 8)[7]);
    }
}

} // verus!
