use previz_receiver::artnet::{parse, Packet, ARTDMX_HEADER_LEN, ARTNET_ID, OP_DMX, OP_SYNC};

/// Build an ArtDmx packet exactly like the companion sender.
fn dmx_packet(universe: u16, data: &[u8]) -> Vec<u8> {
    let mut p = Vec::new();
    p.extend_from_slice(&ARTNET_ID);
    p.extend_from_slice(&OP_DMX.to_le_bytes());
    p.extend_from_slice(&14u16.to_be_bytes()); // protocol version
    p.push(0); // sequence
    p.push(0); // physical
    p.extend_from_slice(&universe.to_le_bytes());
    p.extend_from_slice(&(data.len() as u16).to_be_bytes());
    p.extend_from_slice(data);
    p
}

fn sync_packet() -> Vec<u8> {
    let mut p = Vec::new();
    p.extend_from_slice(&ARTNET_ID);
    p.extend_from_slice(&OP_SYNC.to_le_bytes());
    p.extend_from_slice(&14u16.to_be_bytes());
    p.push(0);
    p.push(0);
    p
}

#[test]
fn decodes_dmx() {
    let body = [1u8, 2, 3, 4, 5, 6];
    let pkt = dmx_packet(7, &body);
    match parse(&pkt).unwrap() {
        Packet::Dmx { universe, data } => {
            assert_eq!(universe, 7);
            assert_eq!(data, &body);
        }
        _ => panic!("expected Dmx"),
    }
}

#[test]
fn decodes_sync() {
    assert_eq!(parse(&sync_packet()).unwrap(), Packet::Sync);
}

#[test]
fn rejects_non_artnet() {
    assert!(parse(b"NOPE\0\0\0\0\x00\x50").is_none());
    assert!(parse(b"short").is_none());
}

#[test]
fn truncated_dmx_clamps_to_available_bytes() {
    // Claim 510 bytes of data but only provide 6.
    let mut pkt = dmx_packet(0, &[9, 8, 7, 6, 5, 4]);
    pkt[16] = 0x01; // length high byte -> 0x01FE = 510
    pkt[17] = 0xFE;
    match parse(&pkt).unwrap() {
        Packet::Dmx { data, .. } => assert_eq!(data.len(), 6),
        _ => panic!("expected Dmx"),
    }
}

#[test]
fn id_constant_is_artnet() {
    assert_eq!(&ARTNET_ID, b"Art-Net\0");
}

#[test]
fn dmx_length_is_clamped_to_512() {
    let body = vec![0xAAu8; 600];
    let mut pkt = dmx_packet(3, &body);
    // Declared length 600 (0x0258) with 600 bytes present.
    pkt[16] = 0x02;
    pkt[17] = 0x58;
    match parse(&pkt).unwrap() {
        Packet::Dmx { universe, data } => {
            assert_eq!(universe, 3);
            assert_eq!(data.len(), 512);
        }
        _ => panic!("expected Dmx"),
    }
}

#[test]
fn declared_length_shorter_than_datagram_wins() {
    let mut pkt = dmx_packet(1, &[1, 2, 3, 4, 5, 6]);
    pkt[17] = 3;
    match parse(&pkt).unwrap() {
        Packet::Dmx { data, .. } => assert_eq!(data, &[1, 2, 3]),
        _ => panic!("expected Dmx"),
    }
}

#[test]
fn universe_is_little_endian() {
    let pkt = dmx_packet(0x0102, &[]);
    assert_eq!(pkt[14], 0x02);
    match parse(&pkt).unwrap() {
        Packet::Dmx { universe, data } => {
            assert_eq!(universe, 0x0102);
            assert!(data.is_empty());
        }
        _ => panic!("expected Dmx"),
    }
}

#[test]
fn dmx_header_shorter_than_18_bytes_is_refused() {
    let pkt = dmx_packet(0, &[]);
    assert_eq!(pkt.len(), ARTDMX_HEADER_LEN);
    assert!(parse(&pkt[..ARTDMX_HEADER_LEN - 1]).is_none());
    // A sync needs only the id and the opcode.
    assert_eq!(parse(&sync_packet()[..10]).unwrap(), Packet::Sync);
}

#[test]
fn unknown_opcode_is_refused() {
    let mut pkt = sync_packet();
    pkt[9] = 0x20; // OpPoll
    assert!(parse(&pkt).is_none());
}

#[test]
fn id_mismatch_in_last_byte_is_refused() {
    let mut pkt = sync_packet();
    pkt[7] = b'!';
    assert!(parse(&pkt).is_none());
}
