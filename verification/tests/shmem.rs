use previz_receiver::config::{Config, Cube, Listener};
use previz_receiver::shmem::{
    write_voxels, FrameFormat, DATA_OFFSET, MAGIC, OFF_SEQ, VERSION,
};

fn fmt(n: usize) -> FrameFormat {
    FrameFormat { num_voxels: n, width: 20, height: 20, length: (n / 400) as u32, cube_count: 1 }
}

fn seq_of(region: &[u8]) -> u64 {
    u64::from_le_bytes(region[OFF_SEQ..OFF_SEQ + 8].try_into().unwrap())
}

#[test]
fn header_then_publish_roundtrips_via_reader() {
    let f = fmt(800);
    let mut region = vec![0u8; f.total_size()];
    f.init_header(&mut region);

    // Header sanity.
    assert_eq!(u32::from_le_bytes(region[0..4].try_into().unwrap()), MAGIC);
    assert_eq!(u32::from_le_bytes(region[8..12].try_into().unwrap()), 800);

    let mut frame = vec![[0u8; 3]; 800];
    for (i, px) in frame.iter_mut().enumerate() {
        *px = [(i & 0xff) as u8, (i >> 8) as u8, 0x42];
    }
    f.publish_into(&mut region, &frame);

    // seq is even (stable) after publish.
    let seq = seq_of(&region);
    assert_eq!(seq % 2, 0);
    assert_eq!(seq, 2);

    let mut out = vec![[0u8; 3]; 800];
    assert!(f.read_into(&region, &mut out, 4));
    assert_eq!(out, frame);
}

#[test]
fn seq_advances_by_two_each_publish() {
    let f = fmt(400);
    let mut region = vec![0u8; f.total_size()];
    f.init_header(&mut region);
    let frame = vec![[1u8, 2, 3]; 400];
    for expected in [2u64, 4, 6] {
        f.publish_into(&mut region, &frame);
        let seq = seq_of(&region);
        assert_eq!(seq, expected);
    }
}

#[test]
fn total_size_is_header_plus_rgb() {
    assert_eq!(fmt(0).total_size(), 64);
    assert_eq!(fmt(56_000).total_size(), 64 + 168_000);
    assert_eq!(DATA_OFFSET, 64);
}

#[test]
fn header_fields_are_little_endian() {
    let f = FrameFormat { num_voxels: 0x0102_0304, width: 7, height: 8, length: 9, cube_count: 2 };
    let mut region = vec![0xEEu8; 72];
    f.init_header(&mut region[..]);
    assert_eq!(&region[0..4], &[0x50, 0x56, 0x5A, 0x31]); // "PVZ1"
    assert_eq!(u32::from_le_bytes(region[4..8].try_into().unwrap()), VERSION);
    assert_eq!(&region[8..12], &[0x04, 0x03, 0x02, 0x01]);
    assert_eq!(u32::from_le_bytes(region[12..16].try_into().unwrap()), 7);
    assert_eq!(u32::from_le_bytes(region[16..20].try_into().unwrap()), 8);
    assert_eq!(u32::from_le_bytes(region[20..24].try_into().unwrap()), 9);
    assert_eq!(u32::from_le_bytes(region[24..28].try_into().unwrap()), 2);
    // The reserved word and the data area are left alone.
    assert_eq!(&region[28..32], &[0xEE; 4]);
    assert_eq!(seq_of(&region), 0);
    assert!(region[40..].iter().all(|&b| b == 0xEE));
}

#[test]
fn reader_gives_up_while_writer_is_mid_update() {
    let f = fmt(400);
    let mut region = vec![0u8; f.total_size()];
    f.init_header(&mut region);
    region[OFF_SEQ] = 5; // odd: writer in progress
    let mut out = vec![[9u8; 3]; 400];
    assert!(!f.read_into(&region, &mut out, 3));
    assert!(out.iter().all(|&p| p == [9, 9, 9]));
    // No tries at all never succeeds either.
    region[OFF_SEQ] = 6;
    assert!(!f.read_into(&region, &mut out, 0));
    assert!(f.read_into(&region, &mut out, 1));
    assert!(out.iter().all(|&p| p == [0, 0, 0]));
}

#[test]
fn publish_wraps_the_counter() {
    let f = fmt(1);
    let mut region = vec![0u8; f.total_size()];
    f.init_header(&mut region);
    region[OFF_SEQ..OFF_SEQ + 8].copy_from_slice(&(u64::MAX - 1).to_le_bytes());
    f.publish_into(&mut region, &[[1, 2, 3]]);
    assert_eq!(seq_of(&region), 0);
    assert_eq!(&region[64..67], &[1, 2, 3]);
}

#[test]
fn write_voxels_touches_only_the_data_area() {
    let mut region = vec![0xFFu8; 64 + 6 + 2];
    write_voxels(&mut region, &[[1, 2, 3], [4, 5, 6]]);
    assert!(region[..64].iter().all(|&b| b == 0xFF));
    assert_eq!(&region[64..70], &[1, 2, 3, 4, 5, 6]);
    assert_eq!(&region[70..], &[0xFF, 0xFF]);
}

#[test]
fn format_follows_the_config() {
    let config = Config {
        cubes: vec![
            Cube { width: 20, height: 20, length: 20, offset: 0 },
            Cube { width: 20, height: 20, length: 20, offset: 8000 },
        ],
        listeners: vec![Listener {
            ip: "127.0.0.1".to_string(),
            port: 6454,
            cube_index: 0,
            z_indices: vec![0],
        }],
        num_voxels: 16_000,
        world: (40, 20, (1usize << 32) + 5),
    };
    let f = FrameFormat::for_config(&config);
    assert_eq!(f.num_voxels, 16_000);
    assert_eq!((f.width, f.height, f.length, f.cube_count), (40, 20, 5, 2));
}
