use previz_receiver::artnet::{self, ARTNET_ID, OP_DMX, OP_SYNC};
use previz_receiver::config::{
    parse_geometry, port_from_value, Config, ConfigError, GeometryError, PortError, PortValue,
    RawConfig, RawCube, RawMapping,
};
use previz_receiver::decimal::IntErrorKind;
use previz_receiver::volume::{Step, Volume, DEFAULT_UNIVERSES_PER_LAYER, PIXELS_PER_UNIVERSE};
use serde_json::Value;

// --- Reading the JSON text into the raw shape --------------------------------

fn port_value(v: &Value) -> PortValue {
    match v {
        Value::String(s) => PortValue::Text(s.clone()),
        Value::Number(n) => PortValue::Number(n.as_u64()),
        _ => PortValue::Other,
    }
}

fn raw_mapping(v: &Value) -> Result<RawMapping, String> {
    let ip = v.get("ip").and_then(Value::as_str).ok_or("missing field `ip`")?.to_string();
    let port = v.get("port").ok_or("missing field `port`")?;
    let port = port_from_value(&port_value(port)).map_err(|e| format!("{e:?}"))?;
    let z_idx = v
        .get("z_idx")
        .and_then(Value::as_array)
        .ok_or("missing field `z_idx`")?
        .iter()
        .map(|z| z.as_u64().map(|z| z as usize).ok_or("bad z_idx".to_string()))
        .collect::<Result<Vec<_>, _>>()?;
    Ok(RawMapping { ip, port, z_idx })
}

fn raw_cube(v: &Value) -> Result<RawCube, String> {
    let dimensions =
        v.get("dimensions").and_then(Value::as_str).ok_or("missing field `dimensions`")?;
    let artnet_mappings = match v.get("artnet_mappings") {
        None => Vec::new(),
        Some(m) => m
            .as_array()
            .ok_or("artnet_mappings")?
            .iter()
            .map(raw_mapping)
            .collect::<Result<Vec<_>, _>>()?,
    };
    Ok(RawCube { dimensions: dimensions.to_string(), artnet_mappings })
}

fn from_json_str(s: &str) -> Result<Config, String> {
    let v: Value = serde_json::from_str(s).map_err(|e| format!("invalid config JSON: {e}"))?;
    let world_geometry = v
        .get("world_geometry")
        .and_then(Value::as_str)
        .ok_or("missing field `world_geometry`")?
        .to_string();
    let cubes = v
        .get("cubes")
        .and_then(Value::as_array)
        .ok_or("missing field `cubes`")?
        .iter()
        .map(raw_cube)
        .collect::<Result<Vec<_>, _>>()?;
    let raw = RawConfig { world_geometry, cubes };
    match raw.try_resolve() {
        Some(r) => r.map_err(|e| format!("{e:?}")),
        None => panic!("voxel count overflows usize"),
    }
}

// --- Configuration -------------------------------------------------------------

const SIM_CONFIG_4_CUBE0: &str = r#"{
  "world_geometry": "40x40x20",
  "cubes": [{
    "position": [0,0,0],
    "dimensions": "20x20x20",
    "artnet_mappings": [{"ip":"127.0.0.1","port":"6454","z_idx":[0,1,2,3,4]}]
  }]
}"#;

#[test]
fn parses_string_port_and_geometry() {
    let cfg = from_json_str(SIM_CONFIG_4_CUBE0).unwrap();
    assert_eq!(cfg.world, (40, 40, 20));
    assert_eq!(cfg.cubes.len(), 1);
    assert_eq!(cfg.cubes[0].voxel_count(), 20 * 20 * 20);
    assert_eq!(cfg.num_voxels, 8000);
    assert_eq!(cfg.listeners.len(), 1);
    assert_eq!(cfg.listeners[0].port, 6454);
    assert_eq!(cfg.listeners[0].cube_index, 0);
    assert_eq!(cfg.listeners[0].z_indices, vec![0, 1, 2, 3, 4]);
}

#[test]
fn napa_single_cube_is_56k_voxels() {
    let napa = r#"{
      "world_geometry": "20x20x140",
      "cubes": [{
        "position": [0,0,0],
        "dimensions": "20x20x140",
        "artnet_mappings": [{"ip":"127.0.0.1","port":51330,"z_idx":[0]}]
      }]
    }"#;
    let cfg = from_json_str(napa).unwrap();
    assert_eq!(cfg.num_voxels, 56_000);
}

#[test]
fn concatenates_multi_cube_offsets() {
    let two = r#"{
      "world_geometry": "40x20x20",
      "cubes": [
        {"position":[0,0,0],"dimensions":"20x20x20",
         "artnet_mappings":[{"ip":"127.0.0.1","port":6454,"z_idx":[0]}]},
        {"position":[20,0,0],"dimensions":"20x20x20",
         "artnet_mappings":[{"ip":"127.0.0.1","port":6455,"z_idx":[0]}]}
      ]
    }"#;
    let cfg = from_json_str(two).unwrap();
    assert_eq!(cfg.cubes[0].offset, 0);
    assert_eq!(cfg.cubes[1].offset, 8000);
    assert_eq!(cfg.num_voxels, 16_000);
}

#[test]
fn rejects_missing_port() {
    let bad = r#"{
      "world_geometry": "20x20x20",
      "cubes": [{"position":[0,0,0],"dimensions":"20x20x20",
        "artnet_mappings":[{"ip":"127.0.0.1","z_idx":[0]}]}]
    }"#;
    // The JSON shape fails on the missing field before the port==0 guard.
    assert!(from_json_str(bad).is_err());
}

#[test]
fn rejects_z_idx_out_of_range() {
    let bad = r#"{
      "world_geometry": "20x20x20",
      "cubes": [{"position":[0,0,0],"dimensions":"20x20x20",
        "artnet_mappings":[{"ip":"127.0.0.1","port":6454,"z_idx":[20]}]}]
    }"#;
    assert!(from_json_str(bad).is_err());
}

fn raw(world: &str, cubes: Vec<RawCube>) -> RawConfig {
    RawConfig { world_geometry: world.to_string(), cubes }
}

fn mapping(ip: &str, port: u16, z: Vec<usize>) -> RawMapping {
    RawMapping { ip: ip.to_string(), port, z_idx: z }
}

#[test]
fn resolve_reports_each_error() {
    let ok_cube = || RawCube {
        dimensions: "2x2x2".to_string(),
        artnet_mappings: vec![mapping("a", 1, vec![0, 1])],
    };
    assert_eq!(
        raw("2x2", vec![ok_cube()]).resolve().unwrap_err(),
        ConfigError::WorldGeometry {
            text: "2x2".to_string(),
            error: GeometryError::ExpectedWxHxL
        }
    );
    assert_eq!(
        raw("2x2x2", vec![ok_cube(), RawCube { dimensions: "2xQx2".to_string(), artnet_mappings: vec![] }])
            .resolve()
            .unwrap_err(),
        ConfigError::CubeDimensions {
            cube: 1,
            text: "2xQx2".to_string(),
            error: GeometryError::BadInteger("Q".to_string())
        }
    );
    let zero_port = RawCube { dimensions: "2x2x2".to_string(), artnet_mappings: vec![mapping("b", 0, vec![0])] };
    assert_eq!(
        raw("2x2x2", vec![zero_port]).resolve().unwrap_err(),
        ConfigError::MissingPort { cube: 0, ip: "b".to_string() }
    );
    let far = RawCube { dimensions: "2x2x2".to_string(), artnet_mappings: vec![mapping("c", 9, vec![1, 5, 7])] };
    assert_eq!(
        raw("2x2x2", vec![far]).resolve().unwrap_err(),
        ConfigError::ZOutOfRange { cube: 0, ip: "c".to_string(), z: 5, length: 2 }
    );
    assert_eq!(raw("2x2x2", vec![]).resolve().unwrap_err(), ConfigError::NoCubes);
    let silent = RawCube { dimensions: "2x2x2".to_string(), artnet_mappings: vec![] };
    assert_eq!(raw("2x2x2", vec![silent]).resolve().unwrap_err(), ConfigError::NoListeners);
}

#[test]
fn resolve_keeps_listeners_in_order() {
    let cfg = raw(
        "4x2x2",
        vec![
            RawCube { dimensions: "2x2x2".to_string(), artnet_mappings: vec![mapping("a", 10, vec![1]), mapping("b", 11, vec![0])] },
            RawCube { dimensions: "1x1x3".to_string(), artnet_mappings: vec![mapping("c", 12, vec![2, 0])] },
        ],
    )
    .resolve()
    .unwrap();
    assert_eq!(cfg.num_voxels, 8 + 3);
    assert_eq!(cfg.cubes[1].offset, 8);
    let names: Vec<(&str, u16, usize)> =
        cfg.listeners.iter().map(|l| (l.ip.as_str(), l.port, l.cube_index)).collect();
    assert_eq!(names, vec![("a", 10, 0), ("b", 11, 0), ("c", 12, 1)]);
    assert_eq!(cfg.listeners[2].z_indices, vec![2, 0]);
}

#[test]
fn try_resolve_reports_voxel_overflow() {
    let huge = RawCube {
        dimensions: format!("{}x2x1", usize::MAX),
        artnet_mappings: vec![mapping("a", 1, vec![0])],
    };
    assert!(raw("1x1x1", vec![huge]).try_resolve().is_none());
    let sum = vec![
        RawCube { dimensions: format!("{}x1x1", usize::MAX), artnet_mappings: vec![] },
        RawCube { dimensions: "1x1x1".to_string(), artnet_mappings: vec![] },
    ];
    assert!(raw("1x1x1", sum).try_resolve().is_none());
}

#[test]
fn geometry_strings() {
    assert_eq!(parse_geometry("20x20x140"), Ok((20, 20, 140)));
    assert_eq!(parse_geometry("+1x02x3"), Ok((1, 2, 3)));
    assert_eq!(parse_geometry("20x20"), Err(GeometryError::ExpectedWxHxL));
    assert_eq!(parse_geometry("1x2x3x4"), Err(GeometryError::ExpectedWxHxL));
    assert_eq!(parse_geometry(""), Err(GeometryError::ExpectedWxHxL));
    assert_eq!(parse_geometry("1xx3"), Err(GeometryError::BadInteger("".to_string())));
    assert_eq!(parse_geometry("1x-2x3"), Err(GeometryError::BadInteger("-2".to_string())));
    assert_eq!(parse_geometry("1x2x 3"), Err(GeometryError::BadInteger(" 3".to_string())));
    assert_eq!(parse_geometry("2ÿx1x1"), Err(GeometryError::BadInteger("2ÿ".to_string())));
}

#[test]
fn port_values() {
    assert_eq!(port_from_value(&PortValue::Text("6454".to_string())), Ok(6454));
    assert_eq!(port_from_value(&PortValue::Text("+7".to_string())), Ok(7));
    assert_eq!(
        port_from_value(&PortValue::Text("65536".to_string())),
        Err(PortError::Text(IntErrorKind::PosOverflow))
    );
    assert_eq!(port_from_value(&PortValue::Text("".to_string())), Err(PortError::Text(IntErrorKind::Empty)));
    assert_eq!(
        port_from_value(&PortValue::Text("64a".to_string())),
        Err(PortError::Text(IntErrorKind::InvalidDigit))
    );
    assert_eq!(port_from_value(&PortValue::Number(Some(65535))), Ok(65535));
    assert_eq!(port_from_value(&PortValue::Number(Some(65536))), Err(PortError::OutOfRange));
    assert_eq!(port_from_value(&PortValue::Number(None)), Err(PortError::OutOfRange));
    assert_eq!(port_from_value(&PortValue::Other), Err(PortError::WrongType));
}

// --- Volume reassembly ---------------------------------------------------------

fn make_dmx(universe: u16, data: &[u8]) -> Vec<u8> {
    let mut p = Vec::new();
    p.extend_from_slice(&ARTNET_ID);
    p.extend_from_slice(&OP_DMX.to_le_bytes());
    p.extend_from_slice(&14u16.to_be_bytes());
    p.push(0);
    p.push(0);
    p.extend_from_slice(&universe.to_le_bytes());
    p.extend_from_slice(&(data.len() as u16).to_be_bytes());
    p.extend_from_slice(data);
    p
}

/// Reproduce the sender's packetization for one loopback controller that owns
/// z-layers `0..length`, then check that the receiver reconstructs the exact
/// source raster.
fn round_trip(w: usize, h: usize, l: usize) {
    let cfg_json = format!(
        r#"{{"world_geometry":"{w}x{h}x{l}","cubes":[{{
            "position":[0,0,0],"dimensions":"{w}x{h}x{l}",
            "artnet_mappings":[{{"ip":"127.0.0.1","port":6454,
              "z_idx":{:?}}}]}}]}}"#,
        (0..l).collect::<Vec<_>>()
    );
    let cfg = from_json_str(&cfg_json).unwrap();
    let listener = cfg.listeners[0].clone();

    // Source raster in (z,y,x) order with a distinctive pattern.
    let mut src = vec![[0u8; 3]; w * h * l];
    for z in 0..l {
        for y in 0..h {
            for x in 0..w {
                src[z * w * h + y * w + x] = [(z * 7 + 1) as u8, (y * 3 + 2) as u8, (x * 5 + 3) as u8];
            }
        }
    }

    // Per z-layer, flatten (y,x) row-major, split into 510-byte universes
    // starting at z*upl.
    let upl = DEFAULT_UNIVERSES_PER_LAYER;
    let mut volume = Volume::new(&cfg, upl);
    for z in 0..l {
        let mut layer_bytes = Vec::with_capacity(w * h * 3);
        for y in 0..h {
            for x in 0..w {
                layer_bytes.extend_from_slice(&src[z * w * h + y * w + x]);
            }
        }
        let mut universe = (z * upl) as u16;
        for chunk in layer_bytes.chunks(510) {
            let pkt = make_dmx(universe, chunk);
            let parsed = artnet::parse(&pkt).unwrap();
            volume.apply(&listener, &parsed);
            universe += 1;
        }
    }

    assert_eq!(volume.work(), src.as_slice(), "round-trip mismatch for {w}x{h}x{l}");
}

#[test]
fn round_trip_20x20x4() {
    round_trip(20, 20, 4);
}

#[test]
fn round_trip_full_cross_section() {
    // A 20x20 layer is 1200 bytes: 3 universes (510, 510, 180).
    round_trip(20, 20, 2);
}

#[test]
fn round_trip_napa_slice() {
    round_trip(20, 20, 8);
}

#[test]
fn single_voxel_lights_expected_index() {
    let cfg = from_json_str(
        r#"{"world_geometry":"20x20x20","cubes":[{"position":[0,0,0],
           "dimensions":"20x20x20","artnet_mappings":[{"ip":"127.0.0.1",
           "port":6454,"z_idx":[0,1,2,3,4,5]}]}]}"#,
    )
    .unwrap();
    let listener = cfg.listeners[0].clone();
    let mut volume = Volume::new(&cfg, DEFAULT_UNIVERSES_PER_LAYER);

    // z=3 -> base universe 9; pixel (x=1,y=2) is index 41 in the layer,
    // which lands in universe_in_layer 0 (pixels 0..169), channel 41*3.
    let (w, x, y, z) = (20usize, 1usize, 2usize, 3usize);
    let idx_in_layer = y * w + x; // 41
    let mut layer = vec![0u8; 170 * 3];
    layer[idx_in_layer * 3] = 255;
    let pkt = make_dmx((z * 3) as u16, &layer);
    volume.apply(&listener, &artnet::parse(&pkt).unwrap());

    let expected_index = z * w * w + y * w + x;
    for (i, &px) in volume.work().iter().enumerate() {
        if i == expected_index {
            assert_eq!(px, [255, 0, 0]);
        } else {
            assert_eq!(px, [0, 0, 0], "voxel {i} should be dark");
        }
    }
}

#[test]
fn drops_universe_for_unowned_layer() {
    let cfg = from_json_str(
        r#"{"world_geometry":"20x20x20","cubes":[{"position":[0,0,0],
           "dimensions":"20x20x20","artnet_mappings":[{"ip":"127.0.0.1",
           "port":6454,"z_idx":[0,1]}]}]}"#,
    )
    .unwrap();
    let listener = cfg.listeners[0].clone();
    let mut volume = Volume::new(&cfg, DEFAULT_UNIVERSES_PER_LAYER);
    // layer index 5 (universe 15) is beyond this listener's 2 z_indices.
    let pkt = make_dmx(15, &[255u8; 9]);
    volume.apply(&listener, &artnet::parse(&pkt).unwrap());
    assert!(volume.work().iter().all(|&p| p == [0, 0, 0]));
}

fn two_cube_config() -> Config {
    raw(
        "8x2x2",
        vec![
            RawCube { dimensions: "4x2x2".to_string(), artnet_mappings: vec![mapping("a", 1, vec![1, 0])] },
            RawCube { dimensions: "4x2x2".to_string(), artnet_mappings: vec![mapping("b", 2, vec![0])] },
        ],
    )
    .resolve()
    .unwrap()
}

#[test]
fn second_cube_writes_after_the_first() {
    let cfg = two_cube_config();
    let mut volume = Volume::new(&cfg, 1);
    assert_eq!(volume.num_voxels(), 32);
    let pkt = make_dmx(0, &[1, 1, 1, 2, 2, 2]);
    volume.apply(&cfg.listeners[1], &artnet::parse(&pkt).unwrap());
    let work = volume.work();
    assert_eq!(work[16], [1, 1, 1]);
    assert_eq!(work[17], [2, 2, 2]);
    assert_eq!(work.iter().filter(|&&p| p != [0, 0, 0]).count(), 2);
}

#[test]
fn layer_order_follows_z_indices() {
    let cfg = two_cube_config();
    let mut volume = Volume::new(&cfg, 1);
    // Universe 0 addresses z_indices[0] = 1: the second layer of cube 0.
    let pkt = make_dmx(0, &[7, 7, 7]);
    volume.apply(&cfg.listeners[0], &artnet::parse(&pkt).unwrap());
    assert_eq!(volume.work()[8], [7, 7, 7]);
    assert_eq!(volume.work()[0], [0, 0, 0]);
}

#[test]
fn pixels_past_the_layer_and_partial_triples_are_dropped() {
    let cfg = two_cube_config();
    let mut volume = Volume::new(&cfg, 1);
    // Layer of cube 0 has 8 pixels; send 10 pixels and a dangling byte.
    let mut data = Vec::new();
    for i in 0..10u8 {
        data.extend_from_slice(&[i + 1, i + 1, i + 1]);
    }
    data.push(99);
    let pkt = make_dmx(1, &data); // z_indices[1] = 0
    volume.apply(&cfg.listeners[0], &artnet::parse(&pkt).unwrap());
    let work = volume.work();
    for i in 0..8 {
        assert_eq!(work[i], [i as u8 + 1; 3]);
    }
    assert!(work[8..].iter().all(|&p| p == [0, 0, 0]));
}

#[test]
fn second_universe_of_a_layer_starts_at_pixel_170() {
    let cfg = from_json_str(
        r#"{"world_geometry":"20x20x1","cubes":[{"dimensions":"20x20x1",
           "artnet_mappings":[{"ip":"127.0.0.1","port":6454,"z_idx":[0]}]}]}"#,
    )
    .unwrap();
    let mut volume = Volume::new(&cfg, DEFAULT_UNIVERSES_PER_LAYER);
    let pkt = make_dmx(1, &[5, 6, 7]);
    volume.apply(&cfg.listeners[0], &artnet::parse(&pkt).unwrap());
    assert_eq!(volume.work()[PIXELS_PER_UNIVERSE], [5, 6, 7]);
}

#[test]
fn receive_applies_dmx_and_reports_sync() {
    let cfg = two_cube_config();
    let mut volume = Volume::new(&cfg, 1);
    let l = &cfg.listeners[1];
    assert_eq!(volume.receive(l, &make_dmx(0, &[3, 3, 3])), Step::Applied);
    assert_eq!(volume.work()[16], [3, 3, 3]);
    let mut sync = Vec::new();
    sync.extend_from_slice(&ARTNET_ID);
    sync.extend_from_slice(&OP_SYNC.to_le_bytes());
    assert_eq!(volume.receive(l, &sync), Step::Publish);
    assert_eq!(volume.receive(l, b"hello"), Step::Ignored);
    assert_eq!(volume.work()[16], [3, 3, 3]);
}

#[test]
fn accepts_checks_the_volume_bounds() {
    let cfg = two_cube_config();
    let volume = Volume::new(&cfg, 1);
    let pkt = make_dmx(0, &[1, 2, 3]);
    let p = artnet::parse(&pkt).unwrap();
    assert!(volume.accepts(&cfg.listeners[0], &p));
    let zero = Volume::new(&cfg, 0);
    assert!(!zero.accepts(&cfg.listeners[0], &p));
    let stray = previz_receiver::config::Listener {
        ip: "x".to_string(),
        port: 1,
        cube_index: 7,
        z_indices: vec![0],
    };
    assert!(!volume.accepts(&stray, &p));
    assert!(volume.accepts(&stray, &artnet::Packet::Sync));
}
