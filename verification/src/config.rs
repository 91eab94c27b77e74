//! The receiver's configuration: the geometry and per-listener mapping that
//! the companion sender's `config.json` describes.
//!
//! The JSON text itself is read into the plain `RawConfig` shape by the
//! program around this crate; everything that is decided about it (geometry
//! strings, port values, z-layer bounds, cube offsets) is decided here.

use vstd::prelude::*;

use crate::decimal::{
    decimal_text, lemma_decimal_text_shape, lemma_parse_decimal_text, parse_u16, parse_unsigned,
    parse_usize, IntErrorKind,
};

verus! {

/// One physical cube (a contiguous voxel volume) in the display.
#[derive(Debug, Clone, PartialEq, Eq)]
pub struct Cube {
    pub width: usize,
    pub height: usize,
    pub length: usize,
    /// Flat voxel index where this cube begins in the published volume buffer.
    /// Cubes are concatenated in configuration order.
    pub offset: usize,
}

impl Cube {
    pub open spec fn spec_voxel_count(&self) -> int {
        self.width * self.height * self.length
    }

    /// Number of voxels in the cube.
    pub fn voxel_count(&self) -> (r: usize)
        requires
            self.width * self.height <= usize::MAX,
            self.width * self.height * self.length <= usize::MAX,
        ensures
            r == self.spec_voxel_count(),
    {
        self.width * self.height * self.length
    }
}

/// One Art-Net listener: a UDP socket bound to `ip:port` that feeds a set of
/// z-layers (`z_indices`) into a single cube.
#[derive(Debug, Clone, PartialEq, Eq)]
pub struct Listener {
    pub ip: String,
    pub port: u16,
    pub cube_index: usize,
    pub z_indices: Vec<usize>,
}

pub struct ListenerModel {
    pub ip: Seq<char>,
    pub port: u16,
    pub cube_index: usize,
    pub z_indices: Seq<usize>,
}

impl View for Listener {
    type V = ListenerModel;

    open spec fn view(&self) -> ListenerModel {
        ListenerModel {
            ip: self.ip@,
            port: self.port,
            cube_index: self.cube_index,
            z_indices: self.z_indices@,
        }
    }
}

/// Fully resolved receiver configuration.
#[derive(Debug, PartialEq, Eq)]
pub struct Config {
    pub cubes: Vec<Cube>,
    pub listeners: Vec<Listener>,
    /// Total voxels across all cubes: the size of the published buffer.
    pub num_voxels: usize,
    /// World bounding geometry (w, h, l) as declared by `world_geometry`.
    pub world: (usize, usize, usize),
}

pub struct ConfigModel {
    pub cubes: Seq<Cube>,
    pub listeners: Seq<ListenerModel>,
    pub num_voxels: usize,
    pub world: (usize, usize, usize),
}

pub open spec fn listener_views(ls: Seq<Listener>) -> Seq<ListenerModel> {
    ls.map_values(|l: Listener| l@)
}

impl View for Config {
    type V = ConfigModel;

    open spec fn view(&self) -> ConfigModel {
        ConfigModel {
            cubes: self.cubes@,
            listeners: listener_views(self.listeners@),
            num_voxels: self.num_voxels,
            world: self.world,
        }
    }
}

/// The cubes lie one after another in a buffer of `total` voxels: the first at
/// 0, each next one where the previous one ends, the buffer ending where the
/// last one ends; and each cube's layer area fits in `usize`.
pub open spec fn cubes_laid_out(cs: Seq<Cube>, total: int) -> bool {
    &&& cs.len() > 0 ==> cs[0].offset == 0
    &&& forall|k: int|
        0 <= k < cs.len() - 1 ==> #[trigger] cs[k + 1].offset == cs[k].offset
            + cs[k].spec_voxel_count()
    &&& total == if cs.len() == 0 {
        0
    } else {
        cs.last().offset + cs.last().spec_voxel_count()
    }
    &&& forall|k: int| 0 <= k < cs.len() ==> #[trigger] cs[k].width * cs[k].height <= usize::MAX
}

/// A listener with a port, feeding an existing cube, and naming only z-layers
/// inside that cube.
pub open spec fn listener_within(l: ListenerModel, cs: Seq<Cube>) -> bool {
    &&& l.port != 0
    &&& l.cube_index < cs.len()
    &&& forall|q: int|
        0 <= q < l.z_indices.len() ==> #[trigger] l.z_indices[q] < cs[l.cube_index as int].length
}

/// What every resolved configuration satisfies.
pub open spec fn config_well_formed(m: ConfigModel) -> bool {
    &&& m.cubes.len() > 0
    &&& m.listeners.len() > 0
    &&& cubes_laid_out(m.cubes, m.num_voxels as int)
    &&& forall|i: int| 0 <= i < m.listeners.len() ==> listener_within(#[trigger] m.listeners[i], m.cubes)
}

// --- The on-disk shape -------------------------------------------------------

/// The configuration as the JSON file lays it out.
pub struct RawConfig {
    pub world_geometry: String,
    pub cubes: Vec<RawCube>,
}

pub struct RawCube {
    pub dimensions: String,
    /// Absent in the file means empty.
    pub artnet_mappings: Vec<RawMapping>,
}

pub struct RawMapping {
    pub ip: String,
    pub port: u16,
    pub z_idx: Vec<usize>,
}

/// The JSON value found where a port is expected: ports are sometimes
/// strings, sometimes numbers in these files.
pub enum PortValue {
    /// A JSON string.
    Text(String),
    /// A JSON number, with its value where it is a non-negative integer that
    /// fits in `u64`.
    Number(Option<u64>),
    /// Any other JSON value.
    Other,
}

/// Why a port value is refused.
#[derive(Debug, Clone, Copy, PartialEq, Eq, Structural)]
pub enum PortError {
    /// A string that is not a decimal `u16`.
    Text(IntErrorKind),
    /// A number that is not an integer in `0..=65535`.
    OutOfRange,
    /// Neither a string nor a number.
    WrongType,
}

pub open spec fn port_value_result(v: PortValue) -> Result<u16, PortError> {
    match v {
        PortValue::Text(s) => match parse_unsigned(s@, u16::MAX as int) {
            Ok(p) => Ok(p as u16),
            Err(e) => Err(PortError::Text(e)),
        },
        PortValue::Number(n) => match n {
            Some(x) => if x <= u16::MAX {
                Ok(x as u16)
            } else {
                Err(PortError::OutOfRange)
            },
            None => Err(PortError::OutOfRange),
        },
        PortValue::Other => Err(PortError::WrongType),
    }
}

/// The port a JSON value denotes: a decimal string or a number in `u16`
/// range.
pub fn port_from_value(v: &PortValue) -> (r: Result<u16, PortError>)
    ensures
        r == port_value_result(*v),
{
    match v {
        PortValue::Text(s) => match parse_u16(s.as_str()) {
            Ok(p) => Ok(p),
            Err(e) => Err(PortError::Text(e)),
        },
        PortValue::Number(n) => match n {
            Some(x) => if *x <= 65535 {
                Ok(*x as u16)
            } else {
                Err(PortError::OutOfRange)
            },
            None => Err(PortError::OutOfRange),
        },
        PortValue::Other => Err(PortError::WrongType),
    }
}

// --- Geometry strings "WxHxL" ------------------------------------------------

/// Why a geometry string is refused.
#[derive(Debug, Clone, PartialEq, Eq)]
pub enum GeometryError {
    /// Not exactly three `x`-separated parts.
    ExpectedWxHxL,
    /// This part is not a decimal `usize`.
    BadInteger(String),
}

pub enum GeometryErrorModel {
    ExpectedWxHxL,
    BadInteger(Seq<char>),
}

impl View for GeometryError {
    type V = GeometryErrorModel;

    open spec fn view(&self) -> GeometryErrorModel {
        match self {
            GeometryError::ExpectedWxHxL => GeometryErrorModel::ExpectedWxHxL,
            GeometryError::BadInteger(p) => GeometryErrorModel::BadInteger(p@),
        }
    }
}

/// The parts of `s` between occurrences of `sep`, as `str::split` yields them.
pub open spec fn split_on(s: Seq<char>, sep: char) -> Seq<Seq<char>>
    decreases s.len(),
{
    if s.len() == 0 {
        seq![Seq::empty()]
    } else {
        let parts = split_on(s.drop_last(), sep);
        if s.last() == sep {
            parts.push(Seq::empty())
        } else {
            parts.update(parts.len() - 1, parts.last().push(s.last()))
        }
    }
}

proof fn lemma_split_on_nonempty(s: Seq<char>, sep: char)
    ensures
        split_on(s, sep).len() >= 1,
    decreases s.len(),
{
    if s.len() > 0 {
        lemma_split_on_nonempty(s.drop_last(), sep);
    }
}

/// What a `WxHxL` geometry string denotes.
pub open spec fn geometry_value(s: Seq<char>) -> Result<(usize, usize, usize), GeometryErrorModel> {
    let parts = split_on(s, 'x');
    if parts.len() != 3 {
        Err(GeometryErrorModel::ExpectedWxHxL)
    } else {
        match parse_unsigned(parts[0], usize::MAX as int) {
            Err(_) => Err(GeometryErrorModel::BadInteger(parts[0])),
            Ok(w) => match parse_unsigned(parts[1], usize::MAX as int) {
                Err(_) => Err(GeometryErrorModel::BadInteger(parts[1])),
                Ok(h) => match parse_unsigned(parts[2], usize::MAX as int) {
                    Err(_) => Err(GeometryErrorModel::BadInteger(parts[2])),
                    Ok(l) => Ok((w as usize, h as usize, l as usize)),
                },
            },
        }
    }
}

pub open spec fn geometry_result_view(r: Result<(usize, usize, usize), GeometryError>) -> Result<
    (usize, usize, usize),
    GeometryErrorModel,
> {
    match r {
        Ok(g) => Ok(g),
        Err(e) => Err(e@),
    }
}

fn part_value(part: &str) -> (r: Result<usize, GeometryError>)
    ensures
        match r {
            Ok(v) => parse_unsigned(part@, usize::MAX as int) == Ok::<int, IntErrorKind>(v as int),
            Err(e) => parse_unsigned(part@, usize::MAX as int) is Err && e@
                == GeometryErrorModel::BadInteger(part@),
        },
{
    match parse_usize(part) {
        Ok(v) => Ok(v),
        Err(_) => Err(GeometryError::BadInteger(part.to_owned())),
    }
}

/// Parses a `WxHxL` geometry string into `(w, h, l)`.
pub fn parse_geometry(s: &str) -> (r: Result<(usize, usize, usize), GeometryError>)
    ensures
        geometry_result_view(r) == geometry_value(s@),
{
    let n = s.unicode_len();
    let mut count: usize = 0;
    let mut first: usize = 0;
    let mut second: usize = 0;
    let mut i: usize = 0;
    assert(s@.subrange(0, 0) =~= Seq::<char>::empty());
    while i < n
        invariant
            n == s@.len(),
            i <= n,
            count <= i,
            split_on(s@.subrange(0, i as int), 'x').len() == count + 1,
            count >= 1 ==> first < i && split_on(s@.subrange(0, i as int), 'x')[0]
                == s@.subrange(0, first as int),
            count >= 2 ==> first < second < i && split_on(s@.subrange(0, i as int), 'x')[1]
                == s@.subrange(first + 1, second as int),
            count == 0 ==> split_on(s@.subrange(0, i as int), 'x')[0] == s@.subrange(0, i as int),
            count == 1 ==> split_on(s@.subrange(0, i as int), 'x')[1] == s@.subrange(
                first + 1,
                i as int,
            ),
            count == 2 ==> split_on(s@.subrange(0, i as int), 'x')[2] == s@.subrange(
                second + 1,
                i as int,
            ),
        decreases n - i,
    {
        let c = s.get_char(i);
        let ghost prev = s@.subrange(0, i as int);
        let ghost next = s@.subrange(0, i + 1);
        assert(next.drop_last() =~= prev);
        assert(next.last() == c);
        proof {
            lemma_split_on_nonempty(prev, 'x');
        }
        if c == 'x' {
            if count == 0 {
                first = i;
            } else if count == 1 {
                second = i;
            }
            count = count + 1;
            assert(s@.subrange(i + 1, i + 1) =~= Seq::<char>::empty());
        } else {
            assert(s@.subrange(0, i + 1) =~= s@.subrange(0, i as int).push(c));
            assert(count == 1 ==> s@.subrange(first + 1, i + 1) =~= s@.subrange(
                first + 1,
                i as int,
            ).push(c));
            assert(count == 2 ==> s@.subrange(second + 1, i + 1) =~= s@.subrange(
                second + 1,
                i as int,
            ).push(c));
        }
        i = i + 1;
    }
    assert(s@.subrange(0, n as int) =~= s@);
    if count != 2 {
        return Err(GeometryError::ExpectedWxHxL);
    }
    let w = part_value(s.substring_char(0, first))?;
    let h = part_value(s.substring_char(first + 1, second))?;
    let l = part_value(s.substring_char(second + 1, n))?;
    Ok((w, h, l))
}

// --- Resolution --------------------------------------------------------------

/// Why a configuration is refused.
#[derive(Debug, Clone, PartialEq, Eq)]
pub enum ConfigError {
    /// `world_geometry` is not a `WxHxL` string.
    WorldGeometry { text: String, error: GeometryError },
    /// The `dimensions` of cube `cube` are not a `WxHxL` string.
    CubeDimensions { cube: usize, text: String, error: GeometryError },
    /// A mapping of cube `cube` has port 0: each controller needs its own
    /// UDP port.
    MissingPort { cube: usize, ip: String },
    /// A mapping of cube `cube` names z-layer `z`, outside the cube's length.
    ZOutOfRange { cube: usize, ip: String, z: usize, length: usize },
    /// The configuration lists no cube.
    NoCubes,
    /// No cube has a mapping.
    NoListeners,
}

pub enum ConfigErrorModel {
    WorldGeometry { text: Seq<char>, error: GeometryErrorModel },
    CubeDimensions { cube: usize, text: Seq<char>, error: GeometryErrorModel },
    MissingPort { cube: usize, ip: Seq<char> },
    ZOutOfRange { cube: usize, ip: Seq<char>, z: usize, length: usize },
    NoCubes,
    NoListeners,
}

impl View for ConfigError {
    type V = ConfigErrorModel;

    open spec fn view(&self) -> ConfigErrorModel {
        match self {
            ConfigError::WorldGeometry { text, error } => ConfigErrorModel::WorldGeometry {
                text: text@,
                error: error@,
            },
            ConfigError::CubeDimensions { cube, text, error } => ConfigErrorModel::CubeDimensions {
                cube: *cube,
                text: text@,
                error: error@,
            },
            ConfigError::MissingPort { cube, ip } => ConfigErrorModel::MissingPort {
                cube: *cube,
                ip: ip@,
            },
            ConfigError::ZOutOfRange { cube, ip, z, length } => ConfigErrorModel::ZOutOfRange {
                cube: *cube,
                ip: ip@,
                z: *z,
                length: *length,
            },
            ConfigError::NoCubes => ConfigErrorModel::NoCubes,
            ConfigError::NoListeners => ConfigErrorModel::NoListeners,
        }
    }
}

/// The first z-layer in `zs` that is at least `bound`, scanning from the
/// front.
pub open spec fn first_at_least(zs: Seq<usize>, bound: usize) -> Option<usize>
    decreases zs.len(),
{
    if zs.len() == 0 {
        None
    } else if zs[0] >= bound {
        Some(zs[0])
    } else {
        first_at_least(zs.drop_first(), bound)
    }
}

/// The listeners that the first `k` mappings of cube `ci` (of length
/// `length`) yield, or the first error among them.
pub open spec fn resolve_mappings(maps: Seq<RawMapping>, ci: usize, length: usize, k: nat) -> Result<
    Seq<ListenerModel>,
    ConfigErrorModel,
>
    decreases k,
{
    if k == 0 {
        Ok(Seq::empty())
    } else {
        match resolve_mappings(maps, ci, length, (k - 1) as nat) {
            Err(e) => Err(e),
            Ok(ls) => {
                let m = maps[k - 1];
                if m.port == 0 {
                    Err(ConfigErrorModel::MissingPort { cube: ci, ip: m.ip@ })
                } else {
                    match first_at_least(m.z_idx@, length) {
                        Some(z) => Err(
                            ConfigErrorModel::ZOutOfRange { cube: ci, ip: m.ip@, z, length },
                        ),
                        None => Ok(
                            ls.push(
                                ListenerModel {
                                    ip: m.ip@,
                                    port: m.port,
                                    cube_index: ci,
                                    z_indices: m.z_idx@,
                                },
                            ),
                        ),
                    }
                }
            },
        }
    }
}

proof fn lemma_mappings_error_persists(
    maps: Seq<RawMapping>,
    ci: usize,
    length: usize,
    k: nat,
    k2: nat,
)
    requires
        k <= k2,
        resolve_mappings(maps, ci, length, k) is Err,
    ensures
        resolve_mappings(maps, ci, length, k2) == resolve_mappings(maps, ci, length, k),
    decreases k2 - k,
{
    if k < k2 {
        lemma_mappings_error_persists(maps, ci, length, k, (k2 - 1) as nat);
    }
}

/// The cubes, listeners and running voxel offset that the first `n` raw cubes
/// yield; `Some(Err(..))` for the first error among them, and `None` where the
/// voxel count leaves the range of `usize`.
pub open spec fn resolve_cubes(cubes: Seq<RawCube>, n: nat) -> Option<
    Result<(Seq<Cube>, Seq<ListenerModel>, int), ConfigErrorModel>,
>
    decreases n,
{
    if n == 0 {
        Some(Ok((Seq::empty(), Seq::empty(), 0)))
    } else {
        match resolve_cubes(cubes, (n - 1) as nat) {
            Some(Ok((cs, ls, off))) => {
                let ci = (n - 1) as usize;
                let rc = cubes[n - 1];
                match geometry_value(rc.dimensions@) {
                    Err(e) => Some(
                        Err(
                            ConfigErrorModel::CubeDimensions {
                                cube: ci,
                                text: rc.dimensions@,
                                error: e,
                            },
                        ),
                    ),
                    Ok((w, h, l)) => match resolve_mappings(
                        rc.artnet_mappings@,
                        ci,
                        l,
                        rc.artnet_mappings@.len(),
                    ) {
                        Err(e) => Some(Err(e)),
                        Ok(new_ls) => if w * h > usize::MAX || off + w * h * l > usize::MAX {
                            None
                        } else {
                            Some(
                                Ok(
                                    (
                                        cs.push(
                                            Cube { width: w, height: h, length: l, offset: off as usize },
                                        ),
                                        ls + new_ls,
                                        off + w * h * l,
                                    ),
                                ),
                            )
                        },
                    },
                }
            },
            other => other,
        }
    }
}

proof fn lemma_cubes_stop_persists(cubes: Seq<RawCube>, n: nat, n2: nat)
    requires
        n <= n2,
        !(resolve_cubes(cubes, n) matches Some(Ok(_))),
    ensures
        resolve_cubes(cubes, n2) == resolve_cubes(cubes, n),
    decreases n2 - n,
{
    if n < n2 {
        lemma_cubes_stop_persists(cubes, n, (n2 - 1) as nat);
    }
}

proof fn lemma_first_at_least_none(zs: Seq<usize>, bound: usize)
    requires
        first_at_least(zs, bound) is None,
    ensures
        forall|q: int| 0 <= q < zs.len() ==> #[trigger] zs[q] < bound,
    decreases zs.len(),
{
    if zs.len() > 0 {
        lemma_first_at_least_none(zs.drop_first(), bound);
        assert forall|q: int| 0 <= q < zs.len() implies #[trigger] zs[q] < bound by {
            if q > 0 {
                assert(zs[q] == zs.drop_first()[q - 1]);
            }
        }
    }
}

proof fn lemma_mappings_within(
    maps: Seq<RawMapping>,
    ci: usize,
    length: usize,
    k: nat,
    cs: Seq<Cube>,
)
    requires
        ci < cs.len(),
        cs[ci as int].length == length,
        resolve_mappings(maps, ci, length, k) is Ok,
    ensures
        forall|i: int|
            0 <= i < resolve_mappings(maps, ci, length, k)->Ok_0.len() ==> listener_within(
                #[trigger] resolve_mappings(maps, ci, length, k)->Ok_0[i],
                cs,
            ),
    decreases k,
{
    if k > 0 {
        lemma_mappings_within(maps, ci, length, (k - 1) as nat, cs);
        lemma_first_at_least_none(maps[k - 1].z_idx@, length);
    }
}

proof fn lemma_cubes_resolved_well_formed(cubes: Seq<RawCube>, n: nat)
    requires
        n <= cubes.len() <= usize::MAX,
        resolve_cubes(cubes, n) matches Some(Ok(_)),
    ensures
        ({
            let (cs, ls, off) = resolve_cubes(cubes, n)->Some_0->Ok_0;
            &&& cs.len() == n
            &&& 0 <= off <= usize::MAX
            &&& cubes_laid_out(cs, off)
            &&& forall|i: int| 0 <= i < ls.len() ==> listener_within(#[trigger] ls[i], cs)
        }),
    decreases n,
{
    if n > 0 {
        lemma_cubes_resolved_well_formed(cubes, (n - 1) as nat);
        let (cs0, ls0, off0) = resolve_cubes(cubes, (n - 1) as nat)->Some_0->Ok_0;
        let rc = cubes[n - 1];
        let ci = (n - 1) as usize;
        let (w, h, l) = geometry_value(rc.dimensions@)->Ok_0;
        let cube = Cube { width: w, height: h, length: l, offset: off0 as usize };
        let cs = cs0.push(cube);
        let new_ls = resolve_mappings(rc.artnet_mappings@, ci, l, rc.artnet_mappings@.len())->Ok_0;
        lemma_mappings_within(rc.artnet_mappings@, ci, l, rc.artnet_mappings@.len(), cs);
        assert(w * h * l >= 0) by (nonlinear_arith);
        assert forall|i: int| 0 <= i < ls0.len() + new_ls.len() implies listener_within(
            #[trigger] (ls0 + new_ls)[i],
            cs,
        ) by {
            if i < ls0.len() {
                assert(listener_within(ls0[i], cs0));
                assert(cs[ls0[i].cube_index as int] == cs0[ls0[i].cube_index as int]);
            } else {
                assert((ls0 + new_ls)[i] == new_ls[i - ls0.len()]);
            }
        }
        assert forall|k: int| 0 <= k < cs.len() - 1 implies #[trigger] cs[k + 1].offset
            == cs[k].offset + cs[k].spec_voxel_count() by {
            if k < cs0.len() - 1 {
                assert(cs[k + 1] == cs0[k + 1]);
            }
        }
    }
}

/// Every configuration that resolves is well formed: its cubes lie one after
/// another from voxel 0 and fill exactly `num_voxels` voxels, and each
/// listener has a port, feeds an existing cube and names only z-layers inside
/// it.
pub proof fn lemma_resolved_config_well_formed(raw: RawConfig)
    ensures
        resolve_value(raw) matches Some(Ok(m)) ==> config_well_formed(m),
{
    if resolve_cubes(raw.cubes@, raw.cubes@.len()) matches Some(Ok(_)) {
        assert(raw.cubes@.len() == raw.cubes.len());
        lemma_cubes_resolved_well_formed(raw.cubes@, raw.cubes@.len());
    }
}

/// What a raw configuration resolves to; `None` where the total voxel count
/// leaves the range of `usize`.
pub open spec fn resolve_value(raw: RawConfig) -> Option<Result<ConfigModel, ConfigErrorModel>> {
    match geometry_value(raw.world_geometry@) {
        Err(e) => Some(Err(ConfigErrorModel::WorldGeometry { text: raw.world_geometry@, error: e })),
        Ok(world) => match resolve_cubes(raw.cubes@, raw.cubes@.len()) {
            None => None,
            Some(Err(e)) => Some(Err(e)),
            Some(Ok((cs, ls, off))) => if cs.len() == 0 {
                Some(Err(ConfigErrorModel::NoCubes))
            } else if ls.len() == 0 {
                Some(Err(ConfigErrorModel::NoListeners))
            } else {
                Some(
                    Ok(
                        ConfigModel {
                            cubes: cs,
                            listeners: ls,
                            num_voxels: off as usize,
                            world,
                        },
                    ),
                )
            },
        },
    }
}

pub open spec fn config_result_view(r: Result<Config, ConfigError>) -> Result<
    ConfigModel,
    ConfigErrorModel,
> {
    match r {
        Ok(c) => Ok(c@),
        Err(e) => Err(e@),
    }
}

fn copy_indices(v: &Vec<usize>) -> (r: Vec<usize>)
    ensures
        r@ == v@,
{
    let mut r: Vec<usize> = Vec::new();
    let mut i: usize = 0;
    while i < v.len()
        invariant
            i <= v@.len(),
            r@ == v@.subrange(0, i as int),
        decreases v@.len() - i,
    {
        r.push(v[i]);
        i = i + 1;
        assert(r@ =~= v@.subrange(0, i as int));
    }
    assert(v@.subrange(0, v@.len() as int) =~= v@);
    r
}

/// Finds the first z-layer in `zs` that is at least `bound`.
fn find_at_least(zs: &Vec<usize>, bound: usize) -> (r: Option<usize>)
    ensures
        r == first_at_least(zs@, bound),
{
    let mut j: usize = 0;
    assert(zs@.subrange(0, zs@.len() as int) =~= zs@);
    while j < zs.len()
        invariant
            j <= zs@.len(),
            first_at_least(zs@, bound) == first_at_least(
                zs@.subrange(j as int, zs@.len() as int),
                bound,
            ),
        decreases zs@.len() - j,
    {
        let ghost rest = zs@.subrange(j as int, zs@.len() as int);
        assert(rest.drop_first() =~= zs@.subrange(j + 1, zs@.len() as int));
        if zs[j] >= bound {
            return Some(zs[j]);
        }
        j = j + 1;
    }
    None
}

/// Resolves the mappings of cube `ci` (of length `length`) into listeners.
fn resolve_cube_mappings(maps: &Vec<RawMapping>, ci: usize, length: usize) -> (r: Result<
    Vec<Listener>,
    ConfigError,
>)
    ensures
        match r {
            Ok(ls) => resolve_mappings(maps@, ci, length, maps@.len()) == Ok::<
                Seq<ListenerModel>,
                ConfigErrorModel,
            >(listener_views(ls@)),
            Err(e) => resolve_mappings(maps@, ci, length, maps@.len()) == Err::<
                Seq<ListenerModel>,
                ConfigErrorModel,
            >(e@),
        },
{
    let mut out: Vec<Listener> = Vec::new();
    let mut k: usize = 0;
    assert(listener_views(out@) =~= Seq::<ListenerModel>::empty());
    while k < maps.len()
        invariant
            k <= maps@.len(),
            resolve_mappings(maps@, ci, length, k as nat) == Ok::<
                Seq<ListenerModel>,
                ConfigErrorModel,
            >(listener_views(out@)),
        decreases maps@.len() - k,
    {
        let m = &maps[k];
        if m.port == 0 {
            proof {
                lemma_mappings_error_persists(maps@, ci, length, (k + 1) as nat, maps@.len());
            }
            return Err(ConfigError::MissingPort { cube: ci, ip: m.ip.clone() });
        }
        match find_at_least(&m.z_idx, length) {
            Some(z) => {
                proof {
                    lemma_mappings_error_persists(maps@, ci, length, (k + 1) as nat, maps@.len());
                }
                return Err(ConfigError::ZOutOfRange { cube: ci, ip: m.ip.clone(), z, length });
            },
            None => {},
        }
        let listener = Listener {
            ip: m.ip.clone(),
            port: m.port,
            cube_index: ci,
            z_indices: copy_indices(&m.z_idx),
        };
        let ghost before = out@;
        out.push(listener);
        assert(listener_views(out@) =~= listener_views(before).push(listener@));
        k = k + 1;
    }
    Ok(out)
}

impl RawConfig {
    /// Resolves the configuration, or says (`None`) that its total voxel count
    /// leaves the range of `usize`.
    pub fn try_resolve(&self) -> (r: Option<Result<Config, ConfigError>>)
        ensures
            match r {
                None => resolve_value(*self) is None,
                Some(res) => resolve_value(*self) == Some(config_result_view(res)),
            },
    {
        let world = match parse_geometry(self.world_geometry.as_str()) {
            Ok(g) => g,
            Err(e) => {
                return Some(
                    Err(ConfigError::WorldGeometry { text: self.world_geometry.clone(), error: e }),
                );
            },
        };
        let mut cubes: Vec<Cube> = Vec::new();
        let mut listeners: Vec<Listener> = Vec::new();
        let mut offset: usize = 0;
        let mut ci: usize = 0;
        assert(listener_views(listeners@) =~= Seq::<ListenerModel>::empty());
        while ci < self.cubes.len()
            invariant
                ci <= self.cubes@.len(),
                geometry_value(self.world_geometry@) == Ok::<
                    (usize, usize, usize),
                    GeometryErrorModel,
                >(world),
                resolve_cubes(self.cubes@, ci as nat) == Some(
                    Ok::<(Seq<Cube>, Seq<ListenerModel>, int), ConfigErrorModel>(
                        (cubes@, listener_views(listeners@), offset as int),
                    ),
                ),
            decreases self.cubes@.len() - ci,
        {
            let rc = &self.cubes[ci];
            let (w, h, l) = match parse_geometry(rc.dimensions.as_str()) {
                Ok(g) => g,
                Err(e) => {
                    let text = rc.dimensions.clone();
                    assert(resolve_cubes(self.cubes@, (ci + 1) as nat) == Some(
                        Err::<(Seq<Cube>, Seq<ListenerModel>, int), ConfigErrorModel>(
                            ConfigErrorModel::CubeDimensions { cube: ci, text: text@, error: e@ },
                        ),
                    ));
                    proof {
                        lemma_cubes_stop_persists(self.cubes@, (ci + 1) as nat, self.cubes@.len());
                    }
                    return Some(Err(ConfigError::CubeDimensions { cube: ci, text, error: e }));
                },
            };
            let mut new_listeners = match resolve_cube_mappings(&rc.artnet_mappings, ci, l) {
                Ok(ls) => ls,
                Err(e) => {
                    proof {
                        lemma_cubes_stop_persists(self.cubes@, (ci + 1) as nat, self.cubes@.len());
                    }
                    return Some(Err(e));
                },
            };
            let area = match w.checked_mul(h) {
                Some(a) => a,
                None => {
                    proof {
                        lemma_cubes_stop_persists(self.cubes@, (ci + 1) as nat, self.cubes@.len());
                    }
                    return None;
                },
            };
            let count = match area.checked_mul(l) {
                Some(c) => c,
                None => {
                    assert(offset + w * h * l > usize::MAX) by (nonlinear_arith)
                        requires
                            area == w * h,
                            area * l > usize::MAX,
                            offset >= 0,
                    ;
                    proof {
                        lemma_cubes_stop_persists(self.cubes@, (ci + 1) as nat, self.cubes@.len());
                    }
                    return None;
                },
            };
            let next_offset = match offset.checked_add(count) {
                Some(o) => o,
                None => {
                    proof {
                        lemma_cubes_stop_persists(self.cubes@, (ci + 1) as nat, self.cubes@.len());
                    }
                    return None;
                },
            };
            let ghost ls_before = listeners@;
            let ghost new_before = new_listeners@;
            cubes.push(Cube { width: w, height: h, length: l, offset });
            listeners.append(&mut new_listeners);
            assert(listener_views(listeners@) =~= listener_views(ls_before) + listener_views(
                new_before,
            ));
            offset = next_offset;
            ci = ci + 1;
        }
        assert(self.cubes@.len() == ci);
        if cubes.len() == 0 {
            return Some(Err(ConfigError::NoCubes));
        }
        if listeners.len() == 0 {
            return Some(Err(ConfigError::NoListeners));
        }
        Some(Ok(Config { cubes, listeners, num_voxels: offset, world }))
    }

    /// Resolves the configuration: parses every geometry string, checks every
    /// mapping's port and z-layers, and lays the cubes out one after another in
    /// the voxel buffer.
    pub fn resolve(&self) -> (r: Result<Config, ConfigError>)
        requires
            resolve_value(*self) is Some,
        ensures
            resolve_value(*self) == Some(config_result_view(r)),
    {
        match self.try_resolve() {
            Some(r) => r,
            None => {
                assert(false);
                Err(ConfigError::NoCubes)
            },
        }
    }
}

// --- Laws ------------------------------------------------------------------

/// A port written as the decimal text of `p` (`0 <= p <= 65535`) is port `p`,
/// the same port as the JSON number `p`.
pub proof fn lemma_port_text_is_number(s: String, p: u16)
    requires
        s@ == decimal_text(p as nat),
    ensures
        port_value_result(PortValue::Text(s)) == Ok::<u16, PortError>(p),
        port_value_result(PortValue::Number(Some(p as u64))) == Ok::<u16, PortError>(p),
{
    lemma_parse_decimal_text(p as nat, u16::MAX as int);
}

/// A JSON number is a port exactly when it is an integer in `0..=65535`, and
/// then it is that port.
pub proof fn lemma_port_number(n: Option<u64>)
    ensures
        port_value_result(PortValue::Number(n)) is Ok <==> (n matches Some(x) && x <= 65535),
        port_value_result(PortValue::Number(n)) matches Ok(p) ==> n == Some(p as u64),
{
}

/// Appending text without separators extends the last part.
proof fn lemma_split_append_plain(p: Seq<char>, s: Seq<char>, sep: char)
    requires
        forall|i: int| 0 <= i < s.len() ==> s[i] != sep,
    ensures
        split_on(p + s, sep) == split_on(p, sep).update(
            split_on(p, sep).len() - 1,
            split_on(p, sep).last() + s,
        ),
    decreases s.len(),
{
    lemma_split_on_nonempty(p, sep);
    if s.len() == 0 {
        assert(p + s =~= p);
        assert(split_on(p, sep).last() + s =~= split_on(p, sep).last());
        assert(split_on(p, sep).update(split_on(p, sep).len() - 1, split_on(p, sep).last())
            =~= split_on(p, sep));
    } else {
        lemma_split_append_plain(p, s.drop_last(), sep);
        assert((p + s).drop_last() =~= p + s.drop_last());
        assert((p + s).last() == s.last());
        let q = split_on(p, sep);
        let r = split_on(p + s.drop_last(), sep);
        assert(s.last() != sep);
        assert(r == q.update(q.len() - 1, q.last() + s.drop_last()));
        assert(r.len() == q.len());
        assert(r.last() == q.last() + s.drop_last());
        assert(split_on(p + s, sep) == r.update(r.len() - 1, r.last().push(s.last())));
        assert(q.last() + s.drop_last() + seq![s.last()] =~= q.last() + s);
        assert(r.last().push(s.last()) =~= q.last() + s);
        assert(split_on(p + s, sep) =~= q.update(q.len() - 1, q.last() + s));
    }
}

/// Splitting `a x b x c`, where no part holds an `x`, yields the three parts in
/// order.
pub proof fn lemma_split_three(a: Seq<char>, b: Seq<char>, c: Seq<char>)
    requires
        forall|i: int| 0 <= i < a.len() ==> a[i] != 'x',
        forall|i: int| 0 <= i < b.len() ==> b[i] != 'x',
        forall|i: int| 0 <= i < c.len() ==> c[i] != 'x',
    ensures
        split_on(a + seq!['x'] + b + seq!['x'] + c, 'x') == seq![a, b, c],
{
    let e = Seq::<char>::empty();
    lemma_split_append_plain(e, a, 'x');
    assert(e + a =~= a);
    assert(split_on(a, 'x') =~= seq![a]);
    let a1 = a + seq!['x'];
    assert(a1.drop_last() =~= a);
    assert(split_on(a1, 'x') =~= seq![a, e]);
    lemma_split_append_plain(a1, b, 'x');
    assert(split_on(a1 + b, 'x') =~= seq![a, b]);
    let b1 = a1 + b + seq!['x'];
    assert(b1.drop_last() =~= a1 + b);
    assert(split_on(b1, 'x') =~= seq![a, b, e]);
    lemma_split_append_plain(b1, c, 'x');
    assert(split_on(b1 + c, 'x') =~= seq![a, b, c]);
    assert(b1 + c =~= a + seq!['x'] + b + seq!['x'] + c);
}

/// The geometry `a x b x c` (no part holding an `x`) is read part by part, in
/// order: width from the first part, height from the second, length from the
/// third; the first part that is not a decimal `usize` is the error.
pub proof fn lemma_geometry_in_order(a: Seq<char>, b: Seq<char>, c: Seq<char>)
    requires
        forall|i: int| 0 <= i < a.len() ==> a[i] != 'x',
        forall|i: int| 0 <= i < b.len() ==> b[i] != 'x',
        forall|i: int| 0 <= i < c.len() ==> c[i] != 'x',
    ensures
        ({
            let g = geometry_value(a + seq!['x'] + b + seq!['x'] + c);
            let m = usize::MAX as int;
            &&& parse_unsigned(a, m) is Err ==> g == Err::<(usize, usize, usize), GeometryErrorModel>(
                GeometryErrorModel::BadInteger(a),
            )
            &&& (parse_unsigned(a, m) is Ok && parse_unsigned(b, m) is Err) ==> g == Err::<
                (usize, usize, usize),
                GeometryErrorModel,
            >(GeometryErrorModel::BadInteger(b))
            &&& (parse_unsigned(a, m) is Ok && parse_unsigned(b, m) is Ok && parse_unsigned(c, m) is Err)
                ==> g == Err::<(usize, usize, usize), GeometryErrorModel>(
                GeometryErrorModel::BadInteger(c),
            )
            &&& parse_unsigned(a, m) matches Ok(w) ==> (parse_unsigned(b, m) matches Ok(h) ==> (
            parse_unsigned(c, m) matches Ok(l) ==> g == Ok::<
                (usize, usize, usize),
                GeometryErrorModel,
            >((w as usize, h as usize, l as usize))))
        }),
{
    lemma_split_three(a, b, c);
}

proof fn lemma_decimal_text_has_no_x(p: nat)
    ensures
        forall|i: int| 0 <= i < decimal_text(p).len() ==> decimal_text(p)[i] != 'x',
{
    lemma_decimal_text_shape(p);
    assert forall|i: int| 0 <= i < decimal_text(p).len() implies decimal_text(p)[i] != 'x' by {
        assert(crate::decimal::is_decimal_digit(decimal_text(p)[i]));
    }
}

/// The geometry written `WxHxL` in decimal is `(W, H, L)`.
pub proof fn lemma_geometry_decimal(w: usize, h: usize, l: usize)
    ensures
        geometry_value(
            decimal_text(w as nat) + seq!['x'] + decimal_text(h as nat) + seq!['x'] + decimal_text(
                l as nat,
            ),
        ) == Ok::<(usize, usize, usize), GeometryErrorModel>((w, h, l)),
{
    lemma_decimal_text_has_no_x(w as nat);
    lemma_decimal_text_has_no_x(h as nat);
    lemma_decimal_text_has_no_x(l as nat);
    lemma_parse_decimal_text(w as nat, usize::MAX as int);
    lemma_parse_decimal_text(h as nat, usize::MAX as int);
    lemma_parse_decimal_text(l as nat, usize::MAX as int);
    lemma_geometry_in_order(decimal_text(w as nat), decimal_text(h as nat), decimal_text(l as nat));
}

/// A configuration that resolves keeps the world geometry its
/// `world_geometry` string declares.
pub proof fn lemma_resolved_world(raw: RawConfig)
    ensures
        resolve_value(raw) matches Some(Ok(m)) ==> geometry_value(raw.world_geometry@) == Ok::<
            (usize, usize, usize),
            GeometryErrorModel,
        >(m.world),
{
}

/// A configuration whose `world_geometry` reads `WxHxL` in decimal resolves,
/// when it does, to the world `(W, H, L)`.
pub proof fn lemma_resolved_world_decimal(raw: RawConfig, w: usize, h: usize, l: usize)
    requires
        raw.world_geometry@ == decimal_text(w as nat) + seq!['x'] + decimal_text(h as nat) + seq![
            'x',
        ] + decimal_text(l as nat),
    ensures
        resolve_value(raw) matches Some(Ok(m)) ==> m.world == (w, h, l),
{
    lemma_resolved_world(raw);
    lemma_geometry_decimal(w, h, l);
}

/// The listener a mapping of cube `ci` describes.
pub open spec fn mapping_listener(m: RawMapping, ci: usize) -> ListenerModel {
    ListenerModel { ip: m.ip@, port: m.port, cube_index: ci, z_indices: m.z_idx@ }
}

/// Every mapping of the first `n` cubes, in document order, as listeners.
pub open spec fn document_listeners(cubes: Seq<RawCube>, n: nat) -> Seq<ListenerModel>
    decreases n,
{
    if n == 0 {
        Seq::empty()
    } else {
        document_listeners(cubes, (n - 1) as nat) + cubes[n - 1].artnet_mappings@.map_values(
            |m: RawMapping| mapping_listener(m, (n - 1) as usize),
        )
    }
}

proof fn lemma_mappings_listeners(maps: Seq<RawMapping>, ci: usize, length: usize, k: nat)
    requires
        k <= maps.len(),
        resolve_mappings(maps, ci, length, k) is Ok,
    ensures
        resolve_mappings(maps, ci, length, k)->Ok_0 == maps.take(k as int).map_values(
            |m: RawMapping| mapping_listener(m, ci),
        ),
    decreases k,
{
    if k > 0 {
        lemma_mappings_listeners(maps, ci, length, (k - 1) as nat);
        assert(maps.take(k as int).drop_last() =~= maps.take(k - 1));
        assert(maps.take(k as int).map_values(|m: RawMapping| mapping_listener(m, ci)) =~= maps.take(
            k - 1,
        ).map_values(|m: RawMapping| mapping_listener(m, ci)).push(mapping_listener(maps[k - 1], ci)));
    } else {
        assert(maps.take(0).map_values(|m: RawMapping| mapping_listener(m, ci)) =~= Seq::<
            ListenerModel,
        >::empty());
    }
}

proof fn lemma_cubes_follow_document(cubes: Seq<RawCube>, n: nat)
    requires
        n <= cubes.len() <= usize::MAX,
        resolve_cubes(cubes, n) matches Some(Ok(_)),
    ensures
        ({
            let (cs, ls, off) = resolve_cubes(cubes, n)->Some_0->Ok_0;
            &&& cs.len() == n
            &&& ls == document_listeners(cubes, n)
            &&& forall|i: int|
                0 <= i < n ==> geometry_value(cubes[i].dimensions@) == Ok::<
                    (usize, usize, usize),
                    GeometryErrorModel,
                >((#[trigger] cs[i].width, cs[i].height, cs[i].length))
        }),
    decreases n,
{
    if n > 0 {
        lemma_cubes_follow_document(cubes, (n - 1) as nat);
        let rc = cubes[n - 1];
        let (w, h, l) = geometry_value(rc.dimensions@)->Ok_0;
        let maps = rc.artnet_mappings@;
        lemma_mappings_listeners(maps, (n - 1) as usize, l, maps.len());
        assert(maps.take(maps.len() as int) =~= maps);
        let (cs, ls, off) = resolve_cubes(cubes, n)->Some_0->Ok_0;
        let (cs0, ls0, off0) = resolve_cubes(cubes, (n - 1) as nat)->Some_0->Ok_0;
        assert forall|i: int| 0 <= i < n implies geometry_value(cubes[i].dimensions@) == Ok::<
            (usize, usize, usize),
            GeometryErrorModel,
        >((#[trigger] cs[i].width, cs[i].height, cs[i].length)) by {
            if i < n - 1 {
                assert(cs[i] == cs0[i]);
            }
        }
    }
}

/// A configuration that resolves keeps the document: one cube per raw cube,
/// in order, each with the width, height and length its `dimensions` string
/// declares, and one listener per mapping, in document order, carrying that
/// mapping's ip, port and z-layers and the index of its cube.
pub proof fn lemma_resolved_follows_document(raw: RawConfig)
    ensures
        resolve_value(raw) matches Some(Ok(m)) ==> {
            &&& m.cubes.len() == raw.cubes@.len()
            &&& m.listeners == document_listeners(raw.cubes@, raw.cubes@.len())
            &&& forall|i: int|
                0 <= i < m.cubes.len() ==> geometry_value(raw.cubes@[i].dimensions@) == Ok::<
                    (usize, usize, usize),
                    GeometryErrorModel,
                >((#[trigger] m.cubes[i].width, m.cubes[i].height, m.cubes[i].length))
        },
{
    if resolve_value(raw) matches Some(Ok(m)) {
        assert(raw.cubes@.len() == raw.cubes.len());
        lemma_cubes_follow_document(raw.cubes@, raw.cubes@.len());
    }
}

} // verus!
