//! Reassembles decoded Art-Net universes into a flat voxel volume.
//!
//! The published buffer is in `(z, y, x)` raster order per cube, with cubes
//! concatenated in configuration order: voxel `(x, y, z)` of a cube lives at
//! `cube.offset + z*W*H + y*W + x`. A z-layer of `W*H` pixels travels as
//! consecutive universes of 170 RGB pixels each; universe `u` of a listener
//! addresses layer `z_indices[u / upl]`, pixels from `(u % upl) * 170` on.

use vstd::prelude::*;

use crate::artnet::{decode, min_int, parse, Packet, PacketModel};
use crate::shmem::frame_bytes;
use crate::config::{
    config_well_formed, cubes_laid_out, listener_within, Config, ConfigModel, Cube, Listener,
    ListenerModel,
};

verus! {

pub type Rgb = [u8; 3];

/// Number of RGB pixels carried by one full 510-channel universe.
pub const PIXELS_PER_UNIVERSE: usize = 170;

/// Default universes per z-layer: enough for a 20×20 = 400-pixel
/// cross-section (ceil(400/170) = 3).
pub const DEFAULT_UNIVERSES_PER_LAYER: usize = 3;

pub struct Volume {
    cubes: Vec<Cube>,
    universes_per_layer: usize,
    /// Frame currently being filled by incoming ArtDmx packets.
    work: Vec<Rgb>,
}

pub struct VolumeModel {
    pub cubes: Seq<Cube>,
    pub universes_per_layer: usize,
    pub work: Seq<Rgb>,
}

impl View for Volume {
    type V = VolumeModel;

    closed spec fn view(&self) -> VolumeModel {
        VolumeModel {
            cubes: self.cubes@,
            universes_per_layer: self.universes_per_layer,
            work: self.work@,
        }
    }
}

/// The RGB pixel `j` of a channel sequence.
pub open spec fn rgb_at(data: Seq<u8>, j: int) -> Rgb {
    [data[3 * j], data[3 * j + 1], data[3 * j + 2]]
}

/// Index of the z-layer entry that `universe` addresses.
pub open spec fn layer_of(v: VolumeModel, universe: u16) -> int {
    universe as int / v.universes_per_layer as int
}

/// First pixel, within its layer, that `universe` carries.
pub open spec fn start_pixel(v: VolumeModel, universe: u16) -> int {
    (universe as int % v.universes_per_layer as int) * PIXELS_PER_UNIVERSE
}

/// Flat index where z-layer `z` of `cube` begins.
pub open spec fn layer_base(cube: Cube, z: int) -> int {
    cube.offset + z * cube.width * cube.height
}

/// Whether an ArtDmx packet for `universe` carrying `data` can be applied
/// through `listener` without an arithmetic overflow or an out-of-range
/// lookup: the layer count must be positive, and where the universe addresses
/// a layer of the listener, its cube must exist and every index computed on
/// the way must fit in `usize`, up to the last pixel written, which is pixel
/// `min(start + n, lp) - 1` of the layer when the packet carries `n > 0`
/// pixels from `start < lp` on.
pub open spec fn dmx_accepted(
    v: VolumeModel,
    listener: ListenerModel,
    universe: u16,
    data: Seq<u8>,
) -> bool {
    &&& v.universes_per_layer > 0
    &&& layer_of(v, universe) < listener.z_indices.len() ==> {
        let cube = v.cubes[listener.cube_index as int];
        let z = listener.z_indices[layer_of(v, universe)] as int;
        let lp = cube.width * cube.height;
        let start = start_pixel(v, universe);
        let n = data.len() / 3;
        &&& listener.cube_index < v.cubes.len()
        &&& lp <= usize::MAX
        &&& z * cube.width <= usize::MAX
        &&& z * cube.width * cube.height <= usize::MAX
        &&& layer_base(cube, z) <= usize::MAX
        &&& (n > 0 && start < lp) ==> layer_base(cube, z) + crate::artnet::min_int(start + n, lp)
            - 1 <= usize::MAX
    }
}

pub open spec fn packet_accepted(v: VolumeModel, listener: ListenerModel, p: PacketModel) -> bool {
    match p {
        PacketModel::Dmx { universe, data } => dmx_accepted(v, listener, universe, data),
        PacketModel::Sync => true,
    }
}

/// The frame after an ArtDmx packet for `universe` carrying `data` arrives
/// through `listener`: pixel `j` of the packet lands on voxel
/// `layer_base + start + j` of the addressed layer, for every complete RGB
/// triple whose pixel lies inside the layer; a universe that addresses a
/// layer the listener does not own changes nothing.
pub open spec fn dmx_applied(
    v: VolumeModel,
    listener: ListenerModel,
    universe: u16,
    data: Seq<u8>,
) -> Seq<Rgb> {
    if layer_of(v, universe) >= listener.z_indices.len() {
        v.work
    } else {
        let cube = v.cubes[listener.cube_index as int];
        let z = listener.z_indices[layer_of(v, universe)] as int;
        let base = layer_base(cube, z);
        let start = start_pixel(v, universe);
        let lp = cube.width * cube.height;
        let n = data.len() / 3;
        Seq::new(
            v.work.len(),
            |k: int|
                if base + start <= k && k < base + start + n && k < base + lp {
                    rgb_at(data, k - base - start)
                } else {
                    v.work[k]
                },
        )
    }
}

/// The volume after `p` arrives through `listener`.
pub open spec fn packet_applied(v: VolumeModel, listener: ListenerModel, p: PacketModel) -> VolumeModel {
    match p {
        PacketModel::Dmx { universe, data } => VolumeModel {
            work: dmx_applied(v, listener, universe, data),
            ..v
        },
        PacketModel::Sync => v,
    }
}

/// What the receive loop does with one datagram.
#[derive(Debug, Clone, Copy, PartialEq, Eq, Structural)]
pub enum Step {
    /// Not an ArtDmx or ArtSync packet: nothing happens.
    Ignored,
    /// An ArtDmx packet: its universe was written into the frame.
    Applied,
    /// An ArtSync packet: the accumulated frame must be published now.
    Publish,
}

impl Volume {
    /// A dark frame of `config.num_voxels` voxels over the cubes of `config`.
    pub fn new(config: &Config, universes_per_layer: usize) -> (v: Volume)
        ensures
            v@.cubes == config@.cubes,
            v@.universes_per_layer == universes_per_layer,
            v@.work == Seq::new(config.num_voxels as nat, |k: int| [0u8, 0u8, 0u8]),
    {
        let mut cubes: Vec<Cube> = Vec::new();
        let mut i: usize = 0;
        while i < config.cubes.len()
            invariant
                i <= config.cubes@.len(),
                cubes@ == config.cubes@.subrange(0, i as int),
            decreases config.cubes@.len() - i,
        {
            let c = &config.cubes[i];
            cubes.push(Cube { width: c.width, height: c.height, length: c.length, offset: c.offset });
            i = i + 1;
            assert(cubes@ =~= config.cubes@.subrange(0, i as int));
        }
        assert(config.cubes@.subrange(0, config.cubes@.len() as int) =~= config.cubes@);
        let mut work: Vec<Rgb> = Vec::new();
        let mut k: usize = 0;
        while k < config.num_voxels
            invariant
                k <= config.num_voxels,
                work@ == Seq::new(k as nat, |q: int| [0u8, 0u8, 0u8]),
            decreases config.num_voxels - k,
        {
            work.push([0u8, 0u8, 0u8]);
            k = k + 1;
            assert(work@ =~= Seq::new(k as nat, |q: int| [0u8, 0u8, 0u8]));
        }
        Volume { cubes, universes_per_layer, work }
    }

    /// Number of voxels in the frame.
    pub fn num_voxels(&self) -> (n: usize)
        ensures
            n == self@.work.len(),
    {
        self.work.len()
    }

    /// The in-progress frame, `(z, y, x)` order, cubes concatenated.
    pub fn work(&self) -> (w: &[Rgb])
        ensures
            w@ == self@.work,
    {
        self.work.as_slice()
    }

    /// Whether `packet` can be applied through `listener` (see
    /// `dmx_accepted`).
    pub fn accepts(&self, listener: &Listener, packet: &Packet) -> (r: bool)
        ensures
            r == packet_accepted(self@, listener@, packet@),
    {
        match packet {
            Packet::Sync => true,
            Packet::Dmx { universe, data } => {
                let upl = self.universes_per_layer;
                if upl == 0 {
                    return false;
                }
                let universe = *universe as usize;
                let layer = universe / upl;
                if layer >= listener.z_indices.len() {
                    return true;
                }
                if listener.cube_index >= self.cubes.len() {
                    return false;
                }
                let z = listener.z_indices[layer];
                let cube = &self.cubes[listener.cube_index];
                let (w, h) = (cube.width, cube.height);
                let lp = match w.checked_mul(h) {
                    Some(a) => a,
                    None => {
                        return false;
                    },
                };
                let zw = match z.checked_mul(w) {
                    Some(a) => a,
                    None => {
                        return false;
                    },
                };
                let zwh = match zw.checked_mul(h) {
                    Some(a) => a,
                    None => {
                        return false;
                    },
                };
                let base = match cube.offset.checked_add(zwh) {
                    Some(a) => a,
                    None => {
                        return false;
                    },
                };
                proof {
                    vstd::arithmetic::div_mod::lemma_mod_decreases(universe as nat, upl as nat);
                }
                let start = (universe % upl) * PIXELS_PER_UNIVERSE;
                let n = data.len() / 3;
                if n == 0 || start >= lp {
                    return true;
                }
                // The last pixel written is the smaller of `start + n - 1`
                // and `lp - 1`.
                let last = if start + n < lp { start + n - 1 } else { lp - 1 };
                let ok = base <= usize::MAX - last;
                ok
            },
        }
    }

    /// Apply one decoded packet for a given listener. `Sync` is a no-op here:
    /// the caller decides when to publish (latch) the frame.
    pub fn apply(&mut self, listener: &Listener, packet: &Packet)
        requires
            packet_accepted(old(self)@, listener@, packet@),
        ensures
            final(self)@ == packet_applied(old(self)@, listener@, packet@),
    {
        if let Packet::Dmx { universe, data } = packet {
            self.apply_dmx(listener, *universe, data);
        }
    }

    fn apply_dmx(&mut self, listener: &Listener, universe: u16, data: &[u8])
        requires
            dmx_accepted(old(self)@, listener@, universe, data@),
        ensures
            final(self)@ == (VolumeModel {
                work: dmx_applied(old(self)@, listener@, universe, data@),
                ..old(self)@
            }),
    {
        let ghost v = self@;
        let upl = self.universes_per_layer;
        let universe = universe as usize;

        // Which entry in this listener's z_indices does the universe address?
        let layer = universe / upl;
        if layer >= listener.z_indices.len() {
            // A layer this controller doesn't own: dropped.
            return;
        }
        let actual_z = listener.z_indices[layer];

        let universe_in_layer = universe % upl;
        proof {
            vstd::arithmetic::div_mod::lemma_mod_decreases(universe as nat, upl as nat);
            vstd::arithmetic::div_mod::lemma_fundamental_div_mod(data@.len() as int, 3);
        }
        let start_pixel_in_layer = universe_in_layer * PIXELS_PER_UNIVERSE;

        let cube = &self.cubes[listener.cube_index];
        let (w, h) = (cube.width, cube.height);
        let layer_pixels = w * h;
        let layer_base = cube.offset + actual_z * w * h;
        let ghost base = layer_base as int;
        let ghost start = start_pixel_in_layer as int;

        let n = data.len() / 3;
        let mut j: usize = 0;
        while j < n
            invariant
                n == data@.len() / 3,
                3 * n <= data@.len(),
                j <= n,
                listener.cube_index < v.cubes.len(),
                w * h == layer_pixels,
                w == v.cubes[listener.cube_index as int].width,
                base == layer_base,
                start == start_pixel_in_layer,
                start <= 65535 * 170,
                data@.len() <= usize::MAX,
                (n > 0 && start < layer_pixels) ==> base + crate::artnet::min_int(
                    start + n,
                    layer_pixels as int,
                ) - 1 <= usize::MAX,
                self.cubes@ == v.cubes,
                self.universes_per_layer == v.universes_per_layer,
                self.work@.len() == v.work.len(),
                forall|k: int|
                    0 <= k < v.work.len() ==> #[trigger] self.work@[k] == if base + start <= k
                        && k < base + start + j && k < base + layer_pixels {
                        rgb_at(data@, k - base - start)
                    } else {
                        v.work[k]
                    },
            decreases n - j,
        {
            let idx_in_layer = start_pixel_in_layer + j;
            if idx_in_layer < layer_pixels {
                let x = idx_in_layer % w;
                let y = idx_in_layer / w;
                proof {
                    vstd::arithmetic::div_mod::lemma_fundamental_div_mod(
                        idx_in_layer as int,
                        w as int,
                    );
                    vstd::arithmetic::mul::lemma_mul_is_commutative(y as int, w as int);
                    assert(base + start + j <= usize::MAX);
                }
                let pixel_index = layer_base + x + y * w;
                assert(pixel_index == base + start + j);
                if pixel_index < self.work.len() {
                    self.work.set(pixel_index, [data[3 * j], data[3 * j + 1], data[3 * j + 2]]);
                }
            }
            j = j + 1;
        }
        assert(self.work@ =~= dmx_applied(v, listener@, universe as u16, data@));
    }

    /// One step of the receive loop: decode `datagram`, write an ArtDmx
    /// universe into the frame, and report an ArtSync as the moment to publish.
    pub fn receive(&mut self, listener: &Listener, datagram: &[u8]) -> (s: Step)
        requires
            decode(datagram@) matches Some(p) ==> packet_accepted(old(self)@, listener@, p),
        ensures
            match decode(datagram@) {
                None => s == Step::Ignored && final(self)@ == old(self)@,
                Some(PacketModel::Sync) => s == Step::Publish && final(self)@ == old(self)@,
                Some(p) => s == Step::Applied && final(self)@ == packet_applied(
                    old(self)@,
                    listener@,
                    p,
                ),
            },
    {
        match parse(datagram) {
            None => Step::Ignored,
            Some(Packet::Sync) => Step::Publish,
            Some(packet) => {
                self.apply(listener, &packet);
                Step::Applied
            },
        }
    }
}

/// Each cube ends no later than the buffer does.
pub proof fn lemma_cube_inside_buffer(cs: Seq<Cube>, total: int, k: int)
    requires
        cubes_laid_out(cs, total),
        0 <= k < cs.len(),
    ensures
        cs[k].offset + cs[k].spec_voxel_count() <= total,
    decreases cs.len() - k,
{
    if k < cs.len() - 1 {
        lemma_cube_inside_buffer(cs, total, k + 1);
        let c = cs[k + 1];
        assert(c.width * c.height * c.length >= 0) by (nonlinear_arith);
        assert(cs[k + 1].offset == cs[k].offset + cs[k].spec_voxel_count());
    }
}

/// Every listener of a well-formed configuration can feed any ArtDmx packet
/// into a volume built over that configuration (with a positive layer count):
/// every index the mapping computes fits in `usize` and every lookup is in
/// range. The one intermediate product a well-formed configuration does not
/// bound, `z * width` (unbounded only for a cube of height 0), must fit.
pub proof fn lemma_listener_accepted(
    m: ConfigModel,
    v: VolumeModel,
    li: int,
    universe: u16,
    data: Seq<u8>,
)
    requires
        config_well_formed(m),
        v.cubes == m.cubes,
        v.universes_per_layer > 0,
        0 <= li < m.listeners.len(),
        forall|q: int|
            0 <= q < m.listeners[li].z_indices.len() ==> #[trigger] m.listeners[li].z_indices[q]
                * m.cubes[m.listeners[li].cube_index as int].width <= usize::MAX,
    ensures
        dmx_accepted(v, m.listeners[li], universe, data),
{
    let l = m.listeners[li];
    assert(listener_within(l, m.cubes));
    if layer_of(v, universe) < l.z_indices.len() {
        let cube = m.cubes[l.cube_index as int];
        let z = l.z_indices[layer_of(v, universe)] as int;
        let (w, h, len) = (cube.width as int, cube.height as int, cube.length as int);
        lemma_cube_inside_buffer(m.cubes, m.num_voxels as int, l.cube_index as int);
        assert(z < len);
        assert(z * w * h + w * h <= w * h * len) by (nonlinear_arith)
            requires
                0 <= z < len,
                0 <= w,
                0 <= h,
        ;
        assert(z * w * h >= 0 && w * h >= 0) by (nonlinear_arith)
            requires
                0 <= z,
                0 <= w,
                0 <= h,
        ;
        assert(z * w * h == z * cube.width * cube.height);
        vstd::arithmetic::div_mod::lemma_mod_pos_bound(universe as int, v.universes_per_layer as int);
        assert(m.cubes[l.cube_index as int].width * m.cubes[l.cube_index as int].height <= usize::MAX);
        assert(z * cube.width <= usize::MAX);
        assert(layer_base(cube, z) + w * h <= m.num_voxels);
        assert(start_pixel(v, universe) >= 0);
    }
}

/// An ArtDmx packet only ever changes voxels of the cube its listener feeds,
/// when it addresses a z-layer inside that cube.
pub proof fn lemma_dmx_stays_in_cube(
    v: VolumeModel,
    listener: ListenerModel,
    universe: u16,
    data: Seq<u8>,
    k: int,
)
    requires
        v.universes_per_layer > 0,
        listener.cube_index < v.cubes.len(),
        layer_of(v, universe) < listener.z_indices.len() ==> listener.z_indices[layer_of(
            v,
            universe,
        )] < v.cubes[listener.cube_index as int].length,
        0 <= k < v.work.len(),
        !(v.cubes[listener.cube_index as int].offset <= k < v.cubes[listener.cube_index as int].offset
            + v.cubes[listener.cube_index as int].spec_voxel_count()),
    ensures
        dmx_applied(v, listener, universe, data)[k] == v.work[k],
{
    if layer_of(v, universe) < listener.z_indices.len() {
        let cube = v.cubes[listener.cube_index as int];
        let z = listener.z_indices[layer_of(v, universe)] as int;
        let (w, h, len) = (cube.width as int, cube.height as int, cube.length as int);
        vstd::arithmetic::div_mod::lemma_mod_pos_bound(universe as int, v.universes_per_layer as int);
        assert(z * w * h + w * h <= w * h * len && z * w * h >= 0) by (nonlinear_arith)
            requires
                0 <= z < len,
                0 <= w,
                0 <= h,
        ;
        assert(z * w * h == z * cube.width * cube.height);
        assert(start_pixel(v, universe) >= 0);
        assert(w * h == cube.width * cube.height);
    }
}

/// Pixel `y*W + x` of a z-layer, when an ArtDmx packet carries it, lands on
/// voxel `(x, y, z)` of the cube, at `offset + z*W*H + y*W + x`.
pub proof fn lemma_dmx_lights_voxel(
    v: VolumeModel,
    listener: ListenerModel,
    universe: u16,
    data: Seq<u8>,
    x: int,
    y: int,
)
    requires
        v.universes_per_layer > 0,
        layer_of(v, universe) < listener.z_indices.len(),
        0 <= x < v.cubes[listener.cube_index as int].width,
        0 <= y < v.cubes[listener.cube_index as int].height,
        start_pixel(v, universe) <= y * v.cubes[listener.cube_index as int].width + x
            < start_pixel(v, universe) + data.len() / 3,
        layer_base(
            v.cubes[listener.cube_index as int],
            listener.z_indices[layer_of(v, universe)] as int,
        ) + y * v.cubes[listener.cube_index as int].width + x < v.work.len(),
    ensures
        ({
            let cube = v.cubes[listener.cube_index as int];
            let z = listener.z_indices[layer_of(v, universe)] as int;
            dmx_applied(v, listener, universe, data)[cube.offset + z * cube.width * cube.height + y
                * cube.width + x] == rgb_at(data, y * cube.width + x - start_pixel(v, universe))
        }),
{
    let cube = v.cubes[listener.cube_index as int];
    let (w, h) = (cube.width as int, cube.height as int);
    assert(y * w + x < w * h) by (nonlinear_arith)
        requires
            0 <= x < w,
            0 <= y < h,
    ;
}

/// The volume after the packets `ps` arrive through `listener`, in order.
pub open spec fn packets_applied(v: VolumeModel, listener: ListenerModel, ps: Seq<PacketModel>) -> VolumeModel
    decreases ps.len(),
{
    if ps.len() == 0 {
        v
    } else {
        packet_applied(packets_applied(v, listener, ps.drop_last()), listener, ps.last())
    }
}

/// How many universes a layer of `pixels` pixels takes: ceil(pixels / 170).
pub open spec fn universes_for(pixels: int) -> int {
    (pixels + PIXELS_PER_UNIVERSE - 1) / PIXELS_PER_UNIVERSE as int
}

/// The ArtDmx packets a sender emits for one z-layer: the layer's pixels in
/// `(y, x)` row-major order, 170 per universe, the universes numbered
/// consecutively from `first`.
pub open spec fn layer_packets(first: int, layer: Seq<Rgb>) -> Seq<PacketModel> {
    Seq::new(
        universes_for(layer.len() as int) as nat,
        |u: int|
            PacketModel::Dmx {
                universe: (first + u) as u16,
                data: frame_bytes(
                    layer.subrange(
                        PIXELS_PER_UNIVERSE * u,
                        min_int(PIXELS_PER_UNIVERSE * (u + 1), layer.len() as int),
                    ),
                ),
            },
    )
}

proof fn lemma_rgb_at_frame_bytes(px: Seq<Rgb>, j: int)
    requires
        0 <= j < px.len(),
    ensures
        rgb_at(frame_bytes(px), j) == px[j],
{
    assert forall|c: int| 0 <= c < 3 implies #[trigger] frame_bytes(px)[3 * j + c] == px[j][c] by {
        assert((3 * j + c) / 3 == j && (3 * j + c) % 3 == c) by (nonlinear_arith)
            requires
                0 <= c < 3,
        ;
    }
    assert(rgb_at(frame_bytes(px), j) =~= px[j]);
}

proof fn lemma_layer_prefix(
    v: VolumeModel,
    listener: ListenerModel,
    i: int,
    layer: Seq<Rgb>,
    m: nat,
)
    requires
        v.universes_per_layer > 0,
        0 <= i < listener.z_indices.len(),
        listener.cube_index < v.cubes.len(),
        layer.len() == v.cubes[listener.cube_index as int].width * v.cubes[listener.cube_index
            as int].height,
        universes_for(layer.len() as int) <= v.universes_per_layer,
        i * v.universes_per_layer + universes_for(layer.len() as int) <= 65536,
        m <= universes_for(layer.len() as int),
    ensures
        ({
            let r = packets_applied(
                v,
                listener,
                layer_packets(i * v.universes_per_layer, layer).take(m as int),
            );
            let base = layer_base(
                v.cubes[listener.cube_index as int],
                listener.z_indices[i] as int,
            );
            &&& r.cubes == v.cubes
            &&& r.universes_per_layer == v.universes_per_layer
            &&& r.work.len() == v.work.len()
            &&& forall|k: int|
                0 <= k < v.work.len() ==> #[trigger] r.work[k] == if base <= k < base + min_int(
                    PIXELS_PER_UNIVERSE * m,
                    layer.len() as int,
                ) {
                    layer[k - base]
                } else {
                    v.work[k]
                }
        }),
    decreases m,
{
    let upl = v.universes_per_layer as int;
    let first = i * upl;
    let ps = layer_packets(first, layer);
    let lp = layer.len() as int;
    let cube = v.cubes[listener.cube_index as int];
    let base = layer_base(cube, listener.z_indices[i] as int);
    if m == 0 {
        assert(ps.take(0) =~= Seq::<PacketModel>::empty());
    } else {
        lemma_layer_prefix(v, listener, i, layer, (m - 1) as nat);
        let u = m - 1;
        assert(ps.take(m as int).drop_last() =~= ps.take(u));
        assert(ps.take(m as int).last() == ps[u]);
        let prev = packets_applied(v, listener, ps.take(u));
        let universe = (first + u) as u16;
        vstd::arithmetic::div_mod::lemma_fundamental_div_mod_converse(first + u, upl, i, u);
        assert(i * upl >= 0) by (nonlinear_arith)
            requires
                i >= 0,
                upl > 0,
        ;
        assert(universe as int == first + u);
        assert(layer_of(prev, universe) == i);
        assert(start_pixel(prev, universe) == PIXELS_PER_UNIVERSE * u);
        // The packet's pixels start inside the layer.
        vstd::arithmetic::div_mod::lemma_fundamental_div_mod(lp + 169, 170);
        assert(PIXELS_PER_UNIVERSE * u < lp);
        let e = min_int(PIXELS_PER_UNIVERSE * (u + 1), lp);
        let chunk = layer.subrange(PIXELS_PER_UNIVERSE * u, e);
        let data = frame_bytes(chunk);
        assert(data.len() / 3 == chunk.len()) by {
            assert((3 * chunk.len()) / 3 == chunk.len()) by (nonlinear_arith);
        }
        assert forall|k: int| 0 <= k < v.work.len() implies #[trigger] packet_applied(
            prev,
            listener,
            ps[u],
        ).work[k] == if base <= k < base + e {
            layer[k - base]
        } else {
            v.work[k]
        } by {
            if base + PIXELS_PER_UNIVERSE * u <= k < base + e {
                let j = k - base - PIXELS_PER_UNIVERSE * u;
                lemma_rgb_at_frame_bytes(chunk, j);
            }
        }
    }
}

/// A z-layer sent as a sender sends it, one universe after another from the
/// first universe of its layer index, ends up exactly in that layer of the
/// cube: voxel `offset + z*W*H + p` holds pixel `p` of the layer, and no other
/// voxel changes. This holds where the layer fits in the listener's universes
/// per layer and the universe numbers fit in 16 bits.
pub proof fn lemma_layer_round_trip(v: VolumeModel, listener: ListenerModel, i: int, layer: Seq<Rgb>)
    requires
        v.universes_per_layer > 0,
        0 <= i < listener.z_indices.len(),
        listener.cube_index < v.cubes.len(),
        layer.len() == v.cubes[listener.cube_index as int].width * v.cubes[listener.cube_index
            as int].height,
        universes_for(layer.len() as int) <= v.universes_per_layer,
        i * v.universes_per_layer + universes_for(layer.len() as int) <= 65536,
    ensures
        ({
            let r = packets_applied(v, listener, layer_packets(i * v.universes_per_layer, layer));
            let base = layer_base(
                v.cubes[listener.cube_index as int],
                listener.z_indices[i] as int,
            );
            &&& r.work.len() == v.work.len()
            &&& forall|p: int|
                0 <= p < layer.len() && base + p < v.work.len() ==> #[trigger] r.work[base + p]
                    == layer[p]
            &&& forall|k: int|
                0 <= k < v.work.len() && !(base <= k < base + layer.len()) ==> #[trigger] r.work[k]
                    == v.work[k]
        }),
{
    let count = universes_for(layer.len() as int);
    assert(count >= 0);
    lemma_layer_prefix(v, listener, i, layer, count as nat);
    let ps = layer_packets(i * v.universes_per_layer, layer);
    assert(ps.take(count) =~= ps);
    vstd::arithmetic::div_mod::lemma_fundamental_div_mod(layer.len() as int + 169, 170);
    assert(min_int(PIXELS_PER_UNIVERSE * count, layer.len() as int) == layer.len());
}

/// An ArtDmx packet changes nothing but the frame, keeps its size, and changes
/// only voxels it carries: a voxel `k` that changes lies in the layer its
/// universe addresses, at `base + start + j` for a complete RGB triple `j` of
/// the data whose pixel `start + j` lies inside the layer, and it takes that
/// triple's colour. An ArtSync changes nothing.
pub proof fn lemma_dmx_changes_only_carried_voxels(
    v: VolumeModel,
    listener: ListenerModel,
    universe: u16,
    data: Seq<u8>,
    k: int,
)
    requires
        v.universes_per_layer > 0,
        0 <= k < v.work.len(),
    ensures
        packet_applied(v, listener, PacketModel::Sync) == v,
        packet_applied(v, listener, PacketModel::Dmx { universe, data }).cubes == v.cubes,
        packet_applied(v, listener, PacketModel::Dmx { universe, data }).universes_per_layer
            == v.universes_per_layer,
        packet_applied(v, listener, PacketModel::Dmx { universe, data }).work.len() == v.work.len(),
        packet_applied(v, listener, PacketModel::Dmx { universe, data }).work[k] != v.work[k] ==> {
            let layer = universe as int / v.universes_per_layer as int;
            let cube = v.cubes[listener.cube_index as int];
            let start = (universe as int % v.universes_per_layer as int) * 170;
            &&& 0 <= layer < listener.z_indices.len()
            // The triple that lands on voxel k.
            &&& ({
                let j = k - (cube.offset + listener.z_indices[layer] * cube.width * cube.height)
                    - start;
                &&& 0 <= j < data.len() / 3
                &&& start + j < cube.width * cube.height
                &&& packet_applied(v, listener, PacketModel::Dmx { universe, data }).work[k] == [
                    data[3 * j],
                    data[3 * j + 1],
                    data[3 * j + 2],
                ]
            })
        },
{
    let r = packet_applied(v, listener, PacketModel::Dmx { universe, data });
    vstd::arithmetic::div_mod::lemma_mod_pos_bound(universe as int, v.universes_per_layer as int);
    if r.work[k] != v.work[k] {
        let cube = v.cubes[listener.cube_index as int];
        let z = listener.z_indices[layer_of(v, universe)] as int;
        let j = k - layer_base(cube, z) - start_pixel(v, universe);
        assert(r.work[k] == rgb_at(data, j));
    }
}

/// Every complete RGB triple of an ArtDmx packet whose pixel lies inside the
/// addressed layer (and inside the frame) lands on voxel `base + start + j`.
pub proof fn lemma_dmx_writes_every_carried_voxel(
    v: VolumeModel,
    listener: ListenerModel,
    universe: u16,
    data: Seq<u8>,
    j: int,
)
    requires
        v.universes_per_layer > 0,
        (universe as int / v.universes_per_layer as int) < listener.z_indices.len(),
        0 <= j < data.len() / 3,
        (universe as int % v.universes_per_layer as int) * 170 + j < v.cubes[listener.cube_index
            as int].width * v.cubes[listener.cube_index as int].height,
        v.cubes[listener.cube_index as int].offset + listener.z_indices[universe as int
            / v.universes_per_layer as int] * v.cubes[listener.cube_index as int].width
            * v.cubes[listener.cube_index as int].height + (universe as int
            % v.universes_per_layer as int) * 170 + j < v.work.len(),
    ensures
        ({
            let cube = v.cubes[listener.cube_index as int];
            let z = listener.z_indices[universe as int / v.universes_per_layer as int];
            let start = (universe as int % v.universes_per_layer as int) * 170;
            packet_applied(v, listener, PacketModel::Dmx { universe, data }).work[cube.offset + z
                * cube.width * cube.height + start + j] == [data[3 * j], data[3 * j + 1], data[3 * j
                + 2]]
        }),
{
    vstd::arithmetic::div_mod::lemma_mod_pos_bound(universe as int, v.universes_per_layer as int);
    let cube = v.cubes[listener.cube_index as int];
    let z = listener.z_indices[universe as int / v.universes_per_layer as int] as int;
    assert(z * cube.width * cube.height >= 0) by (nonlinear_arith)
        requires
            z >= 0,
            cube.width >= 0,
            cube.height >= 0,
    ;
}

} // verus!
