//! Layout of the shared-memory region read by the Unreal Engine component,
//! and the seqlock protocol over it, on a plain byte buffer.
//!
//! ## Region layout (little-endian)
//!
//! ```text
//!   off  size  field
//!     0     4  magic     = 0x315A5650 ("PVZ1")
//!     4     4  version   = 1
//!     8     4  num_voxels
//!    12     4  width      (world width)
//!    16     4  height
//!    20     4  length
//!    24     4  cube_count
//!    28     4  (reserved)
//!    32     8  seq        (u64 seqlock; even = stable, odd = writer in progress)
//!    64   N*3  RGB voxel data, (z,y,x) order, cubes concatenated
//! ```
//!
//! ### Reader protocol
//! ```text
//!   loop:
//!     s1 = load(seq)
//!     if s1 is odd: continue            # writer mid-update
//!     copy DATA into local buffer
//!     s2 = load(seq)
//!     if s1 == s2: done                 # consistent snapshot
//! ```

use vstd::prelude::*;

use crate::config::Config;
use crate::volume::Rgb;

verus! {

pub const MAGIC: u32 = 0x315A_5650;

pub const VERSION: u32 = 1;

pub const DATA_OFFSET: usize = 64;

pub const OFF_MAGIC: usize = 0;

pub const OFF_VERSION: usize = 4;

pub const OFF_NUM_VOXELS: usize = 8;

pub const OFF_WIDTH: usize = 12;

pub const OFF_HEIGHT: usize = 16;

pub const OFF_LENGTH: usize = 20;

pub const OFF_CUBE_COUNT: usize = 24;

pub const OFF_SEQ: usize = 32;

/// Describes the published frame and how it is laid out in the region.
#[derive(Debug, Clone, Copy)]
pub struct FrameFormat {
    pub num_voxels: usize,
    pub width: u32,
    pub height: u32,
    pub length: u32,
    pub cube_count: u32,
}

/// Little-endian bytes of a `u32`.
pub open spec fn u32_le_bytes(v: u32) -> Seq<u8> {
    seq![v as u8, (v >> 8u32) as u8, (v >> 16u32) as u8, (v >> 24u32) as u8]
}

/// Little-endian bytes of a `u64`.
pub open spec fn u64_le_bytes(v: u64) -> Seq<u8> {
    seq![
        v as u8,
        (v >> 8u64) as u8,
        (v >> 16u64) as u8,
        (v >> 24u64) as u8,
        (v >> 32u64) as u8,
        (v >> 40u64) as u8,
        (v >> 48u64) as u8,
        (v >> 56u64) as u8,
    ]
}

pub open spec fn u64_of_le_bytes(b0: u8, b1: u8, b2: u8, b3: u8, b4: u8, b5: u8, b6: u8, b7: u8) -> u64 {
    (b0 as u64) | ((b1 as u64) << 8u64) | ((b2 as u64) << 16u64) | ((b3 as u64) << 24u64) | ((
    b4 as u64) << 32u64) | ((b5 as u64) << 40u64) | ((b6 as u64) << 48u64) | ((b7 as u64)
        << 56u64)
}

/// The `u64` stored little-endian at `off`.
pub open spec fn u64_at(buf: Seq<u8>, off: int) -> u64 {
    u64_of_le_bytes(
        buf[off],
        buf[off + 1],
        buf[off + 2],
        buf[off + 3],
        buf[off + 4],
        buf[off + 5],
        buf[off + 6],
        buf[off + 7],
    )
}

/// The seqlock counter of a region.
pub open spec fn seq_field(buf: Seq<u8>) -> u64 {
    u64_at(buf, OFF_SEQ as int)
}

/// `buf` with `bytes` written from `off` on.
pub open spec fn splice(buf: Seq<u8>, off: int, bytes: Seq<u8>) -> Seq<u8> {
    buf.subrange(0, off) + bytes + buf.subrange(off + bytes.len(), buf.len() as int)
}

/// The voxels of a frame as the bytes of the data area: R, G, B per voxel.
pub open spec fn frame_bytes(frame: Seq<Rgb>) -> Seq<u8> {
    Seq::new(3 * frame.len(), |i: int| frame[i / 3][i % 3])
}

/// The `n` voxels that the data area of `buf` holds.
pub open spec fn frame_in(buf: Seq<u8>, n: nat) -> Seq<Rgb> {
    Seq::new(
        n,
        |i: int|
            [
                buf[DATA_OFFSET + 3 * i],
                buf[DATA_OFFSET + 3 * i + 1],
                buf[DATA_OFFSET + 3 * i + 2],
            ],
    )
}

/// The 28 header bytes that describe a format.
pub open spec fn header_bytes(f: FrameFormat) -> Seq<u8> {
    u32_le_bytes(MAGIC) + u32_le_bytes(VERSION) + u32_le_bytes(f.num_voxels as u32) + u32_le_bytes(
        f.width,
    ) + u32_le_bytes(f.height) + u32_le_bytes(f.length) + u32_le_bytes(f.cube_count)
}

/// A region after its header was written: the header fields, and `seq` set
/// to 0 (stable, empty); the reserved word and the data area are untouched.
pub open spec fn initialized(f: FrameFormat, buf: Seq<u8>) -> Seq<u8> {
    header_bytes(f) + buf.subrange(28, 32) + u64_le_bytes(0) + buf.subrange(40, buf.len() as int)
}

/// A region after one frame was published into it: the data area holds the
/// frame, and `seq` has advanced by two (wrapping), so that a stable counter
/// stays even.
pub open spec fn published(buf: Seq<u8>, frame: Seq<Rgb>) -> Seq<u8> {
    splice(
        splice(
            buf,
            OFF_SEQ as int,
            u64_le_bytes(vstd::wrapping::u64_specs::wrapping_add(seq_field(buf), 2)),
        ),
        DATA_OFFSET as int,
        frame_bytes(frame),
    )
}

pub proof fn lemma_u64_le_roundtrip(v: u64)
    ensures
        u64_of_le_bytes(
            v as u8,
            (v >> 8u64) as u8,
            (v >> 16u64) as u8,
            (v >> 24u64) as u8,
            (v >> 32u64) as u8,
            (v >> 40u64) as u8,
            (v >> 48u64) as u8,
            (v >> 56u64) as u8,
        ) == v,
{
    assert(((v as u8) as u64) | ((((v >> 8u64) as u8) as u64) << 8u64) | ((((v >> 16u64) as u8) as u64)
        << 16u64) | ((((v >> 24u64) as u8) as u64) << 24u64) | ((((v >> 32u64) as u8) as u64)
        << 32u64) | ((((v >> 40u64) as u8) as u64) << 40u64) | ((((v >> 48u64) as u8) as u64)
        << 48u64) | ((((v >> 56u64) as u8) as u64) << 56u64) == v) by (bit_vector);
}

fn put_u32(buf: &mut [u8], off: usize, val: u32)
    requires
        off + 4 <= old(buf)@.len(),
    ensures
        final(buf)@ == splice(old(buf)@, off as int, u32_le_bytes(val)),
{
    buf[off] = val as u8;
    buf[off + 1] = (val >> 8u32) as u8;
    buf[off + 2] = (val >> 16u32) as u8;
    buf[off + 3] = (val >> 24u32) as u8;
    assert(buf@ =~= splice(old(buf)@, off as int, u32_le_bytes(val)));
}

fn put_u64(buf: &mut [u8], off: usize, val: u64)
    requires
        off + 8 <= old(buf)@.len(),
    ensures
        final(buf)@ == splice(old(buf)@, off as int, u64_le_bytes(val)),
{
    buf[off] = val as u8;
    buf[off + 1] = (val >> 8u64) as u8;
    buf[off + 2] = (val >> 16u64) as u8;
    buf[off + 3] = (val >> 24u64) as u8;
    buf[off + 4] = (val >> 32u64) as u8;
    buf[off + 5] = (val >> 40u64) as u8;
    buf[off + 6] = (val >> 48u64) as u8;
    buf[off + 7] = (val >> 56u64) as u8;
    assert(buf@ =~= splice(old(buf)@, off as int, u64_le_bytes(val)));
}

fn get_u64(buf: &[u8], off: usize) -> (r: u64)
    requires
        off + 8 <= buf@.len(),
    ensures
        r == u64_at(buf@, off as int),
{
    (buf[off] as u64) | ((buf[off + 1] as u64) << 8u64) | ((buf[off + 2] as u64) << 16u64) | ((
    buf[off + 3] as u64) << 24u64) | ((buf[off + 4] as u64) << 32u64) | ((buf[off + 5] as u64)
        << 40u64) | ((buf[off + 6] as u64) << 48u64) | ((buf[off + 7] as u64) << 56u64)
}

/// Copies the voxels of `frame` into the data area of `buf`.
pub fn write_voxels(buf: &mut [u8], frame: &[Rgb])
    requires
        DATA_OFFSET + 3 * frame@.len() <= old(buf)@.len(),
    ensures
        final(buf)@ == splice(old(buf)@, DATA_OFFSET as int, frame_bytes(frame@)),
{
    let n = frame.len();
    let total = buf.len();
    let mut i: usize = 0;
    while i < n
        invariant
            n == frame@.len(),
            total == old(buf)@.len(),
            DATA_OFFSET + 3 * n <= old(buf)@.len(),
            i <= n,
            buf@.len() == old(buf)@.len(),
            forall|k: int|
                0 <= k < buf@.len() ==> #[trigger] buf@[k] == if DATA_OFFSET <= k < DATA_OFFSET + 3
                    * i {
                    frame_bytes(frame@)[k - DATA_OFFSET]
                } else {
                    old(buf)@[k]
                },
        decreases n - i,
    {
        let px = frame[i];
        let at = DATA_OFFSET + 3 * i;
        buf[at] = px[0];
        buf[at + 1] = px[1];
        buf[at + 2] = px[2];
        proof {
            assert forall|k: int|
                at <= k < at + 3 implies #[trigger] frame_bytes(frame@)[k - DATA_OFFSET]
                == px[k - at] by {
                let q = k - DATA_OFFSET;
                assert(q / 3 == i as int && q % 3 == k - at) by (nonlinear_arith)
                    requires
                        q == 3 * i + (k - at),
                        0 <= k - at < 3,
                ;
            }
        }
        i = i + 1;
    }
    assert(buf@ =~= splice(old(buf)@, DATA_OFFSET as int, frame_bytes(frame@)));
}

impl FrameFormat {
    pub open spec fn spec_total_size(&self) -> int {
        DATA_OFFSET + self.num_voxels * 3
    }

    /// Size in bytes of the region: header plus RGB data.
    pub fn total_size(&self) -> (r: usize)
        requires
            self.spec_total_size() <= usize::MAX,
        ensures
            r == self.spec_total_size(),
    {
        DATA_OFFSET + self.num_voxels * 3
    }

    /// The format of the frames that a configuration yields: its voxel count,
    /// its world geometry and its cube count, each header field truncated to
    /// 32 bits as the region stores it.
    pub fn for_config(config: &Config) -> (f: FrameFormat)
        ensures
            f.num_voxels == config.num_voxels,
            f.width == config.world.0 as u32,
            f.height == config.world.1 as u32,
            f.length == config.world.2 as u32,
            f.cube_count == config.cubes@.len() as u32,
    {
        let (w, h, l) = config.world;
        FrameFormat {
            num_voxels: config.num_voxels,
            width: w as u32,
            height: h as u32,
            length: l as u32,
            cube_count: config.cubes.len() as u32,
        }
    }

    /// Write the static header fields and set `seq` to 0 (stable, empty).
    pub fn init_header(&self, buf: &mut [u8])
        requires
            self.spec_total_size() <= usize::MAX,
            old(buf)@.len() >= self.spec_total_size(),
        ensures
            final(buf)@ == initialized(*self, old(buf)@),
    {
        let ghost b0 = buf@;
        put_u32(buf, OFF_MAGIC, MAGIC);
        put_u32(buf, OFF_VERSION, VERSION);
        assert(buf@.subrange(0, 8) =~= u32_le_bytes(MAGIC) + u32_le_bytes(VERSION));
        let ghost b1 = buf@;
        put_u32(buf, OFF_NUM_VOXELS, self.num_voxels as u32);
        put_u32(buf, OFF_WIDTH, self.width);
        assert(buf@.subrange(0, 16) =~= b1.subrange(0, 8) + u32_le_bytes(self.num_voxels as u32)
            + u32_le_bytes(self.width));
        let ghost b2 = buf@;
        put_u32(buf, OFF_HEIGHT, self.height);
        put_u32(buf, OFF_LENGTH, self.length);
        put_u32(buf, OFF_CUBE_COUNT, self.cube_count);
        assert(buf@.subrange(0, 28) =~= b2.subrange(0, 16) + u32_le_bytes(self.height)
            + u32_le_bytes(self.length) + u32_le_bytes(self.cube_count));
        assert(buf@.subrange(28, buf@.len() as int) =~= b0.subrange(28, b0.len() as int));
        let ghost b3 = buf@;
        put_u64(buf, OFF_SEQ, 0);
        assert(buf@ =~= b3.subrange(0, 32) + u64_le_bytes(0) + b3.subrange(40, b3.len() as int));
        assert(buf@ =~= initialized(*self, old(buf)@));
    }

    /// Publish one frame with the seqlock protocol: mark the counter odd
    /// (writer in progress), copy the voxels, mark it even again.
    pub fn publish_into(&self, buf: &mut [u8], frame: &[Rgb])
        requires
            frame@.len() == self.num_voxels,
            DATA_OFFSET + 3 * frame@.len() <= old(buf)@.len(),
        ensures
            final(buf)@ == published(old(buf)@, frame@),
            seq_field(final(buf)@) == vstd::wrapping::u64_specs::wrapping_add(
                seq_field(old(buf)@),
                2,
            ),
    {
        let start = get_u64(buf, OFF_SEQ);
        put_u64(buf, OFF_SEQ, start.wrapping_add(1));
        write_voxels(buf, frame);
        put_u64(buf, OFF_SEQ, start.wrapping_add(2));
        proof {
            let ghost mid = splice(
                old(buf)@,
                OFF_SEQ as int,
                u64_le_bytes(vstd::wrapping::u64_specs::wrapping_add(start, 2)),
            );
            assert(buf@ =~= splice(mid, DATA_OFFSET as int, frame_bytes(frame@)));
            let ghost e = vstd::wrapping::u64_specs::wrapping_add(start, 2);
            lemma_u64_le_roundtrip(e);
            assert(buf@.subrange(32, 40) =~= u64_le_bytes(e));
        }
    }

    /// Reference reader: returns whether it got a consistent snapshot within
    /// `tries` attempts, and if so, the voxels in `out`.
    pub fn read_into(&self, buf: &[u8], out: &mut [Rgb], tries: usize) -> (r: bool)
        requires
            buf@.len() >= OFF_SEQ + 8,
            tries > 0 && seq_field(buf@) % 2 == 0 ==> DATA_OFFSET + 3 * old(out)@.len()
                <= buf@.len(),
        ensures
            r == (tries > 0 && seq_field(buf@) % 2 == 0),
            r ==> final(out)@ == frame_in(buf@, old(out)@.len()),
            !r ==> final(out)@ == old(out)@,
    {
        let mut t: usize = 0;
        while t < tries
            invariant
                t <= tries,
                buf@.len() >= OFF_SEQ + 8,
                tries > 0 && seq_field(buf@) % 2 == 0 ==> DATA_OFFSET + 3 * old(out)@.len()
                    <= buf@.len(),
                t > 0 ==> seq_field(buf@) % 2 == 1,
                out@ == old(out)@,
            decreases tries - t,
        {
            let s1 = get_u64(buf, OFF_SEQ);
            if s1 & 1 != 0 {
                assert(s1 & 1 != 0 ==> s1 % 2 == 1) by (bit_vector);
                t = t + 1;
                continue;
            }
            assert(s1 & 1 == 0 ==> s1 % 2 == 0) by (bit_vector);
            let n = out.len();
            let total = buf.len();
            let mut i: usize = 0;
            while i < n
                invariant
                    n == old(out)@.len(),
                    total == buf@.len(),
                    DATA_OFFSET + 3 * n <= buf@.len(),
                    i <= n,
                    out@.len() == n,
                    forall|k: int|
                        0 <= k < n ==> #[trigger] out@[k] == if k < i {
                            frame_in(buf@, n as nat)[k]
                        } else {
                            old(out)@[k]
                        },
                decreases n - i,
            {
                let at = DATA_OFFSET + 3 * i;
                out[i] = [buf[at], buf[at + 1], buf[at + 2]];
                i = i + 1;
            }
            assert(out@ =~= frame_in(buf@, n as nat));
            let s2 = get_u64(buf, OFF_SEQ);
            if s1 == s2 {
                return true;
            }
            t = t + 1;
        }
        false
    }
}

/// A frame published into a stable region reads back unchanged, and the
/// region stays stable: the counter remains even.
pub proof fn lemma_publish_then_read(buf: Seq<u8>, frame: Seq<Rgb>)
    requires
        DATA_OFFSET + 3 * frame.len() <= buf.len(),
        seq_field(buf) % 2 == 0,
    ensures
        seq_field(published(buf, frame)) % 2 == 0,
        frame_in(published(buf, frame), frame.len()) == frame,
{
    let s = seq_field(buf);
    let e = vstd::wrapping::u64_specs::wrapping_add(s, 2);
    let p = published(buf, frame);
    lemma_u64_le_roundtrip(e);
    assert(p.subrange(32, 40) =~= u64_le_bytes(e));
    assert(seq_field(p) == e);
    assert forall|i: int| 0 <= i < frame.len() implies #[trigger] frame_in(p, frame.len())[i]
        == frame[i] by {
        assert forall|c: int| 0 <= c < 3 implies frame_bytes(frame)[3 * i + c] == frame[i][c] by {
            assert((3 * i + c) / 3 == i && (3 * i + c) % 3 == c) by (nonlinear_arith)
                requires
                    0 <= c < 3,
            ;
        }
        assert(p[DATA_OFFSET + 3 * i] == frame_bytes(frame)[3 * i]);
        assert(p[DATA_OFFSET + 3 * i + 1] == frame_bytes(frame)[3 * i + 1]);
        assert(p[DATA_OFFSET + 3 * i + 2] == frame_bytes(frame)[3 * i + 2]);
        assert(frame_in(p, frame.len())[i] =~= frame[i]);
    }
    assert(frame_in(p, frame.len()) =~= frame);
}

/// A freshly initialized region is stable, with counter 0.
pub proof fn lemma_initialized_stable(f: FrameFormat, buf: Seq<u8>)
    requires
        buf.len() >= f.spec_total_size(),
    ensures
        seq_field(initialized(f, buf)) == 0,
{
    let p = initialized(f, buf);
    lemma_u64_le_roundtrip(0);
    assert(p.subrange(32, 40) =~= u64_le_bytes(0));
}

/// The `u32` stored little-endian at `off`.
pub open spec fn u32_at(buf: Seq<u8>, off: int) -> u32 {
    (buf[off] as u32) | ((buf[off + 1] as u32) << 8u32) | ((buf[off + 2] as u32) << 16u32) | ((
    buf[off + 3] as u32) << 24u32)
}

proof fn lemma_u32_le_roundtrip(v: u32)
    ensures
        ((v as u8) as u32) | ((((v >> 8u32) as u8) as u32) << 8u32) | ((((v >> 16u32) as u8) as u32)
            << 16u32) | ((((v >> 24u32) as u8) as u32) << 24u32) == v,
{
    assert(((v as u8) as u32) | ((((v >> 8u32) as u8) as u32) << 8u32) | ((((v >> 16u32) as u8)
        as u32) << 16u32) | ((((v >> 24u32) as u8) as u32) << 24u32) == v) by (bit_vector);
}

/// A region whose header was written reads back, field by field at the
/// offsets of the layout, the magic, the version, the voxel count (to 32
/// bits), the world width, height and length, the cube count, and a stable
/// counter 0; the reserved word and everything from byte 40 on are untouched.
pub proof fn lemma_header_reads_back(f: FrameFormat, buf: Seq<u8>)
    requires
        buf.len() >= OFF_SEQ + 8,
    ensures
        ({
            let r = initialized(f, buf);
            &&& r.len() == buf.len()
            &&& u32_at(r, OFF_MAGIC as int) == MAGIC
            &&& u32_at(r, OFF_VERSION as int) == VERSION
            &&& u32_at(r, OFF_NUM_VOXELS as int) == f.num_voxels as u32
            &&& u32_at(r, OFF_WIDTH as int) == f.width
            &&& u32_at(r, OFF_HEIGHT as int) == f.height
            &&& u32_at(r, OFF_LENGTH as int) == f.length
            &&& u32_at(r, OFF_CUBE_COUNT as int) == f.cube_count
            &&& seq_field(r) == 0
            &&& forall|k: int|
                (28 <= k < 32 || OFF_SEQ + 8 <= k < buf.len()) ==> #[trigger] r[k] == buf[k]
        }),
{
    let r = initialized(f, buf);
    lemma_u32_le_roundtrip(MAGIC);
    lemma_u32_le_roundtrip(VERSION);
    lemma_u32_le_roundtrip(f.num_voxels as u32);
    lemma_u32_le_roundtrip(f.width);
    lemma_u32_le_roundtrip(f.height);
    lemma_u32_le_roundtrip(f.length);
    lemma_u32_le_roundtrip(f.cube_count);
    lemma_u64_le_roundtrip(0);
    assert(r.subrange(32, 40) =~= u64_le_bytes(0));
}

/// Publishing a frame puts channel `c` of voxel `i` at byte `64 + 3i + c`,
/// advances the counter by two (wrapping), and leaves the rest of the header
/// and every byte after the voxel data untouched.
pub proof fn lemma_publish_layout(buf: Seq<u8>, frame: Seq<Rgb>)
    requires
        DATA_OFFSET + 3 * frame.len() <= buf.len(),
    ensures
        ({
            let p = published(buf, frame);
            &&& p.len() == buf.len()
            &&& forall|i: int, c: int|
                0 <= i < frame.len() && 0 <= c < 3 ==> #[trigger] p[DATA_OFFSET + 3 * i + c]
                    == #[trigger] frame[i][c]
            &&& seq_field(p) == vstd::wrapping::u64_specs::wrapping_add(seq_field(buf), 2)
            &&& forall|k: int|
                (0 <= k < OFF_SEQ || OFF_SEQ + 8 <= k < DATA_OFFSET || DATA_OFFSET + 3
                    * frame.len() <= k < buf.len()) ==> #[trigger] p[k] == buf[k]
        }),
{
    let p = published(buf, frame);
    let e = vstd::wrapping::u64_specs::wrapping_add(seq_field(buf), 2);
    lemma_u64_le_roundtrip(e);
    assert(p.subrange(32, 40) =~= u64_le_bytes(e));
    assert forall|i: int, c: int|
        0 <= i < frame.len() && 0 <= c < 3 implies #[trigger] p[DATA_OFFSET + 3 * i + c]
        == #[trigger] frame[i][c] by {
        assert((3 * i + c) / 3 == i && (3 * i + c) % 3 == c) by (nonlinear_arith)
            requires
                0 <= c < 3,
        ;
        assert(p[DATA_OFFSET + 3 * i + c] == frame_bytes(frame)[3 * i + c]);
    }
}

} // verus!
