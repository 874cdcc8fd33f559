//! The live-capture pipeline: the shared frame buffer and its batch drain,
//! which resizes, tiles and serializes captured frames on demand.

use vstd::prelude::*;

verus! {

use crate::payload::{get_gif_payload, payload_frames_spec, views_of_tiles, views_of_frames};
use crate::processor::{frame_tiled, process_gif_sync, tiles_spec, DEFAULT_TILE_EDGE};
use crate::raster::Raster;
use crate::ring::{frame_views, FrameRingBuffer};
use crate::tile::TileV;
use vstd::arithmetic::div_mod::lemma_fundamental_div_mod_converse;

/// Fixed resolution the capture source delivers.
pub const CAPTURE_WIDTH: u32 = 1920;

/// Fixed resolution the capture source delivers.
pub const CAPTURE_HEIGHT: u32 = 1080;

/// Resolution each captured frame is resized to before tiling.
pub const TARGET_WIDTH: u32 = 640;

/// Resolution each captured frame is resized to before tiling.
pub const TARGET_HEIGHT: u32 = 360;

/// Byte length of one well-formed captured frame.
pub const CAPTURE_FRAME_BYTES: usize = 1920 * 1080 * 4;

/// Capacity of the shared frame buffer.
pub const MAX_FRAMES: usize = 24;

/// How many frames one drain takes at most.
pub const FRAME_BATCH_SIZE: usize = 24;

/// An empty shared frame buffer of the fixed capacity. The capture producer
/// and the drain consumer both receive a handle to this one buffer.
pub fn init_frame_buffer() -> (r: FrameRingBuffer)
    ensures
        r.wf(),
        r@ == Seq::<Seq<u8>>::empty(),
        r.cap() == MAX_FRAMES,
{
    FrameRingBuffer::new(MAX_FRAMES)
}

/// What `image::imageops::resize` with the Triangle filter returns for the
/// RGBA bytes of a source raster and target dimensions: a function of those
/// arguments alone.
pub uninterp spec fn resize_of(px: Seq<u8>, sw: u32, sh: u32, tw: u32, th: u32) -> Seq<u8>;

/// Relies on `image::RgbaImage::from_raw`, which is `Some` for a buffer of at
/// least `width * height * 4` bytes, and `image::imageops::resize`, which
/// returns a `tw` x `th` image — `tw * th * 4` bytes — computed from the
/// source pixels and the dimensions alone.
#[verifier::external_body]
fn resize_rgba(img: &Raster, tw: u32, th: u32) -> (out: Raster)
    requires
        img.wf(),
        1 <= tw,
        1 <= th,
    ensures
        out.width == tw,
        out.height == th,
        out.wf(),
        out.pixels@ == resize_of(img.pixels@, img.width, img.height, tw, th),
{
    let buf = image::RgbaImage::from_raw(img.width, img.height, img.pixels.clone()).unwrap();
    let resized = image::imageops::resize(&buf, tw, th, image::imageops::FilterType::Triangle);
    Raster { width: tw, height: th, pixels: resized.into_raw() }
}

/// A raw captured frame is usable exactly when it holds the capture
/// resolution's bytes; a frame of any other length is dropped from the batch.
pub open spec fn frame_len_valid(f: Seq<u8>) -> bool {
    f.len() == CAPTURE_WIDTH * CAPTURE_HEIGHT * 4
}

/// `frame_len_valid` as a function value, for filtering a batch.
pub open spec fn frame_len_pred() -> spec_fn(Seq<u8>) -> bool {
    |f: Seq<u8>| frame_len_valid(f)
}

/// The frames of a drained batch that are kept, in capture order.
pub open spec fn valid_frames(s: Seq<Seq<u8>>) -> Seq<Seq<u8>> {
    s.filter(frame_len_pred())
}

/// The tile grid of one captured frame after resizing to the target
/// resolution.
pub open spec fn capture_frame_tiles(f: Seq<u8>) -> Seq<TileV> {
    tiles_spec(
        resize_of(f, CAPTURE_WIDTH, CAPTURE_HEIGHT, TARGET_WIDTH, TARGET_HEIGHT),
        TARGET_WIDTH,
        TARGET_HEIGHT,
        DEFAULT_TILE_EDGE,
    )
}

/// The tile grids of every kept frame of a batch, in capture order.
pub open spec fn batch_tiles(kept: Seq<Seq<u8>>) -> Seq<Seq<TileV>> {
    kept.map_values(|f: Seq<u8>| capture_frame_tiles(f))
}

/// How many frames one drain takes from a buffer holding `s`.
pub open spec fn drain_count(s: Seq<Seq<u8>>) -> int {
    if FRAME_BATCH_SIZE <= s.len() {
        FRAME_BATCH_SIZE as int
    } else {
        s.len() as int
    }
}

/// The payload serialized for one drained batch: the kept frames, resized,
/// tiled, and serialized as a multi-frame payload.
pub open spec fn drained_payload(drained: Seq<Seq<u8>>) -> Seq<u8> {
    payload_frames_spec(batch_tiles(valid_frames(drained)))
}

/// Turns one drained batch into its wire payload: drops frames whose length
/// does not match the capture resolution, resizes the rest to the target
/// resolution, tiles them as an animated sequence and serializes them. Runs
/// outside the buffer lock. An empty batch yields the well-formed empty
/// payload.
pub fn batch_payload(raw: Vec<Vec<u8>>) -> (r: Vec<u8>)
    requires
        raw@.len() <= FRAME_BATCH_SIZE,
    ensures
        r@ == drained_payload(frame_views(raw@)),
{
    let mut raw = raw;
    let ghost raw0 = raw@;
    let ghost dv = frame_views(raw0);
    proof {
        assert(dv.take(0) =~= Seq::<Seq<u8>>::empty());
        assert(valid_frames(dv.take(0)) =~= Seq::<Seq<u8>>::empty());
        assert(raw@ =~= raw0.skip(0));
    }
    let n = raw.len();
    let mut rasters: Vec<Raster> = Vec::new();
    let mut i: usize = 0;
    while i < n
        invariant
            i <= n,
            n == raw0.len(),
            n <= FRAME_BATCH_SIZE,
            dv == frame_views(raw0),
            raw@ == raw0.skip(i as int),
            rasters@.len() == valid_frames(dv.take(i as int)).len(),
            rasters@.len() <= i,
            forall|j: int|
                0 <= j < rasters@.len() ==> (#[trigger] rasters@[j]).wf() && rasters@[j].width
                    == TARGET_WIDTH && rasters@[j].height == TARGET_HEIGHT
                    && rasters@[j].pixels@ == resize_of(
                    valid_frames(dv.take(i as int))[j],
                    CAPTURE_WIDTH,
                    CAPTURE_HEIGHT,
                    TARGET_WIDTH,
                    TARGET_HEIGHT,
                ),
        decreases n - i,
    {
        let ghost raw_before = raw@;
        let f = raw.remove(0);
        proof {
            assert(raw@ =~= raw0.skip(i as int + 1));
            assert(frame_views(raw0)[i as int] == raw0[i as int]@);
            assert(f@ == dv[i as int]);
            assert(dv.take(i as int + 1) =~= dv.take(i as int).push(dv[i as int]));
            dv.take(i as int).lemma_filter_push(dv[i as int], frame_len_pred());
        }
        if f.len() == CAPTURE_FRAME_BYTES {
            proof {
                assert(frame_len_valid(dv[i as int]));
                assert(valid_frames(dv.take(i as int + 1)) == valid_frames(
                    dv.take(i as int),
                ).push(dv[i as int]));
            }
            let img_opt = Raster::from_raw(CAPTURE_WIDTH, CAPTURE_HEIGHT, f);
            match img_opt {
                Some(img) => {
                    let resized = resize_rgba(&img, TARGET_WIDTH, TARGET_HEIGHT);
                    rasters.push(resized);
                },
                None => {
                    proof {
                        assert(false);
                    }
                },
            }
        } else {
            proof {
                assert(!frame_len_valid(dv[i as int]));
                assert(valid_frames(dv.take(i as int + 1)) == valid_frames(dv.take(i as int)));
            }
        }
        i += 1;
    }
    proof {
        assert(dv.take(n as int) =~= dv);
    }
    let ghost rs = rasters@;
    let tiles = process_gif_sync(rasters);
    proof {
        assert(valid_frames(dv) == valid_frames(dv.take(n as int)));
        assert forall|k: int| 0 <= k < tiles@.len() implies (#[trigger] tiles@[k])@.len()
            <= u32::MAX && views_of_tiles(tiles@[k]@) == batch_tiles(valid_frames(dv))[k] by {
            assert(frame_tiled(tiles@, rs, DEFAULT_TILE_EDGE, k));
            let ts = tiles_spec(rs[k].pixels@, rs[k].width, rs[k].height, DEFAULT_TILE_EDGE);
            assert(tiles@[k]@.len() == ts.len());
            assert(rs[k].width == TARGET_WIDTH && rs[k].height == TARGET_HEIGHT);
            lemma_fundamental_div_mod_converse(895, 256, 3, 127);
            lemma_fundamental_div_mod_converse(615, 256, 2, 103);
            assert(ts.len() == 6);
            assert(rs[k].pixels@ == resize_of(
                valid_frames(dv)[k],
                CAPTURE_WIDTH,
                CAPTURE_HEIGHT,
                TARGET_WIDTH,
                TARGET_HEIGHT,
            ));
            assert(ts == capture_frame_tiles(valid_frames(dv)[k]));
            assert(views_of_tiles(tiles@[k]@) =~= ts);
            assert(batch_tiles(valid_frames(dv))[k] == capture_frame_tiles(valid_frames(dv)[k]));
        }
        assert forall|k: int, j: int|
            0 <= k < tiles@.len() && 0 <= j < tiles@[k]@.len() implies (
        #[trigger] tiles@[k]@[j]).data@.len() <= u32::MAX by {
            assert(frame_tiled(tiles@, rs, DEFAULT_TILE_EDGE, k));
            assert(tiles@[k]@[j]@.data == tiles@[k]@[j].data@);
        }
        assert(views_of_frames(tiles@) =~= batch_tiles(valid_frames(dv)));
    }
    let out = get_gif_payload(&tiles);
    out
}

/// Drains up to one batch from the shared buffer — oldest first, atomically
/// with respect to the producer — and serializes it with [`batch_payload`].
/// A caller that shares the buffer across threads should instead hold its
/// lock only around the drain and run [`batch_payload`] outside it.
pub fn get_frames(buffer: &mut FrameRingBuffer) -> (r: Vec<u8>)
    requires
        old(buffer).wf(),
    ensures
        final(buffer).wf(),
        final(buffer).cap() == old(buffer).cap(),
        final(buffer)@ == old(buffer)@.skip(drain_count(old(buffer)@)),
        r@ == drained_payload(old(buffer)@.take(drain_count(old(buffer)@))),
{
    let raw = buffer.drain(FRAME_BATCH_SIZE);
    proof {
        assert(frame_views(raw@) == old(buffer)@.take(drain_count(old(buffer)@)));
    }
    batch_payload(raw)
}

} // verus!
