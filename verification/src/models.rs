//! Stored-file records and their tiled content.

use vstd::prelude::*;

verus! {

use crate::payload::{
    get_gif_payload,
    get_image_payload,
    payload_frames_spec,
    payload_static_spec,
    views_of_frames,
    views_of_tiles,
};
use crate::tile::Tile;

/// The tiled content of one stored file: a single tile sequence for a static
/// raster, or one tile sequence per frame for animated content, frames in
/// temporal order and tiles in row-major grid order.
pub enum FileContent {
    Static { tiles: Vec<Tile> },
    Animated { frames: Vec<Vec<Tile>> },
}

/// One stored upload. Identity is the content hash of the uploaded bytes;
/// `uploaded_at` is a caller-supplied timestamp in milliseconds since the
/// Unix epoch.
pub struct StoredFile {
    pub id: String,
    pub name: String,
    pub mime_type: String,
    pub format: String,
    pub width: u32,
    pub height: u32,
    pub content: FileContent,
    pub uploaded_at: u64,
}

/// The optional field selector of a latest-file query.
pub struct LatestQuery {
    pub field: Option<String>,
}

/// Total number of tiles over a frame sequence.
pub open spec fn frames_tile_count(fs: Seq<Vec<Tile>>) -> int
    decreases fs.len(),
{
    if fs.len() == 0 {
        0
    } else {
        fs[0]@.len() + frames_tile_count(fs.skip(1))
    }
}

/// Total number of tiles of either content shape.
pub open spec fn content_tile_count(c: FileContent) -> int {
    match c {
        FileContent::Static { tiles } => tiles@.len() as int,
        FileContent::Animated { frames } => frames_tile_count(frames@),
    }
}

/// Counting one more frame adds its tiles.
proof fn lemma_tile_count_take_snoc(fs: Seq<Vec<Tile>>, k: int)
    requires
        0 <= k < fs.len(),
    ensures
        frames_tile_count(fs.take(k + 1)) == frames_tile_count(fs.take(k)) + fs[k]@.len(),
    decreases k,
{
    if k == 0 {
        assert(fs.take(1).skip(1) =~= Seq::<Vec<Tile>>::empty());
        assert(fs.take(0) =~= Seq::<Vec<Tile>>::empty());
        assert(fs.take(1)[0] == fs[0]);
    } else {
        let fs1 = fs.skip(1);
        lemma_tile_count_take_snoc(fs1, k - 1);
        assert(fs.take(k + 1).skip(1) =~= fs1.take(k));
        assert(fs.take(k).skip(1) =~= fs1.take(k - 1));
        assert(fs1[k - 1] == fs[k]);
        assert(fs.take(k + 1)[0] == fs[0] && fs.take(k)[0] == fs[0]);
    }
}

/// A prefix never counts more tiles than the whole.
proof fn lemma_tile_count_take_bound(fs: Seq<Vec<Tile>>, k: int)
    requires
        0 <= k <= fs.len(),
    ensures
        frames_tile_count(fs.take(k)) <= frames_tile_count(fs),
    decreases fs.len() - k,
{
    if k == fs.len() {
        assert(fs.take(k) =~= fs);
    } else {
        lemma_tile_count_take_snoc(fs, k);
        lemma_tile_count_take_bound(fs, k + 1);
    }
}

/// The single-frame or multi-frame payload of the content, by its shape.
pub open spec fn content_payload_spec(c: FileContent) -> Seq<u8> {
    match c {
        FileContent::Static { tiles } => payload_static_spec(views_of_tiles(tiles@)),
        FileContent::Animated { frames } => payload_frames_spec(views_of_frames(frames@)),
    }
}

/// All counts and byte lengths of the content fit the wire format's 32-bit
/// fields.
pub open spec fn content_payload_fits(c: FileContent) -> bool {
    match c {
        FileContent::Static { tiles } => tiles@.len() <= u32::MAX && forall|i: int|
            0 <= i < tiles@.len() ==> (#[trigger] tiles@[i]).data@.len() <= u32::MAX,
        FileContent::Animated { frames } => frames@.len() <= u32::MAX && (forall|i: int|
            0 <= i < frames@.len() ==> (#[trigger] frames@[i])@.len() <= u32::MAX) && (forall|
            i: int,
            j: int,
        |
            0 <= i < frames@.len() && 0 <= j < frames@[i]@.len() ==> (#[trigger] frames@[i]@[j])
                .data@.len() <= u32::MAX),
    }
}

impl FileContent {
    /// How many tiles the content holds in all, frames summed for animated
    /// content.
    pub fn tile_count(&self) -> (n: usize)
        requires
            content_tile_count(*self) <= usize::MAX,
        ensures
            n == content_tile_count(*self),
    {
        match self {
            FileContent::Static { tiles } => tiles.len(),
            FileContent::Animated { frames } => {
                let mut n: usize = 0;
                proof {
                    assert(frames@.take(0) =~= Seq::<Vec<Tile>>::empty());
                }
                let mut i: usize = 0;
                while i < frames.len()
                    invariant
                        i <= frames@.len(),
                        n == frames_tile_count(frames@.take(i as int)),
                        frames_tile_count(frames@) <= usize::MAX,
                    decreases frames@.len() - i,
                {
                    proof {
                        lemma_tile_count_take_snoc(frames@, i as int);
                        lemma_tile_count_take_bound(frames@, i as int + 1);
                    }
                    n = n + frames[i].len();
                    i += 1;
                }
                proof {
                    assert(frames@.take(frames@.len() as int) =~= frames@);
                }
                n
            },
        }
    }
}

/// Serializes the stored content, static or animated, to its wire payload.
pub fn payload_for_content(c: &FileContent) -> (r: Vec<u8>)
    requires
        content_payload_fits(*c),
    ensures
        r@ == content_payload_spec(*c),
{
    match c {
        FileContent::Static { tiles } => get_image_payload(tiles),
        FileContent::Animated { frames } => get_gif_payload(frames),
    }
}

} // verus!
