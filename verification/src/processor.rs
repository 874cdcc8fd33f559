//! The tiling engine: partitions a raster into a grid of encoded tiles.

use rayon::iter::{IntoParallelRefIterator, ParallelIterator};
use vstd::prelude::*;

verus! {

use crate::codec::{qoi_encode, qoi_of, QOI_PIXELS_MAX};
use crate::raster::{crop, crop_spec, Raster};
use crate::tile::{Tile, TileV};
use vstd::arithmetic::div_mod::{lemma_fundamental_div_mod, lemma_fundamental_div_mod_converse};

/// Tile edge length used for uploads and captured frames.
pub const DEFAULT_TILE_EDGE: u32 = 256;

/// Number of grid cells along a dimension of length `d` with edge `s`:
/// the ceiling of `d / s`.
pub open spec fn grid_count(d: int, s: int) -> int {
    (d + s - 1) / s
}

/// Length of the cell that starts at offset `o` along a dimension of length
/// `d`: the edge `s`, clipped at the raster bound.
pub open spec fn clip_len(s: int, d: int, o: int) -> int {
    if d - o < s {
        d - o
    } else {
        s
    }
}

/// Every tile of an `w` x `h` raster with edge `s` has few enough pixels for
/// the QOI format.
pub open spec fn qoi_fits(s: int, w: int, h: int) -> bool {
    (if w < s {
        w
    } else {
        s
    }) * (if h < s {
        h
    } else {
        s
    }) <= QOI_PIXELS_MAX
}

/// The tile of the grid cell whose origin is `(x, y)`: its geometry clipped
/// to the raster bounds, and the QOI encoding of its pixel rectangle.
pub open spec fn tile_view_at(px: Seq<u8>, rw: u32, rh: u32, s: u32, x: u32, y: u32) -> TileV {
    let w = clip_len(s as int, rw as int, x as int);
    let h = clip_len(s as int, rh as int, y as int);
    TileV {
        x,
        y,
        width: w as u32,
        height: h as u32,
        data: qoi_of(crop_spec(px, rw as int, x as int, y as int, w, h), w, h),
    }
}

/// The whole tile grid of a raster, in row-major order: cell `i` sits in
/// grid column `i % grid_count(rw, s)` and grid row `i / grid_count(rw, s)`.
pub open spec fn tiles_spec(px: Seq<u8>, rw: u32, rh: u32, s: u32) -> Seq<TileV> {
    let gw = grid_count(rw as int, s as int);
    let gh = grid_count(rh as int, s as int);
    Seq::new(
        (gw * gh) as nat,
        |i: int|
            tile_view_at(px, rw, rh, s, ((i % gw) * s) as u32, ((i / gw) * s) as u32),
    )
}

/// Grid cell `i` of a `w` x `h` raster with edge `s` covers the pixel at
/// column `px`, row `py`.
pub open spec fn cell_covers(i: int, w: int, h: int, s: int, px: int, py: int) -> bool {
    let gw = grid_count(w, s);
    let cx = (i % gw) * s;
    let cy = (i / gw) * s;
    &&& cx <= px < cx + clip_len(s, w, cx)
    &&& cy <= py < cy + clip_len(s, h, cy)
}

/// The cell count along a dimension is at least 1 and at most the dimension.
pub proof fn lemma_grid_count_bounds(d: int, s: int)
    requires
        1 <= d,
        1 <= s,
    ensures
        1 <= grid_count(d, s) <= d,
{
    lemma_fundamental_div_mod(d + s - 1, s);
    let q = (d + s - 1) / s;
    let m = (d + s - 1) % s;
    assert(1 <= q <= d) by (nonlinear_arith)
        requires
            d + s - 1 == s * q + m,
            0 <= m < s,
            1 <= d,
            1 <= s,
    ;
}

/// A cell origin lies strictly inside the raster.
pub proof fn lemma_cell_origin_in_bounds(d: int, s: int, t: int)
    requires
        1 <= d,
        1 <= s,
        0 <= t < grid_count(d, s),
    ensures
        0 <= t * s < d,
{
    lemma_fundamental_div_mod(d + s - 1, s);
    let q = (d + s - 1) / s;
    let m = (d + s - 1) % s;
    assert(0 <= t * s < d) by (nonlinear_arith)
        requires
            d + s - 1 == s * q + m,
            0 <= m < s,
            0 <= t <= q - 1,
            1 <= s,
    ;
}

/// Law: the tile grid partitions the raster exactly. Every pixel of
/// `[0, w) x [0, h)` lies in exactly one of the `grid_count(w,s) * grid_count(h,s)`
/// grid cells: the cell of grid column `px / s` and grid row `py / s`.
pub proof fn lemma_tiling_partitions(w: int, h: int, s: int, px: int, py: int)
    requires
        1 <= w,
        1 <= h,
        1 <= s,
        0 <= px < w,
        0 <= py < h,
    ensures
        ({
            let gw = grid_count(w, s);
            let gh = grid_count(h, s);
            let i = (py / s) * gw + (px / s);
            &&& 0 <= i < gw * gh
            &&& cell_covers(i, w, h, s, px, py)
            &&& forall|j: int|
                0 <= j < gw * gh && cell_covers(j, w, h, s, px, py) ==> j == i
        }),
{
    let gw = grid_count(w, s);
    let gh = grid_count(h, s);
    let cq = px / s;
    let rq = py / s;
    let i = rq * gw + cq;
    lemma_fundamental_div_mod(px, s);
    lemma_fundamental_div_mod(py, s);
    lemma_fundamental_div_mod(w + s - 1, s);
    lemma_fundamental_div_mod(h + s - 1, s);
    assert(0 <= cq < gw && s * cq <= px < s * cq + s) by (nonlinear_arith)
        requires
            px == s * cq + px % s,
            0 <= px % s < s,
            w + s - 1 == s * gw + (w + s - 1) % s,
            0 <= (w + s - 1) % s < s,
            0 <= px < w,
            1 <= s,
    ;
    assert(0 <= rq < gh && s * rq <= py < s * rq + s) by (nonlinear_arith)
        requires
            py == s * rq + py % s,
            0 <= py % s < s,
            h + s - 1 == s * gh + (h + s - 1) % s,
            0 <= (h + s - 1) % s < s,
            0 <= py < h,
            1 <= s,
    ;
    lemma_fundamental_div_mod_converse(i, gw, rq, cq);
    assert(0 <= i < gw * gh) by (nonlinear_arith)
        requires
            i == rq * gw + cq,
            0 <= cq < gw,
            0 <= rq < gh,
    ;
    assert(cq * s == s * cq && rq * s == s * rq) by (nonlinear_arith);
    assert(cell_covers(i, w, h, s, px, py));
    assert forall|j: int| 0 <= j < gw * gh && cell_covers(j, w, h, s, px, py) implies j == i by {
        let jc = j % gw;
        let jr = j / gw;
        lemma_fundamental_div_mod(j, gw);
        assert(0 <= jc < gw && 0 <= jr) by (nonlinear_arith)
            requires
                j == gw * jr + jc,
                jc == j % gw,
                0 <= j < gw * gh,
                1 <= gw,
                0 <= jc < gw,
        ;
        assert(jc * s <= px < jc * s + s && jr * s <= py < jr * s + s);
        lemma_fundamental_div_mod_converse(px, s, jc, px - jc * s);
        lemma_fundamental_div_mod_converse(py, s, jr, py - jr * s);
        assert(j == gw * jr + jc && i == rq * gw + cq && jr == rq && jc == cq ==> j == i)
            by (nonlinear_arith);
    }
}

/// The tiling engine, configured with a fixed tile edge length.
pub struct ImageProcessor {
    tile_size: u32,
}

/// Relies on rayon's `par_iter().map(..).collect()` over a `Vec`: an indexed
/// parallel iterator collects into a vector with one result per input, in
/// input order. Each element is what the verified `process_tile` returns for
/// the coordinate at the same position, so each ensures clause restates that
/// function's postcondition elementwise.
#[verifier::external_body]
fn par_process_tiles(proc: &ImageProcessor, img: &Raster, coords: &Vec<(u32, u32)>) -> (r: Vec<
    Tile,
>)
    requires
        img.wf(),
        1 <= proc.edge(),
        qoi_fits(proc.edge() as int, img.width as int, img.height as int),
        forall|i: int|
            0 <= i < coords@.len() ==> (#[trigger] coords@[i]).0 < img.width && coords@[i].1
                < img.height,
    ensures
        r@.len() == coords@.len(),
        forall|i: int|
            0 <= i < coords@.len() ==> #[trigger] r@[i]@ == tile_view_at(
                img.pixels@,
                img.width,
                img.height,
                proc.edge(),
                coords@[i].0,
                coords@[i].1,
            ) && r@[i].data@.len() <= proc.edge() * proc.edge() * 5 + 22,
{
    coords.par_iter().map(|c| proc.process_tile(img, c.0, c.1)).collect()
}

/// Frame `i` of `r` holds exactly the tile grid of frame `i` of `frames`
/// with edge `s`, every tile's encoded bytes within the QOI size bound.
pub open spec fn frame_tiled(r: Seq<Vec<Tile>>, frames: Seq<Raster>, s: u32, i: int) -> bool {
    let ts = tiles_spec(frames[i].pixels@, frames[i].width, frames[i].height, s);
    &&& r[i]@.len() == ts.len()
    &&& forall|j: int|
        0 <= j < ts.len() ==> #[trigger] r[i]@[j]@ == ts[j] && r[i]@[j].data@.len() <= s * s * 5
            + 22
}

/// Relies on rayon's `par_iter().map(..).collect()` over a `Vec`, as above:
/// the collected vector has one result per frame, in input order. Each
/// element is what the verified `make_tiles` returns for the frame at the
/// same position, so each ensures clause restates that function's
/// postcondition elementwise.
#[verifier::external_body]
fn par_tile_frames(proc: &ImageProcessor, frames: &Vec<Raster>) -> (r: Vec<Vec<Tile>>)
    requires
        1 <= proc.edge(),
        forall|i: int|
            0 <= i < frames@.len() ==> (#[trigger] frames@[i]).wf() && qoi_fits(
                proc.edge() as int,
                frames@[i].width as int,
                frames@[i].height as int,
            ),
    ensures
        r@.len() == frames@.len(),
        forall|i: int|
            0 <= i < frames@.len() ==> #[trigger] frame_tiled(r@, frames@, proc.edge(), i),
{
    frames.par_iter().map(|f| proc.make_tiles(f)).collect()
}

impl ImageProcessor {
    /// The configured tile edge length.
    pub closed spec fn edge(&self) -> u32 {
        self.tile_size
    }

    /// An engine that cuts rasters into tiles of at most `tile_size` pixels
    /// along each axis.
    pub fn new(tile_size: u32) -> (r: Self)
        ensures
            r.edge() == tile_size,
    {
        Self { tile_size }
    }

    /// Cuts out and encodes the single tile whose origin is `(x, y)`.
    pub fn process_tile(&self, img: &Raster, x: u32, y: u32) -> (t: Tile)
        requires
            img.wf(),
            1 <= self.edge(),
            x < img.width,
            y < img.height,
            qoi_fits(self.edge() as int, img.width as int, img.height as int),
        ensures
            t@ == tile_view_at(img.pixels@, img.width, img.height, self.edge(), x, y),
            t.data@.len() <= self.edge() * self.edge() * 5 + 22,
    {
        let tile_w: u32 = if self.tile_size < img.width - x {
            self.tile_size
        } else {
            img.width - x
        };
        let tile_h: u32 = if self.tile_size < img.height - y {
            self.tile_size
        } else {
            img.height - y
        };
        proof {
            let mw: int = if img.width < self.edge() {
                img.width as int
            } else {
                self.edge() as int
            };
            let mh: int = if img.height < self.edge() {
                img.height as int
            } else {
                self.edge() as int
            };
            assert(tile_w * tile_h <= mw * mh && tile_w * tile_h <= self.edge() * self.edge())
                by (nonlinear_arith)
                requires
                    0 <= tile_w <= mw,
                    0 <= tile_h <= mh,
                    mw <= self.edge(),
                    mh <= self.edge(),
            ;
            assert(tile_w * tile_h * 5 + 22 <= self.edge() * self.edge() * 5 + 22)
                by (nonlinear_arith)
                requires
                    0 <= tile_w * tile_h <= self.edge() * self.edge(),
            ;
        }
        let px = crop(img, x, y, tile_w, tile_h);
        let data = qoi_encode(&px, tile_w, tile_h);
        let t = Tile { x, y, width: tile_w, height: tile_h, data };
        proof {
            assert(t@ =~= tile_view_at(img.pixels@, img.width, img.height, self.edge(), x, y));
        }
        t
    }

    /// Cuts a raster into its full tile grid, row-major: exactly
    /// `grid_count(width) * grid_count(height)` tiles, each the encoding of
    /// its clipped grid cell.
    pub fn make_tiles(&self, img: &Raster) -> (r: Vec<Tile>)
        requires
            img.wf(),
            1 <= self.edge(),
            qoi_fits(self.edge() as int, img.width as int, img.height as int),
        ensures
            r@.len() == tiles_spec(img.pixels@, img.width, img.height, self.edge()).len(),
            forall|i: int|
                0 <= i < r@.len() ==> #[trigger] r@[i]@ == tiles_spec(
                    img.pixels@,
                    img.width,
                    img.height,
                    self.edge(),
                )[i],
            forall|i: int|
                0 <= i < r@.len() ==> #[trigger] r@[i].data@.len() <= self.edge() * self.edge() * 5
                    + 22,
    {
        let s = self.tile_size;
        let w = img.width;
        let h = img.height;
        proof {
            lemma_grid_count_bounds(w as int, s as int);
            lemma_grid_count_bounds(h as int, s as int);
        }
        let gw: u32 = (((w as u64) + (s as u64) - 1) / (s as u64)) as u32;
        let gh: u32 = (((h as u64) + (s as u64) - 1) / (s as u64)) as u32;
        let mut coords: Vec<(u32, u32)> = Vec::new();
        let mut ty: u32 = 0;
        proof {
            assert(gh * gw <= h * w) by (nonlinear_arith)
                requires
                    0 <= gw <= w,
                    0 <= gh <= h,
            ;
            assert(h * w <= img.pixels@.len()) by (nonlinear_arith)
                requires
                    img.pixels@.len() == w * h * 4,
                    0 <= w,
                    0 <= h,
            ;
        }
        let total: usize = img.pixels.len();
        while ty < gh
            invariant
                s == self.edge(),
                w == img.width,
                h == img.height,
                1 <= s,
                1 <= w,
                1 <= h,
                gw == grid_count(w as int, s as int),
                gh == grid_count(h as int, s as int),
                1 <= gw,
                1 <= gh,
                ty <= gh,
                gh * gw <= total,
                total == img.pixels@.len(),
                coords@.len() == ty * gw,
                forall|i: int|
                    0 <= i < coords@.len() ==> #[trigger] coords@[i] == (
                        ((i % gw as int) * s) as u32,
                        ((i / gw as int) * s) as u32,
                    ) && coords@[i].0 < w && coords@[i].1 < h,
            decreases gh - ty,
        {
            let mut tx: u32 = 0;
            proof {
                assert(ty * gw + gw <= gh * gw) by (nonlinear_arith)
                    requires
                        0 <= ty < gh,
                        0 <= gw,
                ;
            }
            while tx < gw
                invariant
                    s == self.edge(),
                    w == img.width,
                    h == img.height,
                    1 <= s,
                    1 <= w,
                    1 <= h,
                    gw == grid_count(w as int, s as int),
                    gh == grid_count(h as int, s as int),
                    1 <= gw,
                    1 <= gh,
                    ty < gh,
                    tx <= gw,
                    ty * gw + gw <= gh * gw,
                    gh * gw <= total,
                    total == img.pixels@.len(),
                    coords@.len() == ty * gw + tx,
                    forall|i: int|
                        0 <= i < coords@.len() ==> #[trigger] coords@[i] == (
                            ((i % gw as int) * s) as u32,
                            ((i / gw as int) * s) as u32,
                        ) && coords@[i].0 < w && coords@[i].1 < h,
                decreases gw - tx,
            {
                proof {
                    lemma_cell_origin_in_bounds(w as int, s as int, tx as int);
                    lemma_cell_origin_in_bounds(h as int, s as int, ty as int);
                }
                let cx: u32 = tx * s;
                let cy: u32 = ty * s;
                coords.push((cx, cy));
                proof {
                    let i = ty as int * gw as int + tx as int;
                    lemma_fundamental_div_mod_converse(i, gw as int, ty as int, tx as int);
                }
                tx += 1;
            }
            ty += 1;
            proof {
                assert(ty as int * gw as int == (ty as int - 1) * gw as int + gw as int)
                    by (nonlinear_arith);
            }
        }
        let r = par_process_tiles(self, img, &coords);
        proof {
            assert(gh as int * gw as int == gw as int * gh as int) by (nonlinear_arith);
            assert forall|i: int| 0 <= i < r@.len() implies #[trigger] r@[i]@ == tiles_spec(
                img.pixels@,
                img.width,
                img.height,
                self.edge(),
            )[i] by {
                assert(coords@[i] == (
                    ((i % gw as int) * s) as u32,
                    ((i / gw as int) * s) as u32,
                ));
            }
            assert forall|i: int| 0 <= i < r@.len() implies #[trigger] r@[i].data@.len()
                <= self.edge() * self.edge() * 5 + 22 by {
                assert(r@[i]@ == tiles_spec(img.pixels@, img.width, img.height, self.edge())[i]);
            }
        }
        r
    }

    /// Tiles every frame of an animated sequence, one full grid per frame,
    /// frames kept in their temporal order.
    pub fn make_tiles_from_frames(&self, frames: Vec<Raster>) -> (r: Vec<Vec<Tile>>)
        requires
            1 <= self.edge(),
            forall|i: int|
                0 <= i < frames@.len() ==> (#[trigger] frames@[i]).wf() && qoi_fits(
                    self.edge() as int,
                    frames@[i].width as int,
                    frames@[i].height as int,
                ),
        ensures
            r@.len() == frames@.len(),
            forall|i: int|
                0 <= i < frames@.len() ==> #[trigger] frame_tiled(r@, frames@, self.edge(), i),
    {
        par_tile_frames(self, &frames)
    }
}

/// Tiles with the default edge length fit the QOI format whatever the raster.
pub proof fn lemma_default_edge_fits(w: int, h: int)
    requires
        0 <= w,
        0 <= h,
    ensures
        qoi_fits(DEFAULT_TILE_EDGE as int, w, h),
{
    let mw: int = if w < 256 {
        w
    } else {
        256
    };
    let mh: int = if h < 256 {
        h
    } else {
        256
    };
    assert(mw * mh <= 400_000_000) by (nonlinear_arith)
        requires
            0 <= mw <= 256,
            0 <= mh <= 256,
    ;
}

/// Tiles one decoded raster with the default edge length, in row-major grid
/// order.
pub fn process_image_sync(img: &Raster) -> (r: Vec<Tile>)
    requires
        img.wf(),
    ensures
        r@.len() == tiles_spec(img.pixels@, img.width, img.height, DEFAULT_TILE_EDGE).len(),
        forall|i: int|
            0 <= i < r@.len() ==> #[trigger] r@[i]@ == tiles_spec(
                img.pixels@,
                img.width,
                img.height,
                DEFAULT_TILE_EDGE,
            )[i],
        forall|i: int|
            0 <= i < r@.len() ==> #[trigger] r@[i].data@.len() <= DEFAULT_TILE_EDGE
                * DEFAULT_TILE_EDGE * 5 + 22,
{
    proof {
        lemma_default_edge_fits(img.width as int, img.height as int);
    }
    let processor = ImageProcessor::new(DEFAULT_TILE_EDGE);
    processor.make_tiles(img)
}

/// Tiles every frame of a decoded animation with the default edge length.
pub fn process_gif_sync(frames: Vec<Raster>) -> (r: Vec<Vec<Tile>>)
    requires
        forall|i: int| 0 <= i < frames@.len() ==> (#[trigger] frames@[i]).wf(),
    ensures
        r@.len() == frames@.len(),
        forall|i: int|
            0 <= i < frames@.len() ==> #[trigger] frame_tiled(r@, frames@, DEFAULT_TILE_EDGE, i),
{
    proof {
        assert forall|i: int| 0 <= i < frames@.len() implies qoi_fits(
            DEFAULT_TILE_EDGE as int,
            (#[trigger] frames@[i]).width as int,
            frames@[i].height as int,
        ) by {
            lemma_default_edge_fits(frames@[i].width as int, frames@[i].height as int);
        }
    }
    let processor = ImageProcessor::new(DEFAULT_TILE_EDGE);
    processor.make_tiles_from_frames(frames)
}

} // verus!
