use tileshare::processor::ImageProcessor;
use tileshare::raster::Raster;

fn patterned(len: usize) -> Vec<u8> {
    let mut v = Vec::with_capacity(len);
    for i in 0..len {
        v.push((i % 251) as u8);
    }
    v
}

fn raster(w: u32, h: u32) -> Raster {
    Raster::from_raw(w, h, patterned((w as usize) * (h as usize) * 4)).unwrap()
}

fn expected_crop(px: &[u8], rw: u32, x: u32, y: u32, w: u32, h: u32) -> Vec<u8> {
    let mut out = Vec::new();
    for row in 0..h {
        let start = (((y + row) * rw + x) * 4) as usize;
        out.extend_from_slice(&px[start..start + (w * 4) as usize]);
    }
    out
}

#[test]
fn scenario_a_512x300_edge_256() {
    let img = raster(512, 300);
    let tiles = ImageProcessor::new(256).make_tiles(&img);
    assert_eq!(tiles.len(), 4);
    let geo: Vec<(u32, u32, u32, u32)> =
        tiles.iter().map(|t| (t.x, t.y, t.width, t.height)).collect();
    assert_eq!(
        geo,
        vec![(0, 0, 256, 256), (256, 0, 256, 256), (0, 256, 256, 44), (256, 256, 256, 44)]
    );
}

#[test]
fn tile_count_matches_grid() {
    let img = raster(100, 50);
    let tiles = ImageProcessor::new(30).make_tiles(&img);
    // ceil(100/30) = 4, ceil(50/30) = 2
    assert_eq!(tiles.len(), 8);
}

#[test]
fn tiles_cover_raster_exactly() {
    let img = raster(70, 45);
    let tiles = ImageProcessor::new(32).make_tiles(&img);
    let mut covered = vec![0u32; 70 * 45];
    for t in &tiles {
        for yy in t.y..t.y + t.height {
            for xx in t.x..t.x + t.width {
                covered[(yy * 70 + xx) as usize] += 1;
            }
        }
    }
    assert!(covered.iter().all(|&c| c == 1));
}

#[test]
fn tile_data_is_lossless_qoi() {
    let img = raster(300, 200);
    let tiles = ImageProcessor::new(256).make_tiles(&img);
    assert_eq!(tiles.len(), 2);
    for t in &tiles {
        let (header, pixels) = qoi::decode_to_vec(&t.data).unwrap();
        assert_eq!(header.width, t.width);
        assert_eq!(header.height, t.height);
        let expected = expected_crop(&img.pixels, img.width, t.x, t.y, t.width, t.height);
        // the codec really transformed the bytes, and losslessly
        assert_ne!(t.data, expected);
        assert_eq!(pixels, expected);
    }
}

#[test]
fn single_pixel_tiles() {
    let img = raster(3, 2);
    let tiles = ImageProcessor::new(1).make_tiles(&img);
    assert_eq!(tiles.len(), 6);
    for (i, t) in tiles.iter().enumerate() {
        assert_eq!(t.x as usize, i % 3);
        assert_eq!(t.y as usize, i / 3);
        assert_eq!(t.width, 1);
        assert_eq!(t.height, 1);
    }
}

#[test]
fn animated_frames_tile_independently() {
    let a = raster(64, 64);
    let b = raster(40, 30);
    let frames = ImageProcessor::new(32).make_tiles_from_frames(vec![a, b]);
    assert_eq!(frames.len(), 2);
    assert_eq!(frames[0].len(), 4);
    assert_eq!(frames[1].len(), 2);
}

#[test]
fn from_raw_rejects_bad_lengths() {
    assert!(Raster::from_raw(2, 2, vec![0u8; 16]).is_some());
    assert!(Raster::from_raw(2, 2, vec![0u8; 15]).is_none());
    assert!(Raster::from_raw(0, 2, vec![0u8; 0]).is_none());
    assert!(Raster::from_raw(2, 0, vec![0u8; 0]).is_none());
}
