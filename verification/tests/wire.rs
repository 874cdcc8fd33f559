use tileshare::models::{payload_for_content, FileContent};
use tileshare::payload::{get_gif_payload, get_image_payload};
use tileshare::processor::ImageProcessor;
use tileshare::raster::Raster;
use tileshare::tile::Tile;

fn read_u32(b: &[u8], off: usize) -> u32 {
    u32::from_be_bytes([b[off], b[off + 1], b[off + 2], b[off + 3]])
}

struct ParsedTile {
    x: u32,
    y: u32,
    width: u32,
    height: u32,
    data: Vec<u8>,
}

fn parse_tiles(b: &[u8], off: &mut usize, n: u32) -> Vec<ParsedTile> {
    let mut tiles = Vec::new();
    for _ in 0..n {
        let x = read_u32(b, *off);
        let y = read_u32(b, *off + 4);
        let width = read_u32(b, *off + 8);
        let height = read_u32(b, *off + 12);
        let len = read_u32(b, *off + 16) as usize;
        let data = b[*off + 20..*off + 20 + len].to_vec();
        *off += 20 + len;
        tiles.push(ParsedTile { x, y, width, height, data });
    }
    tiles
}

fn tile(x: u32, y: u32, w: u32, h: u32, data: &[u8]) -> Tile {
    let mut t = Tile::new(x, y, w, h);
    t.data = data.to_vec();
    t
}

#[test]
fn single_frame_payload_exact_bytes() {
    let tiles = vec![tile(1, 2, 3, 4, &[0xaa, 0xbb])];
    let payload = get_image_payload(&tiles);
    let expected: Vec<u8> = vec![
        0, 0, 0, 1, // tile count
        0, 0, 0, 1, // x
        0, 0, 0, 2, // y
        0, 0, 0, 3, // width
        0, 0, 0, 4, // height
        0, 0, 0, 2, // data length
        0xaa, 0xbb, // data
    ];
    assert_eq!(payload, expected);
}

#[test]
fn empty_tile_set_serializes_to_four_bytes() {
    let payload = get_image_payload(&vec![]);
    assert_eq!(payload, vec![0, 0, 0, 0]);
}

#[test]
fn round_trip_single_frame() {
    let tiles = vec![
        tile(0, 0, 16, 16, &[1, 2, 3]),
        tile(16, 0, 8, 16, &[]),
        tile(0, 16, 16, 5, &[9; 40]),
    ];
    let payload = get_image_payload(&tiles);
    let mut off = 0usize;
    let n = read_u32(&payload, off);
    off += 4;
    assert_eq!(n, 3);
    let parsed = parse_tiles(&payload, &mut off, n);
    assert_eq!(off, payload.len());
    for (p, t) in parsed.iter().zip(tiles.iter()) {
        assert_eq!((p.x, p.y, p.width, p.height), (t.x, t.y, t.width, t.height));
        assert_eq!(p.data, t.data);
    }
}

#[test]
fn round_trip_multi_frame() {
    let frames = vec![
        vec![tile(0, 0, 4, 4, &[5, 6])],
        vec![],
        vec![tile(0, 0, 2, 2, &[7]), tile(2, 0, 2, 2, &[8, 9, 10])],
    ];
    let payload = get_gif_payload(&frames);
    let mut off = 0usize;
    let frame_count = read_u32(&payload, off);
    off += 4;
    assert_eq!(frame_count, 3);
    for frame in &frames {
        let tc = read_u32(&payload, off);
        off += 4;
        assert_eq!(tc as usize, frame.len());
        let parsed = parse_tiles(&payload, &mut off, tc);
        for (p, t) in parsed.iter().zip(frame.iter()) {
            assert_eq!((p.x, p.y, p.width, p.height), (t.x, t.y, t.width, t.height));
            assert_eq!(p.data, t.data);
        }
    }
    assert_eq!(off, payload.len());
}

#[test]
fn tiling_twice_gives_identical_payload() {
    let len = 90usize * 60 * 4;
    let mut px = Vec::with_capacity(len);
    for i in 0..len {
        px.push((i % 249) as u8);
    }
    let a = Raster::from_raw(90, 60, px.clone()).unwrap();
    let b = Raster::from_raw(90, 60, px).unwrap();
    let engine = ImageProcessor::new(32);
    let pa = get_image_payload(&engine.make_tiles(&a));
    let pb = get_image_payload(&engine.make_tiles(&b));
    assert_eq!(pa, pb);
}

#[test]
fn content_payload_matches_shape() {
    let tiles = vec![tile(0, 0, 1, 1, &[1, 2, 3, 4])];
    let direct = get_image_payload(&tiles);
    let content = FileContent::Static { tiles };
    assert_eq!(payload_for_content(&content), direct);

    let frames = vec![vec![tile(0, 0, 1, 1, &[4])], vec![tile(0, 0, 1, 1, &[5])]];
    let direct = get_gif_payload(&frames);
    let content = FileContent::Animated { frames };
    assert_eq!(payload_for_content(&content), direct);
}

#[test]
fn latest_query_carries_optional_field() {
    let q = tileshare::models::LatestQuery { field: Some(String::from("id")) };
    assert_eq!(q.field.as_deref(), Some("id"));
    let q = tileshare::models::LatestQuery { field: None };
    assert!(q.field.is_none());
}

#[test]
fn tile_counts_by_shape() {
    let tiles = vec![tile(0, 0, 1, 1, &[1]), tile(1, 0, 1, 1, &[2])];
    assert_eq!(FileContent::Static { tiles }.tile_count(), 2);
    let frames = vec![
        vec![tile(0, 0, 1, 1, &[1])],
        vec![],
        vec![tile(0, 0, 1, 1, &[2]), tile(1, 0, 1, 1, &[3])],
    ];
    assert_eq!(FileContent::Animated { frames }.tile_count(), 3);
}
