//! The wire serializer: length-prefixed binary payloads of tile collections.
//!
//! All integers are unsigned 32-bit, big-endian, fixed width. A single-frame
//! payload is a tile count followed by each tile's geometry, byte length and
//! encoded bytes; a multi-frame payload is a frame count followed by one such
//! block per frame.

use vstd::prelude::*;

verus! {

use crate::processor::tiles_spec;
use crate::tile::{Tile, TileV};

/// The four big-endian bytes of `v`.
pub open spec fn be32(v: u32) -> Seq<u8> {
    seq![
        (((v >> 24) & 0xff) as u8),
        (((v >> 16) & 0xff) as u8),
        (((v >> 8) & 0xff) as u8),
        ((v & 0xff) as u8),
    ]
}

/// Concatenation of `f` over every element of `s`, in order.
pub open spec fn concat_map<A>(s: Seq<A>, f: spec_fn(A) -> Seq<u8>) -> Seq<u8>
    decreases s.len(),
{
    if s.len() == 0 {
        Seq::empty()
    } else {
        f(s[0]) + concat_map(s.skip(1), f)
    }
}

/// The wire bytes of one tile: geometry, byte length, then the encoded bytes.
pub open spec fn tile_bytes(t: TileV) -> Seq<u8> {
    be32(t.x) + be32(t.y) + be32(t.width) + be32(t.height) + be32(t.data.len() as u32) + t.data
}

/// `tile_bytes` as a function value, for folding over a sequence.
pub open spec fn tile_bytes_f() -> spec_fn(TileV) -> Seq<u8> {
    |t: TileV| tile_bytes(t)
}

/// The wire bytes of a tile sequence, in order.
pub open spec fn tiles_bytes(ts: Seq<TileV>) -> Seq<u8> {
    concat_map(ts, tile_bytes_f())
}

/// The single-frame payload: tile count, then every tile.
pub open spec fn payload_static_spec(ts: Seq<TileV>) -> Seq<u8> {
    be32(ts.len() as u32) + tiles_bytes(ts)
}

/// The wire bytes of one frame: its tile count, then its tiles.
pub open spec fn frame_bytes(f: Seq<TileV>) -> Seq<u8> {
    be32(f.len() as u32) + tiles_bytes(f)
}

/// `frame_bytes` as a function value, for folding over a sequence.
pub open spec fn frame_bytes_f() -> spec_fn(Seq<TileV>) -> Seq<u8> {
    |f: Seq<TileV>| frame_bytes(f)
}

/// The multi-frame payload: frame count, then every frame in temporal order.
pub open spec fn payload_frames_spec(fs: Seq<Seq<TileV>>) -> Seq<u8> {
    be32(fs.len() as u32) + concat_map(fs, frame_bytes_f())
}

/// The mathematical image of a tile vector.
pub open spec fn views_of_tiles(ts: Seq<Tile>) -> Seq<TileV> {
    ts.map_values(|t: Tile| t@)
}

/// The mathematical image of a frame vector.
pub open spec fn views_of_frames(fs: Seq<Vec<Tile>>) -> Seq<Seq<TileV>> {
    fs.map_values(|f: Vec<Tile>| views_of_tiles(f@))
}

/// Folding one more element appends its bytes.
pub proof fn lemma_concat_map_take_snoc<A>(s: Seq<A>, f: spec_fn(A) -> Seq<u8>, k: int)
    requires
        0 <= k < s.len(),
    ensures
        concat_map(s.take(k + 1), f) == concat_map(s.take(k), f) + f(s[k]),
    decreases k,
{
    if k == 0 {
        assert(s.take(1).skip(1) =~= Seq::<A>::empty());
        assert(s.take(0) =~= Seq::<A>::empty());
        assert(s.take(1)[0] == s[0]);
        assert(concat_map(s.take(1), f) =~= concat_map(s.take(0), f) + f(s[0]));
    } else {
        let s1 = s.skip(1);
        lemma_concat_map_take_snoc(s1, f, k - 1);
        assert(s.take(k + 1).skip(1) =~= s1.take(k));
        assert(s.take(k).skip(1) =~= s1.take(k - 1));
        assert(s1[k - 1] == s[k]);
        assert(s.take(k + 1)[0] == s[0] && s.take(k)[0] == s[0]);
        assert(concat_map(s.take(k + 1), f) == f(s[0]) + concat_map(s1.take(k), f));
        assert(concat_map(s.take(k), f) == f(s[0]) + concat_map(s1.take(k - 1), f));
        assert((f(s[0]) + (concat_map(s1.take(k - 1), f) + f(s[k]))) =~= ((f(s[0]) + concat_map(
            s1.take(k - 1),
            f,
        )) + f(s[k])));
    }
}

/// Appends the four big-endian bytes of `v`.
pub fn push_be32(out: &mut Vec<u8>, v: u32)
    ensures
        final(out)@ == old(out)@ + be32(v),
{
    proof {
        assert((v >> 24) & 0xff < 256 && (v >> 16) & 0xff < 256 && (v >> 8) & 0xff < 256 && v
            & 0xff < 256) by (bit_vector);
    }
    out.push(((v >> 24) & 0xff) as u8);
    out.push(((v >> 16) & 0xff) as u8);
    out.push(((v >> 8) & 0xff) as u8);
    out.push((v & 0xff) as u8);
    proof {
        assert(out@ =~= old(out)@ + be32(v));
    }
}

/// Serializes one tile collection as a single-frame payload.
pub fn get_image_payload(tiles: &Vec<Tile>) -> (r: Vec<u8>)
    requires
        tiles@.len() <= u32::MAX,
        forall|i: int|
            0 <= i < tiles@.len() ==> (#[trigger] tiles@[i]).data@.len() <= u32::MAX,
    ensures
        r@ == payload_static_spec(views_of_tiles(tiles@)),
{
    let ghost tv = views_of_tiles(tiles@);
    let ghost header = be32(tiles@.len() as u32);
    let mut out: Vec<u8> = Vec::new();
    let n: u32 = tiles.len() as u32;
    push_be32(&mut out, n);
    proof {
        assert(tv.take(0) =~= Seq::<TileV>::empty());
        assert(out@ =~= header + tiles_bytes(tv.take(0)));
    }
    let mut i: usize = 0;
    while i < tiles.len()
        invariant
            i <= tiles@.len() <= u32::MAX,
            tv == views_of_tiles(tiles@),
            header == be32(tiles@.len() as u32),
            forall|k: int|
                0 <= k < tiles@.len() ==> (#[trigger] tiles@[k]).data@.len() <= u32::MAX,
            out@ == header + tiles_bytes(tv.take(i as int)),
        decreases tiles@.len() - i,
    {
        let t = &tiles[i];
        push_be32(&mut out, t.x);
        push_be32(&mut out, t.y);
        push_be32(&mut out, t.width);
        push_be32(&mut out, t.height);
        push_be32(&mut out, t.data.len() as u32);
        out.extend_from_slice(t.data.as_slice());
        proof {
            lemma_concat_map_take_snoc(tv, tile_bytes_f(), i as int);
            assert(tv[i as int] == tiles@[i as int]@);
            assert(out@ =~= header + tiles_bytes(tv.take(i as int + 1)));
        }
        i += 1;
    }
    proof {
        assert(tv.take(tv.len() as int) =~= tv);
    }
    out
}

/// Serializes a frame sequence as a multi-frame payload.
pub fn get_gif_payload(frames: &Vec<Vec<Tile>>) -> (r: Vec<u8>)
    requires
        frames@.len() <= u32::MAX,
        forall|i: int| 0 <= i < frames@.len() ==> (#[trigger] frames@[i])@.len() <= u32::MAX,
        forall|i: int, j: int|
            0 <= i < frames@.len() && 0 <= j < frames@[i]@.len() ==> (#[trigger] frames@[i]@[j])
                .data@.len() <= u32::MAX,
    ensures
        r@ == payload_frames_spec(views_of_frames(frames@)),
{
    let ghost fv = views_of_frames(frames@);
    let ghost header = be32(frames@.len() as u32);
    let mut out: Vec<u8> = Vec::new();
    let n: u32 = frames.len() as u32;
    push_be32(&mut out, n);
    proof {
        assert(fv.take(0) =~= Seq::<Seq<TileV>>::empty());
        assert(out@ =~= header + concat_map(fv.take(0), frame_bytes_f()));
    }
    let mut i: usize = 0;
    while i < frames.len()
        invariant
            i <= frames@.len() <= u32::MAX,
            fv == views_of_frames(frames@),
            header == be32(frames@.len() as u32),
            forall|k: int| 0 <= k < frames@.len() ==> (#[trigger] frames@[k])@.len() <= u32::MAX,
            forall|k: int, j: int|
                0 <= k < frames@.len() && 0 <= j < frames@[k]@.len() ==> (
                #[trigger] frames@[k]@[j]).data@.len() <= u32::MAX,
            out@ == header + concat_map(fv.take(i as int), frame_bytes_f()),
        decreases frames@.len() - i,
    {
        let frame = &frames[i];
        let ghost pre = out@;
        let ghost ftv = views_of_tiles(frame@);
        let fn_count: u32 = frame.len() as u32;
        push_be32(&mut out, fn_count);
        proof {
            assert(ftv.take(0) =~= Seq::<TileV>::empty());
            assert(out@ =~= pre + (be32(frame@.len() as u32) + tiles_bytes(ftv.take(0))));
        }
        let mut j: usize = 0;
        while j < frame.len()
            invariant
                j <= frame@.len() <= u32::MAX,
                ftv == views_of_tiles(frame@),
                forall|k: int|
                    0 <= k < frame@.len() ==> (#[trigger] frame@[k]).data@.len() <= u32::MAX,
                out@ == pre + (be32(frame@.len() as u32) + tiles_bytes(ftv.take(j as int))),
            decreases frame@.len() - j,
        {
            let t = &frame[j];
            push_be32(&mut out, t.x);
            push_be32(&mut out, t.y);
            push_be32(&mut out, t.width);
            push_be32(&mut out, t.height);
            push_be32(&mut out, t.data.len() as u32);
            out.extend_from_slice(t.data.as_slice());
            proof {
                lemma_concat_map_take_snoc(ftv, tile_bytes_f(), j as int);
                assert(ftv[j as int] == frame@[j as int]@);
                assert(out@ =~= pre + (be32(frame@.len() as u32) + tiles_bytes(
                    ftv.take(j as int + 1),
                )));
            }
            j += 1;
        }
        proof {
            lemma_concat_map_take_snoc(fv, frame_bytes_f(), i as int);
            assert(fv[i as int] == ftv);
            assert(ftv.take(ftv.len() as int) =~= ftv);
            assert(out@ =~= header + concat_map(fv.take(i as int + 1), frame_bytes_f()));
        }
        i += 1;
    }
    proof {
        assert(fv.take(fv.len() as int) =~= fv);
    }
    out
}

/// The big-endian 32-bit integer at offset `off`.
pub open spec fn read_be32(b: Seq<u8>, off: int) -> u32 {
    ((b[off] as u32) << 24) | ((b[off + 1] as u32) << 16) | ((b[off + 2] as u32) << 8) | (b[off
        + 3] as u32)
}

/// Reading back the four bytes written for `v` yields `v`.
pub proof fn lemma_read_be32_at(b: Seq<u8>, off: int, v: u32)
    requires
        0 <= off,
        off + 4 <= b.len(),
        b.subrange(off, off + 4) == be32(v),
    ensures
        read_be32(b, off) == v,
{
    assert(b[off] == be32(v)[0] && b[off + 1] == be32(v)[1] && b[off + 2] == be32(v)[2] && b[off
        + 3] == be32(v)[3]) by {
        assert(b.subrange(off, off + 4)[0] == b[off]);
        assert(b.subrange(off, off + 4)[1] == b[off + 1]);
        assert(b.subrange(off, off + 4)[2] == b[off + 2]);
        assert(b.subrange(off, off + 4)[3] == b[off + 3]);
    }
    assert(((((v >> 24) & 0xff) as u8 as u32) << 24) | ((((v >> 16) & 0xff) as u8 as u32) << 16)
        | ((((v >> 8) & 0xff) as u8 as u32) << 8) | ((v & 0xff) as u8 as u32) == v)
        by (bit_vector);
}

/// A window of a window of `b` is the corresponding window of the inner view.
proof fn lemma_subrange_of_subrange(b: Seq<u8>, off: int, s: Seq<u8>, a: int, c: int)
    requires
        0 <= off,
        off + s.len() <= b.len(),
        b.subrange(off, off + s.len() as int) == s,
        0 <= a <= c <= s.len(),
    ensures
        b.subrange(off + a, off + c) == s.subrange(a, c),
{
    assert forall|k: int| 0 <= k < c - a implies b.subrange(off + a, off + c)[k] == s.subrange(
        a,
        c,
    )[k] by {
        assert(s.subrange(a, c)[k] == s[a + k]);
        assert(b.subrange(off, off + s.len() as int)[a + k] == b[off + a + k]);
        assert(b.subrange(off + a, off + c)[k] == b[off + a + k]);
    }
    assert(b.subrange(off + a, off + c) =~= s.subrange(a, c));
}

/// Where each field of one tile sits inside its wire bytes.
proof fn lemma_tile_bytes_layout(t: TileV)
    ensures
        tile_bytes(t).len() == 20 + t.data.len(),
        tile_bytes(t).subrange(0, 4) == be32(t.x),
        tile_bytes(t).subrange(4, 8) == be32(t.y),
        tile_bytes(t).subrange(8, 12) == be32(t.width),
        tile_bytes(t).subrange(12, 16) == be32(t.height),
        tile_bytes(t).subrange(16, 20) == be32(t.data.len() as u32),
        tile_bytes(t).subrange(20, tile_bytes(t).len() as int) == t.data,
{
    let tb = tile_bytes(t);
    assert(tb.subrange(0, 4) =~= be32(t.x));
    assert(tb.subrange(4, 8) =~= be32(t.y));
    assert(tb.subrange(8, 12) =~= be32(t.width));
    assert(tb.subrange(12, 16) =~= be32(t.height));
    assert(tb.subrange(16, 20) =~= be32(t.data.len() as u32));
    assert(tb.subrange(20, tb.len() as int) =~= t.data);
}

/// Streaming parse of `n` tiles starting at `off`: each tile is read from its
/// length-prefixed fields alone, without knowing the total payload length.
pub open spec fn parse_tiles(b: Seq<u8>, off: int, n: int) -> Option<(Seq<TileV>, int)>
    decreases n,
{
    if n <= 0 {
        Some((Seq::empty(), off))
    } else if 0 <= off && off + 20 <= b.len() {
        let dl = read_be32(b, off + 16) as int;
        if off + 20 + dl <= b.len() {
            match parse_tiles(b, off + 20 + dl, n - 1) {
                Some((rest, end)) => Some(
                    (
                        seq![
                            TileV {
                                x: read_be32(b, off),
                                y: read_be32(b, off + 4),
                                width: read_be32(b, off + 8),
                                height: read_be32(b, off + 12),
                                data: b.subrange(off + 20, off + 20 + dl),
                            },
                        ] + rest,
                        end,
                    ),
                ),
                None => None,
            }
        } else {
            None
        }
    } else {
        None
    }
}

/// Parse of a whole single-frame payload: the tile count, then its tiles,
/// with nothing left over.
pub open spec fn parse_static_payload(b: Seq<u8>) -> Option<Seq<TileV>> {
    if b.len() >= 4 {
        match parse_tiles(b, 4, read_be32(b, 0) as int) {
            Some((ts, end)) => if end == b.len() {
                Some(ts)
            } else {
                None
            },
            None => None,
        }
    } else {
        None
    }
}

/// Streaming parse of `n` frames starting at `off`.
pub open spec fn parse_frames(b: Seq<u8>, off: int, n: int) -> Option<(Seq<Seq<TileV>>, int)>
    decreases n,
{
    if n <= 0 {
        Some((Seq::empty(), off))
    } else if 0 <= off && off + 4 <= b.len() {
        match parse_tiles(b, off + 4, read_be32(b, off) as int) {
            Some((ts, mid)) => match parse_frames(b, mid, n - 1) {
                Some((rest, end)) => Some((seq![ts] + rest, end)),
                None => None,
            },
            None => None,
        }
    } else {
        None
    }
}

/// Parse of a whole multi-frame payload.
pub open spec fn parse_frames_payload(b: Seq<u8>) -> Option<Seq<Seq<TileV>>> {
    if b.len() >= 4 {
        match parse_frames(b, 4, read_be32(b, 0) as int) {
            Some((fs, end)) => if end == b.len() {
                Some(fs)
            } else {
                None
            },
            None => None,
        }
    } else {
        None
    }
}

/// Parsing the serialized bytes of a tile sequence from offset `off` yields
/// exactly that sequence and stops exactly after its bytes.
proof fn lemma_parse_tiles_of(b: Seq<u8>, off: int, ts: Seq<TileV>)
    requires
        0 <= off,
        off + tiles_bytes(ts).len() <= b.len(),
        b.subrange(off, off + tiles_bytes(ts).len() as int) == tiles_bytes(ts),
        forall|i: int| 0 <= i < ts.len() ==> (#[trigger] ts[i]).data.len() <= u32::MAX,
    ensures
        parse_tiles(b, off, ts.len() as int) == Some((ts, off + tiles_bytes(ts).len() as int)),
    decreases ts.len(),
{
    if ts.len() == 0 {
        assert(tiles_bytes(ts).len() == 0);
        assert(parse_tiles(b, off, 0) == Some((Seq::<TileV>::empty(), off)));
        assert(ts =~= Seq::<TileV>::empty());
    } else {
        let t0 = ts[0];
        let tb = tile_bytes(t0);
        let rest = tiles_bytes(ts.skip(1));
        let s = tiles_bytes(ts);
        assert(s == tile_bytes_f()(ts[0]) + concat_map(ts.skip(1), tile_bytes_f()));
        assert(s == tb + rest);
        let dl = t0.data.len() as int;
        lemma_tile_bytes_layout(t0);
        lemma_subrange_of_subrange(b, off, s, 0, tb.len() as int);
        assert(s.subrange(0, tb.len() as int) =~= tb);
        assert(b.subrange(off, off + tb.len() as int) == tb);
        lemma_subrange_of_subrange(b, off, tb, 0, 4);
        lemma_subrange_of_subrange(b, off, tb, 4, 8);
        lemma_subrange_of_subrange(b, off, tb, 8, 12);
        lemma_subrange_of_subrange(b, off, tb, 12, 16);
        lemma_subrange_of_subrange(b, off, tb, 16, 20);
        lemma_subrange_of_subrange(b, off, tb, 20, tb.len() as int);
        lemma_read_be32_at(b, off, t0.x);
        lemma_read_be32_at(b, off + 4, t0.y);
        lemma_read_be32_at(b, off + 8, t0.width);
        lemma_read_be32_at(b, off + 12, t0.height);
        lemma_read_be32_at(b, off + 16, t0.data.len() as u32);
        assert(read_be32(b, off + 16) as int == dl);
        assert(b.subrange(off + 20, off + 20 + dl) == t0.data);
        let off1 = off + 20 + dl;
        lemma_subrange_of_subrange(b, off, s, tb.len() as int, s.len() as int);
        assert(s.subrange(tb.len() as int, s.len() as int) =~= rest);
        assert(b.subrange(off1, off1 + rest.len() as int) == rest);
        lemma_parse_tiles_of(b, off1, ts.skip(1));
        let parsed = TileV {
            x: read_be32(b, off),
            y: read_be32(b, off + 4),
            width: read_be32(b, off + 8),
            height: read_be32(b, off + 12),
            data: b.subrange(off + 20, off + 20 + dl),
        };
        assert(parsed =~= t0);
        assert(seq![parsed] + ts.skip(1) =~= ts);
    }
}

/// Law (round trip): parsing the single-frame payload serialized for any tile
/// sequence reconstructs exactly that sequence — identical geometry and
/// identical encoded bytes. Serialization is lossless.
pub proof fn lemma_payload_roundtrip(ts: Seq<TileV>)
    requires
        ts.len() <= u32::MAX,
        forall|i: int| 0 <= i < ts.len() ==> (#[trigger] ts[i]).data.len() <= u32::MAX,
    ensures
        parse_static_payload(payload_static_spec(ts)) == Some(ts),
{
    let b = payload_static_spec(ts);
    let header = be32(ts.len() as u32);
    assert(b == header + tiles_bytes(ts));
    assert(b.subrange(0, 4) =~= be32(ts.len() as u32));
    lemma_read_be32_at(b, 0, ts.len() as u32);
    assert(b.subrange(4, 4 + tiles_bytes(ts).len() as int) =~= tiles_bytes(ts));
    lemma_parse_tiles_of(b, 4, ts);
}

/// Parsing the serialized bytes of a frame sequence from offset `off` yields
/// exactly those frames and stops exactly after their bytes.
proof fn lemma_parse_frames_of(b: Seq<u8>, off: int, fs: Seq<Seq<TileV>>)
    requires
        0 <= off,
        off + concat_map(fs, frame_bytes_f()).len() <= b.len(),
        b.subrange(off, off + concat_map(fs, frame_bytes_f()).len() as int) == concat_map(
            fs,
            frame_bytes_f(),
        ),
        forall|i: int| 0 <= i < fs.len() ==> (#[trigger] fs[i]).len() <= u32::MAX,
        forall|i: int, j: int|
            0 <= i < fs.len() && 0 <= j < fs[i].len() ==> (#[trigger] fs[i][j]).data.len()
                <= u32::MAX,
    ensures
        parse_frames(b, off, fs.len() as int) == Some(
            (fs, off + concat_map(fs, frame_bytes_f()).len() as int),
        ),
    decreases fs.len(),
{
    if fs.len() == 0 {
        assert(fs =~= Seq::<Seq<TileV>>::empty());
    } else {
        let f0 = fs[0];
        let fb = frame_bytes(f0);
        let rest = concat_map(fs.skip(1), frame_bytes_f());
        let s = concat_map(fs, frame_bytes_f());
        assert(s == frame_bytes_f()(fs[0]) + concat_map(fs.skip(1), frame_bytes_f()));
        assert(s == fb + rest);
        lemma_subrange_of_subrange(b, off, s, 0, fb.len() as int);
        assert(s.subrange(0, fb.len() as int) =~= fb);
        assert(b.subrange(off, off + fb.len() as int) == fb);
        lemma_subrange_of_subrange(b, off, fb, 0, 4);
        assert(fb.subrange(0, 4) =~= be32(f0.len() as u32));
        lemma_read_be32_at(b, off, f0.len() as u32);
        lemma_subrange_of_subrange(b, off, fb, 4, fb.len() as int);
        assert(fb.subrange(4, fb.len() as int) =~= tiles_bytes(f0));
        assert(b.subrange(off + 4, off + 4 + tiles_bytes(f0).len() as int) == tiles_bytes(f0));
        lemma_parse_tiles_of(b, off + 4, f0);
        let mid = off + 4 + tiles_bytes(f0).len() as int;
        lemma_subrange_of_subrange(b, off, s, fb.len() as int, s.len() as int);
        assert(s.subrange(fb.len() as int, s.len() as int) =~= rest);
        assert(b.subrange(mid, mid + rest.len() as int) == rest);
        lemma_parse_frames_of(b, mid, fs.skip(1));
        assert(seq![f0] + fs.skip(1) =~= fs);
    }
}

/// Law (round trip, animated): parsing the multi-frame payload serialized for
/// any frame sequence reconstructs exactly those frames.
pub proof fn lemma_frames_payload_roundtrip(fs: Seq<Seq<TileV>>)
    requires
        fs.len() <= u32::MAX,
        forall|i: int| 0 <= i < fs.len() ==> (#[trigger] fs[i]).len() <= u32::MAX,
        forall|i: int, j: int|
            0 <= i < fs.len() && 0 <= j < fs[i].len() ==> (#[trigger] fs[i][j]).data.len()
                <= u32::MAX,
    ensures
        parse_frames_payload(payload_frames_spec(fs)) == Some(fs),
{
    let b = payload_frames_spec(fs);
    assert(b == be32(fs.len() as u32) + concat_map(fs, frame_bytes_f()));
    assert(b.subrange(0, 4) =~= be32(fs.len() as u32));
    lemma_read_be32_at(b, 0, fs.len() as u32);
    assert(b.subrange(4, 4 + concat_map(fs, frame_bytes_f()).len() as int) =~= concat_map(
        fs,
        frame_bytes_f(),
    ));
    lemma_parse_frames_of(b, 4, fs);
}

/// Law (determinism): tiling the same raster twice with the same edge length
/// yields byte-identical serialized output — any two tile sequences that both
/// equal the tile grid of one raster serialize to the same payload.
pub proof fn lemma_tiling_deterministic(
    a: Seq<TileV>,
    b: Seq<TileV>,
    px: Seq<u8>,
    rw: u32,
    rh: u32,
    s: u32,
)
    requires
        a == tiles_spec(px, rw, rh, s),
        b == tiles_spec(px, rw, rh, s),
    ensures
        payload_static_spec(a) == payload_static_spec(b),
{
}

} // verus!
