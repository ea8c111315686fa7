use fogcore::block::Block;
use fogcore::fogmap::FogMap;
use fogcore::shader::{Rgba8, TileShader, TileSize};
use fogcore::FogError;
use std::collections::HashSet;

const GRID: f64 = 4194304.0; // 2^22 pixels across the world
const PI: f64 = std::f64::consts::PI;

fn lng_to_gx(lng: f64) -> i64 {
    ((lng + 180.0) / 360.0 * GRID) as i64
}

fn lat_to_gy(lat: f64) -> i64 {
    ((PI - (lat * PI / 180.0).tan().asinh()) * GRID / (2.0 * PI)) as i64
}

fn lng_to_tile_x(lng: f64, zoom: i16) -> i64 {
    let mul = (1u64 << zoom) as f64;
    ((lng + 180.0) / 360.0 * mul) as i64
}

fn lat_to_tile_y(lat: f64, zoom: i16) -> i64 {
    let mul = (1u64 << zoom) as f64;
    ((PI - (lat * PI / 180.0).tan().asinh()) * mul / (2.0 * PI)) as i64
}

fn is_visited_global(m: &FogMap, gx: i64, gy: i64) -> bool {
    let tx = (gx >> 13) % 512;
    let ty = gy >> 13;
    match m.get_tile(tx, ty) {
        None => false,
        Some(tile) => {
            let lx = gx - (gx >> 13 << 13);
            let ly = gy - (ty << 13);
            let bx = lx / 64;
            let by = ly / 64;
            match tile.get_block(bx, by) {
                None => false,
                Some(block) => block.is_visited(lx % 64, ly % 64),
            }
        }
    }
}

fn bg() -> Rgba8 {
    Rgba8 { r: 10, g: 20, b: 30, a: 255 }
}

fn fg() -> Rgba8 {
    Rgba8 { r: 200, g: 100, b: 50, a: 255 }
}

fn count_fg(buf: &[u8], c: Rgba8) -> usize {
    let mut n = 0;
    let mut i = 0;
    while i + 3 < buf.len() {
        if buf[i] == c.r && buf[i + 1] == c.g && buf[i + 2] == c.b && buf[i + 3] == c.a {
            n += 1;
        }
        i += 4;
    }
    n
}

/// The flat single-grid Bresenham that the pyramid must reproduce: draw the
/// start, then step the dominant axis to the end, drawing every pixel.
fn flat_bresenham(x0: i64, y0: i64, x1: i64, y1: i64) -> HashSet<(i64, i64)> {
    let mut out = HashSet::new();
    let dx = x1 - x0;
    let dy = y1 - y0;
    let dx0 = dx.abs();
    let dy0 = dy.abs();
    let q13 = (dx < 0 && dy < 0) || (dx > 0 && dy > 0);
    if dy0 <= dx0 {
        let (mut x, mut y, xe) = if dx >= 0 { (x0, y0, x1) } else { (x1, y1, x0) };
        let mut p = 2 * dy0 - dx0;
        if x < xe {
            out.insert((x, y));
        }
        while x < xe {
            x += 1;
            if p < 0 {
                p += 2 * dy0;
            } else {
                if q13 {
                    y += 1;
                } else {
                    y -= 1;
                }
                p += 2 * (dy0 - dx0);
            }
            out.insert((x, y));
        }
    } else {
        let (mut x, mut y, ye) = if dy >= 0 { (x0, y0, y1) } else { (x1, y1, y0) };
        let mut p = 2 * dx0 - dy0;
        if y < ye {
            out.insert((x, y));
        }
        while y < ye {
            y += 1;
            if p <= 0 {
                p += 2 * dx0;
            } else {
                if q13 {
                    x += 1;
                } else {
                    x -= 1;
                }
                p += 2 * (dx0 - dy0);
            }
            out.insert((x, y));
        }
    }
    out
}

/// Builds a snapshot payload with the given blocks, each a (bx, by, bytes)
/// triple, and compresses it as the importer expects.
fn make_snapshot(blocks: &[(usize, usize, [u8; 515])]) -> Vec<u8> {
    let mut payload = vec![0u8; 32768 + 515 * blocks.len()];
    for (k, (bx, by, data)) in blocks.iter().enumerate() {
        let slot = k + 1;
        let header_index = by * 128 + bx;
        payload[2 * header_index] = (slot & 0xff) as u8;
        payload[2 * header_index + 1] = (slot >> 8) as u8;
        let start = 32768 + (slot - 1) * 515;
        payload[start..start + 515].copy_from_slice(data);
    }
    miniz_oxide::deflate::compress_to_vec_zlib(&payload, 6)
}

#[test]
fn test_different_scale_rendering() {}

#[test]
fn test_add_line() {
    let mut fogmap = FogMap::new();
    fogmap.add_line_pixels(
        lng_to_gx(121.5157559),
        lat_to_gy(31.29735617),
        lng_to_gx(121.515725),
        lat_to_gy(31.29731979),
    );
}

#[test]
fn test_degenerate_line_draws_nothing() {
    let mut m = FogMap::new();
    m.add_line_pixels(1000, 1000, 1000, 1000);
    assert!(!is_visited_global(&m, 1000, 1000));
}

#[test]
fn test_horizontal_line_in_one_block() {
    let mut m = FogMap::new();
    m.add_line_pixels(100, 100, 110, 100);
    for x in 100..=110 {
        assert!(is_visited_global(&m, x, 100), "pixel {} missing", x);
    }
    assert!(!is_visited_global(&m, 99, 100));
    assert!(!is_visited_global(&m, 111, 100));
    assert!(!is_visited_global(&m, 105, 101));
    assert!(!is_visited_global(&m, 105, 99));
}

#[test]
fn test_bresenham_continuity_across_boundaries() {
    // crosses a tile boundary at x = 8192 and many block boundaries
    let (x0, y0, x1, y1) = (8000, 8100, 8700, 8400);
    let expected = flat_bresenham(x0, y0, x1, y1);
    let mut m = FogMap::new();
    m.add_line_pixels(x0, y0, x1, y1);
    for gx in 7990..8710 {
        for gy in 8090..8410 {
            let want = expected.contains(&(gx, gy));
            let got = is_visited_global(&m, gx, gy);
            if gx < x1 {
                assert_eq!(want, got, "mismatch at ({}, {})", gx, gy);
            }
        }
    }
}

#[test]
fn test_steep_line_matches_flat_walk() {
    let (x0, y0, x1, y1) = (5000, 4000, 5200, 4900);
    let expected = flat_bresenham(x0, y0, x1, y1);
    let mut m = FogMap::new();
    m.add_line_pixels(x0, y0, x1, y1);
    for gx in 4990..5210 {
        for gy in 3990..4910 {
            let want = expected.contains(&(gx, gy));
            let got = is_visited_global(&m, gx, gy);
            if gy < y1 {
                assert_eq!(want, got, "mismatch at ({}, {})", gx, gy);
            }
        }
    }
}

#[test]
fn test_antimeridian_short_arc() {
    let xa = lng_to_gx(170.0);
    let xb = lng_to_gx(-170.0);
    let y = lat_to_gy(0.0);
    let mut m = FogMap::new();
    m.add_line_pixels(xa, y, xb, y);
    // the short arc crosses longitude 180, so the drawn pixels run east from
    // xa past the world edge and wrap into low x
    let shifted_end = xb + 4194304;
    let mut count = 0i64;
    for gx in xa..=shifted_end {
        if is_visited_global(&m, gx, y) {
            count += 1;
        }
    }
    assert_eq!(count, shifted_end - xa + 1);
    // nothing was drawn along the long arc through longitude 0
    assert!(m.get_tile(256, y >> 13).is_none());
    assert!(!is_visited_global(&m, lng_to_gx(0.0), y));
    // the wrapped tiles exist on both sides of the antimeridian
    assert!(m.get_tile(xa >> 13, y >> 13).is_some());
    assert!(m.get_tile((xb >> 13) % 512, y >> 13).is_some());
}

#[test]
fn test_import_snapshot() {
    // block (3, 4): pixel (0, 0) set (high bit of the first byte), pixel
    // (8, 1) set (byte 9, high bit), trailer 1 2 3
    let mut data = [0u8; 515];
    data[0] = 0x80;
    data[9] = 0x80;
    data[512] = 1;
    data[513] = 2;
    data[514] = 3;
    let file = make_snapshot(&[(3, 4, data)]);
    let mut m = FogMap::new();
    // "ihl" deciphers to 921; tile (921 % 512, 921 / 512) = (409, 1)
    let r = m.add_fow_file("0921ihlxn", file.clone());
    assert_eq!(r, Ok(()));
    let tile = m.get_tile(409, 1).expect("tile exists");
    let block = tile.get_block(3, 4).expect("block exists");
    assert!(block.is_visited(0, 0));
    assert!(block.is_visited(8, 1));
    assert!(!block.is_visited(1, 0));
    assert!(!block.is_visited(0, 1));
    assert!(tile.get_block(0, 0).is_none());

    // import determinism: a second empty map agrees everywhere
    let mut m2 = FogMap::new();
    assert_eq!(m2.add_fow_file("0921ihlxn", file), Ok(()));
    let tile2 = m2.get_tile(409, 1).expect("tile exists");
    let block2 = tile2.get_block(3, 4).expect("block exists");
    for x in 0..64 {
        for y in 0..64 {
            assert_eq!(block.is_visited(x, y), block2.is_visited(x, y));
        }
    }
}

#[test]
fn test_import_overwrites_block() {
    let mut m = FogMap::new();
    // a line through block (3, 4) of tile (409, 1): global tile origin
    // (409 * 8192, 1 * 8192), block origin (192, 256) inside it
    let gx = 409 * 8192 + 3 * 64 + 10;
    let gy = 8192 + 4 * 64 + 20;
    m.add_line_pixels(gx, gy, gx + 5, gy);
    assert!(is_visited_global(&m, gx, gy));
    // the snapshot overwrites that block with a single other bit
    let mut data = [0u8; 515];
    data[0] = 0x80;
    let file = make_snapshot(&[(3, 4, data)]);
    assert_eq!(m.add_fow_file("0921ihlxn", file), Ok(()));
    assert!(!is_visited_global(&m, gx, gy), "import replaces the block");
    let tile = m.get_tile(409, 1).unwrap();
    assert!(tile.get_block(3, 4).unwrap().is_visited(0, 0));
}

#[test]
fn test_import_bad_filename() {
    let mut m = FogMap::new();
    let file = make_snapshot(&[]);
    // a character outside the cipher alphabet
    assert_eq!(m.add_fow_file("0921zzzxn", file.clone()), Err(FogError::BadFilename));
    // too short to hold a prefix, an id and a suffix
    assert_eq!(m.add_fow_file("abcdef", file.clone()), Err(FogError::BadFilename));
    // the id reaches 2^18: "illlll" is 911111
    assert_eq!(m.add_fow_file("0921illlllxn", file), Err(FogError::BadFilename));
    assert!(m.get_tile(409, 1).is_none());
}

#[test]
fn test_import_bad_payload() {
    let mut m = FogMap::new();
    // not a zlib stream
    assert_eq!(
        m.add_fow_file("0921ihlxn", b"not a zlib stream".to_vec()),
        Err(FogError::BadPayload)
    );
    // inflates to less than the slot table
    let short = miniz_oxide::deflate::compress_to_vec_zlib(&[0u8; 100], 6);
    assert_eq!(m.add_fow_file("0921ihlxn", short), Err(FogError::BadPayload));
    // a slot pointing past the end of the data
    let mut payload = vec![0u8; 32768];
    payload[0] = 7; // slot 7 of block (0, 0), but no records follow
    let truncated = miniz_oxide::deflate::compress_to_vec_zlib(&payload, 6);
    assert_eq!(m.add_fow_file("0921ihlxn", truncated), Err(FogError::BadPayload));
    // failed imports leave no state behind
    assert!(m.get_tile(409, 1).is_none());
}

#[test]
fn test_render_empty_map_is_background() {
    let m = FogMap::new();
    for zoom in [0i16, 1, 5, 9, 15, 20] {
        let buf = TileShader::render_pixmap(&m, 0, 0, zoom, 8, bg(), fg());
        assert_eq!(buf.len(), 256 * 256 * 4);
        assert_eq!(count_fg(&buf, bg()), 256 * 256);
        assert_eq!(count_fg(&buf, fg()), 0);
    }
}

#[test]
fn test_render_line_visible() {
    let mut m = FogMap::new();
    m.add_line_pixels(
        lng_to_gx(116.4233640802707),
        lat_to_gy(39.51154847952295),
        lng_to_gx(121.34651031397549),
        lat_to_gy(31.202812552714104),
    );
    let vx = lng_to_tile_x(116.42, 2);
    let vy = lat_to_tile_y(39.51, 2);
    let buf = TileShader::render_pixmap(&m, vx, vy, 2, 8, bg(), fg());
    assert!(count_fg(&buf, fg()) > 0);
    assert_eq!(count_fg(&buf, fg()) + count_fg(&buf, bg()), 256 * 256);
}

#[test]
fn test_render_pacific_arc() {
    let mut m = FogMap::new();
    m.add_line_pixels(
        lng_to_gx(144.847737),
        lat_to_gy(-37.6721702),
        lng_to_gx(-160.3644029),
        lat_to_gy(21.3186185),
    );
    // the zoom-3 viewports that hold the two endpoints, east and west of
    // the antimeridian; each pixel tile is 2^19 projected pixels wide there
    let (ex, ey) = (lng_to_gx(144.847737) >> 19, lat_to_gy(-37.6721702) >> 19);
    let (wx, wy) = (lng_to_gx(-160.3644029) >> 19, lat_to_gy(21.3186185) >> 19);
    let buf = TileShader::render_pixmap(&m, ex, ey, 3, 8, bg(), fg());
    assert!(count_fg(&buf, fg()) > 0, "arc visible east of the antimeridian");
    let buf2 = TileShader::render_pixmap(&m, wx, wy, 3, 8, bg(), fg());
    assert!(count_fg(&buf2, fg()) > 0, "arc visible west of the antimeridian");
    // nothing near longitude 0
    let buf3 = TileShader::render_pixmap(&m, 4, 3, 3, 8, bg(), fg());
    assert_eq!(count_fg(&buf3, fg()), 0);
}

#[test]
fn test_render_sizes_and_zooms() {
    let mut m = FogMap::new();
    let gx = lng_to_gx(114.1);
    let gy = lat_to_gy(22.7);
    m.add_line_pixels(gx - 3000, gy, gx + 3000, gy);
    m.add_line_pixels(gx, gy - 3000, gx, gy + 3000);
    for zoom in [1i16, 5, 9, 12, 15] {
        for bsp in [8i16, 9, 10] {
            let vx = lng_to_tile_x(114.1, zoom);
            let vy = lat_to_tile_y(22.7, zoom);
            let buf = TileShader::render_pixmap(&m, vx, vy, zoom, bsp, bg(), fg());
            let w = 1usize << bsp;
            assert_eq!(buf.len(), w * w * 4);
            assert!(
                count_fg(&buf, fg()) > 0,
                "no foreground at zoom {} size {}",
                zoom,
                bsp
            );
        }
    }
}

#[test]
fn test_render_zoom_pooling() {
    let mut m = FogMap::new();
    let gx = lng_to_gx(10.0);
    let gy = lat_to_gy(10.0);
    m.add_line_pixels(gx, gy, gx + 2000, gy + 1200);
    let zoom: i16 = 9;
    let vx = lng_to_tile_x(10.0, zoom);
    let vy = lat_to_tile_y(10.0, zoom);
    let hi = TileShader::render_pixmap(&m, vx, vy, zoom, 8, bg(), fg());
    let lo = TileShader::render_pixmap(&m, vx / 2, vy / 2, zoom - 1, 8, bg(), fg());
    assert!(count_fg(&hi, fg()) > 0);
    // the quadrant of the coarser image that covers the finer viewport
    let ox = (vx & 1) as usize * 128;
    let oy = (vy & 1) as usize * 128;
    let is_fg = |buf: &Vec<u8>, x: usize, y: usize| {
        let i = (y * 256 + x) * 4;
        buf[i] == fg().r && buf[i + 1] == fg().g && buf[i + 2] == fg().b && buf[i + 3] == fg().a
    };
    let mut sources = 0usize;
    for x in 0..256usize {
        for y in 0..256usize {
            if is_fg(&hi, x, y) {
                sources += 1;
                assert!(
                    is_fg(&lo, ox + x / 2, oy + y / 2),
                    "zoomed-out pixel lost at ({}, {})",
                    x,
                    y
                );
            }
        }
    }
    assert!(sources > 0);
}

#[test]
fn test_render_idempotent() {
    let mut seed: u64 = 0x2545F4914F6CDD1D;
    let mut next = move || {
        seed = seed.wrapping_mul(6364136223846793005).wrapping_add(1442695040888963407);
        seed >> 33
    };
    let mut segments = Vec::new();
    let base_x = 2_000_000i64;
    let base_y = 2_000_000i64;
    for _ in 0..100 {
        let x0 = base_x + (next() % 20000) as i64;
        let y0 = base_y + (next() % 20000) as i64;
        let x1 = base_x + (next() % 20000) as i64;
        let y1 = base_y + (next() % 20000) as i64;
        segments.push((x0, y0, x1, y1));
    }
    let mut m = FogMap::new();
    for &(x0, y0, x1, y1) in &segments {
        m.add_line_pixels(x0, y0, x1, y1);
    }
    let vx = base_x >> 13;
    let vy = base_y >> 13;
    let first = TileShader::render_pixmap(&m, vx, vy, 9, 9, bg(), fg());
    let n1 = count_fg(&first, fg());
    assert!(n1 > 0);
    for &(x0, y0, x1, y1) in &segments {
        m.add_line_pixels(x0, y0, x1, y1);
    }
    let second = TileShader::render_pixmap(&m, vx, vy, 9, 9, bg(), fg());
    assert_eq!(first, second);
}

#[test]
fn test_tile_size_values() {
    assert_eq!(TileSize::TileSize256.size(), 256);
    assert_eq!(TileSize::TileSize512.size(), 512);
    assert_eq!(TileSize::TileSize1024.size(), 1024);
    assert_eq!(TileSize::TileSize256.power(), 8);
    assert_eq!(TileSize::TileSize512.power(), 9);
    assert_eq!(TileSize::TileSize1024.power(), 10);
}

#[test]
fn test_block_new_with_data_roundtrip() {
    let mut bytes = vec![0u8; 515];
    bytes[8] = 0x01; // row 1, pixel x = 7
    let b = Block::new_with_data(bytes);
    assert!(b.is_visited(7, 1));
    assert!(!b.is_visited(6, 1));
    assert!(!b.is_visited(7, 0));
    let e = Block::new();
    assert!(!e.is_visited(0, 0));
}

#[test]
fn test_render_into_buffer_too_small() {
    let m = FogMap::new();
    let mut small = vec![0u8; 100];
    assert_eq!(
        TileShader::render_into(&m, &mut small, 0, 0, 1, 8, bg(), fg()),
        Err(FogError::BufferTooSmall)
    );
    assert_eq!(small, vec![0u8; 100]);
    let mut big = vec![7u8; 256 * 256 * 4 + 8];
    assert_eq!(TileShader::render_into(&m, &mut big, 0, 0, 1, 8, bg(), fg()), Ok(()));
    assert_eq!(count_fg(&big[..256 * 256 * 4], bg()), 256 * 256);
    assert!(big[256 * 256 * 4..].iter().all(|&b| b == 7));
}

#[test]
fn test_all_zero_block_renders_background() {
    let mut m = FogMap::new();
    let data = [0u8; 515];
    let file = make_snapshot(&[(3, 4, data)]);
    assert_eq!(m.add_fow_file("0921ihlxn", file), Ok(()));
    // the tile and block exist but hold no visited bit, so max-pooling
    // renders pure background at every zoom
    assert!(m.get_tile(409, 1).unwrap().get_block(3, 4).is_some());
    for zoom in [0i16, 5, 9, 12] {
        let (vx, vy) = if zoom >= 9 {
            (409i64 << (zoom - 9), 1i64 << (zoom - 9))
        } else {
            (409i64 >> (9 - zoom), 1i64 >> (9 - zoom))
        };
        let buf = TileShader::render_pixmap(&m, vx, vy, zoom, 8, bg(), fg());
        assert_eq!(count_fg(&buf, fg()), 0, "zoom {}", zoom);
    }
}

#[test]
fn test_render_deterministic() {
    let mut m = FogMap::new();
    m.add_line_pixels(70000, 70100, 71000, 70600);
    let vx = 70000i64 >> 13;
    let vy = 70100i64 >> 13;
    let r1 = TileShader::render_pixmap(&m, vx, vy, 9, 9, bg(), fg());
    let r2 = TileShader::render_pixmap(&m, vx, vy, 9, 9, bg(), fg());
    assert!(count_fg(&r1, fg()) > 0);
    assert_eq!(r1, r2);
}
