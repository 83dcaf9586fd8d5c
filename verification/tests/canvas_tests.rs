use place_canvas::canvas::Canvas;

fn checker_canvas(w: u32, h: u32) -> Canvas {
    // pixel (x, y) gets bytes (x, y, x + y), truncated to u8
    let mut data = Vec::new();
    for y in 0..h {
        for x in 0..w {
            data.push(x as u8);
            data.push(y as u8);
            data.push((x + y) as u8);
        }
    }
    Canvas::new(w, h, data)
}

#[test]
fn set_pixel_keeps_byte_count() {
    let mut c = Canvas::blank(5, 4);
    assert_eq!(c.pixels.len(), 5 * 4 * 3);
    c.set_pixel(0, 0, 1, 2, 3);
    assert_eq!(c.pixels.len(), 5 * 4 * 3);
    c.set_pixel(4, 3, 9, 9, 9);
    assert_eq!(c.pixels.len(), 5 * 4 * 3);
    // out of bounds: silent no-op
    c.set_pixel(5, 0, 7, 7, 7);
    c.set_pixel(0, 4, 7, 7, 7);
    c.set_pixel(1000, 1000, 7, 7, 7);
    assert_eq!(c.pixels.len(), 5 * 4 * 3);
    // and the in-bounds writes landed
    assert_eq!(&c.pixels[0..3], &[1, 2, 3]);
    let last = (3 * 5 + 4) * 3;
    assert_eq!(&c.pixels[last..last + 3], &[9, 9, 9]);
}

#[test]
fn set_pixel_out_of_bounds_is_noop() {
    let mut c = Canvas::blank(3, 3);
    let before = c.pixels.clone();
    c.set_pixel(3, 0, 1, 1, 1);
    c.set_pixel(0, 3, 1, 1, 1);
    assert_eq!(c.pixels, before);
}

#[test]
fn region_extracts_rows() {
    let c = checker_canvas(4, 3);
    let r = c.region(1, 1, 2, 2).unwrap();
    assert_eq!((r.x, r.y, r.w, r.h), (1, 1, 2, 2));
    assert_eq!(
        r.data,
        vec![
            1, 1, 2, 2, 1, 3, // row y=1: pixels (1,1), (2,1)
            1, 2, 3, 2, 2, 4, // row y=2: pixels (1,2), (2,2)
        ]
    );
}

#[test]
fn region_rejects_out_of_bounds() {
    let c = Canvas::blank(4, 3);
    assert!(c.region(0, 0, 4, 3).is_some());
    assert!(c.region(0, 0, 5, 3).is_none());
    assert!(c.region(4, 0, 1, 1).is_none());
    assert!(c.region(3, 2, 2, 1).is_none());
}

#[test]
fn resize_preserves_overlap_and_fills_white() {
    let mut c = checker_canvas(3, 3);
    c.set_size(5, 2);
    assert_eq!(c.width, 5);
    assert_eq!(c.height, 2);
    assert_eq!(c.pixels.len(), 5 * 2 * 3);
    // overlap kept exactly
    for y in 0..2u32 {
        for x in 0..3u32 {
            let i = ((y * 5 + x) * 3) as usize;
            assert_eq!(&c.pixels[i..i + 3], &[x as u8, y as u8, (x + y) as u8]);
        }
    }
    // new area white
    for y in 0..2u32 {
        for x in 3..5u32 {
            let i = ((y * 5 + x) * 3) as usize;
            assert_eq!(&c.pixels[i..i + 3], &[255, 255, 255]);
        }
    }
}

fn count_covering(regions: &[place_canvas::canvas::Region], x: u32, y: u32) -> usize {
    regions
        .iter()
        .filter(|r| r.x <= x && x < r.x + r.w && r.y <= y && y < r.y + r.h)
        .count()
}

#[test]
fn drain_covers_each_dirty_pixel_exactly_once() {
    let mut c = Canvas::blank(8, 8);
    let dirty = [(0u32, 0u32), (7, 7), (3, 4), (4, 3)];
    for &(x, y) in &dirty {
        c.set_pixel(x, y, 1, 2, 3);
    }
    let regions = c.compile_deltas(None);
    for &(x, y) in &dirty {
        assert_eq!(count_covering(&regions, x, y), 1);
    }
    for r in &regions {
        assert!(r.w >= 1 && r.h >= 1);
        assert!(r.x + r.w <= 8 && r.y + r.h <= 8);
        assert_eq!(r.data.len(), (r.w * r.h * 3) as usize);
    }
    // the dirty set was fully drained
    assert!(c.compile_deltas(None).is_empty());
}

#[test]
fn density_trigger_single_full_region() {
    let mut c = Canvas::blank(4, 4);
    for y in 0..4 {
        for x in 0..4 {
            c.set_pixel(x, y, 10, 20, 30);
        }
    }
    let regions = c.compile_deltas(None);
    assert_eq!(regions.len(), 1);
    let r = &regions[0];
    assert_eq!((r.x, r.y, r.w, r.h), (0, 0, 4, 4));
    assert_eq!(r.data, vec![10, 20, 30].repeat(16));
}

#[test]
fn budget_cap_loses_no_pixel() {
    let mut c = Canvas::blank(500, 500);
    let mut dirty = Vec::new();
    for i in 0..10_000u32 {
        let x = i % 500;
        let y = ((i / 500) * 23) % 500;
        dirty.push((x, y));
        c.set_pixel(x, y, 1, 2, 3);
    }
    let mut all_regions = Vec::new();
    let mut rounds = 0;
    loop {
        let regions = c.compile_deltas(Some(3000));
        if regions.is_empty() {
            break;
        }
        all_regions.extend(regions);
        rounds += 1;
        assert!(rounds < 100);
    }
    assert!(rounds >= 2, "10000 dirty pixels need several 3000-pixel ticks");
    for &(x, y) in &dirty {
        assert!(count_covering(&all_regions, x, y) >= 1, "pixel lost: {} {}", x, y);
    }
}

#[test]
fn snapshot_round_trip() {
    let c = checker_canvas(6, 5);
    let blob = c.to_file();
    assert_eq!(blob.len(), 8 + 6 * 5 * 3);
    // width then height, both big-endian
    assert_eq!(&blob[0..4], &[0, 0, 0, 6]);
    assert_eq!(&blob[4..8], &[0, 0, 0, 5]);
    let d = Canvas::from_file(blob).unwrap();
    assert_eq!(d.width, 6);
    assert_eq!(d.height, 5);
    assert_eq!(d.pixels, c.pixels);
}

#[test]
fn from_file_rejects_bad_blobs() {
    assert!(Canvas::from_file(vec![0, 0, 0, 1]).is_none());
    // length does not match the header
    let mut blob = vec![0, 0, 0, 2, 0, 0, 0, 2];
    blob.extend(vec![255u8; 11]);
    assert!(Canvas::from_file(blob).is_none());
    // zero dimension
    let blob = vec![0, 0, 0, 0, 0, 0, 0, 1];
    assert!(Canvas::from_file(blob).is_none());
    // a good one
    let mut blob = vec![0, 0, 0, 2, 0, 0, 0, 2];
    blob.extend(vec![9u8; 12]);
    assert!(Canvas::from_file(blob).is_some());
}
