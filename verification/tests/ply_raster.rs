use ply_raster::PcError;
use ply_raster::color::RGB;
use ply_raster::geometry::RasterGeometry;
use ply_raster::raster::{PixelBuffer, build_raster, build_raster_with};
use ply_raster::reader::{parse_line, read_vertices};
use ply_raster::vertex::{BoundingBox, Vertex, find_bounds};

const M: i64 = 1_000_000; // one physical unit in fixed-point millionths

fn v(x: i64, y: i64, z: i64) -> Vertex {
    Vertex { x, y, z }
}

#[test]
fn bounds_are_exact() {
    let vs = vec![v(1 * M, 2 * M, 3 * M), v(-5 * M, 10 * M, 0), v(4 * M, -2 * M, 7 * M)];
    let bb = find_bounds(&vs).unwrap();
    assert_eq!(bb.min, v(-5 * M, -2 * M, 0));
    assert_eq!(bb.max, v(4 * M, 10 * M, 7 * M));
    assert!(bb.min.x <= bb.max.x && bb.min.y <= bb.max.y && bb.min.z <= bb.max.z);
}

#[test]
fn bounds_single_point_min_equals_max() {
    let vs = vec![v(7, -9, 11)];
    let bb = find_bounds(&vs).unwrap();
    assert_eq!(bb.min, bb.max);
}

#[test]
fn bounds_empty_is_empty_input() {
    let vs: Vec<Vertex> = Vec::new();
    assert_eq!(find_bounds(&vs), Err(PcError::EmptyInput));
}

#[test]
fn geometry_dimension_formula() {
    // extent of 10 units at 1 unit per pixel: width = 1 + round(10) = 11
    let bb = BoundingBox { min: v(0, 0, 0), max: v(10 * M, 4 * M, 0) };
    let g = RasterGeometry::new(&bb, M).unwrap();
    assert_eq!(g.width, 11);
    assert_eq!(g.height, 5);
}

#[test]
fn geometry_rounds_to_nearest() {
    // extent of 2.5 units at scale 1: round(2.5) = 3 (ties away from zero)
    let bb = BoundingBox { min: v(0, 0, 0), max: v(2_500_000, 2_400_000, 0) };
    let g = RasterGeometry::new(&bb, M).unwrap();
    assert_eq!(g.width, 4);
    assert_eq!(g.height, 3); // round(2.4) = 2
}

#[test]
fn geometry_single_point_is_one_by_one() {
    let bb = BoundingBox { min: v(3, 4, 5), max: v(3, 4, 5) };
    let g = RasterGeometry::new(&bb, M).unwrap();
    assert_eq!(g.width, 1);
    assert_eq!(g.height, 1);
}

#[test]
fn geometry_zero_scale_is_invalid() {
    let bb = BoundingBox { min: v(0, 0, 0), max: v(M, M, M) };
    assert_eq!(RasterGeometry::new(&bb, 0), Err(PcError::InvalidScale));
    assert_eq!(RasterGeometry::new(&bb, -5), Err(PcError::InvalidScale));
}

#[test]
fn reader_is_restartable() {
    let data = b"ply\ncomment irrelevant\nend_header\n1.0 2.0 3.0\n-4.5 0.25 6\n".to_vec();
    let first = read_vertices(&data).unwrap();
    let second = read_vertices(&data).unwrap();
    assert_eq!(first, second);
    assert_eq!(first.len(), 2);
    assert_eq!(first[0], v(1 * M, 2 * M, 3 * M));
    assert_eq!(first[1], v(-4_500_000, 250_000, 6 * M));
}

#[test]
fn reader_header_only_gives_empty_input() {
    let data = b"ply\nformat ascii 1.0\nend_header\n".to_vec();
    let vs = read_vertices(&data).unwrap();
    assert!(vs.is_empty());
    assert_eq!(find_bounds(&vs), Err(PcError::EmptyInput));
}

#[test]
fn reader_malformed_token_is_rejected() {
    let data = b"end_header\n1.0 abc 3.0\n".to_vec();
    assert_eq!(read_vertices(&data), Err(PcError::MalformedVertex));
}

#[test]
fn reader_short_line_is_rejected() {
    let data = b"end_header\n1.0 2.0\n".to_vec();
    assert_eq!(read_vertices(&data), Err(PcError::MalformedVertex));
}

#[test]
fn reader_skips_header_lines_and_extra_fields() {
    let data = b"ply\n3.0 3.0 3.0\nend_header\n1.5 -2.25 3 255 0 0\n".to_vec();
    let vs = read_vertices(&data).unwrap();
    // the numeric-looking header line is not a vertex; extra fields are ignored
    assert_eq!(vs, vec![v(1_500_000, -2_250_000, 3 * M)]);
}

#[test]
fn reader_handles_crlf_lines() {
    let data = b"ply\r\nend_header\r\n0.5 0.5 0.5\r\n".to_vec();
    let vs = read_vertices(&data).unwrap();
    assert_eq!(vs, vec![v(500_000, 500_000, 500_000)]);
}

#[test]
fn parse_line_exact_values() {
    let line = b"-0.000001 12.3456789 42".to_vec();
    let p = parse_line(&line).unwrap();
    // fraction digits beyond the sixth are dropped
    assert_eq!(p, v(-1, 12_345_678, 42 * M));
}

#[test]
fn parse_line_rejects_bad_shapes() {
    assert_eq!(parse_line(&b"1. 2 3".to_vec()), Err(PcError::MalformedVertex));
    assert_eq!(parse_line(&b"- 2 3".to_vec()), Err(PcError::MalformedVertex));
    assert_eq!(parse_line(&b"1..2 2 3".to_vec()), Err(PcError::MalformedVertex));
    assert_eq!(parse_line(&b"".to_vec()), Err(PcError::MalformedVertex));
}

#[test]
fn two_point_cloud_boundary_case() {
    // the boundary scenario: points (0,0,0) and (1,1,1) at scale 1
    let vs = vec![v(0, 0, 0), v(M, M, M)];
    let bb = find_bounds(&vs).unwrap();
    let g = RasterGeometry::new(&bb, M).unwrap();
    assert_eq!(g.width, 2);
    assert_eq!(g.height, 2);
    let p0 = g.project(&vs[0]);
    let p1 = g.project(&vs[1]);
    assert!(p0 != p1);
    for p in [p0, p1] {
        assert!(0 <= p.0 && p.0 < 2);
        assert!(0 <= p.1 && p.1 < 2);
    }
}

#[test]
fn x_axis_is_mirrored() {
    // equal y and z, x one pixel apart: the greater x lands further left
    let vs = vec![v(0, 0, 0), v(2 * M, 0, 0), v(4 * M, 0, 0)];
    let bb = find_bounds(&vs).unwrap();
    let g = RasterGeometry::new(&bb, M).unwrap();
    let px: Vec<i64> = vs.iter().map(|p| g.project(p).0).collect();
    assert!(px[0] > px[1] && px[1] > px[2]);
}

#[test]
fn alpha_trajectory_under_repeated_hits() {
    let black = RGB { r: 0, g: 0, b: 0 };
    let bb = BoundingBox { min: v(0, 0, 0), max: v(0, 0, 0) };
    let g = RasterGeometry::new(&bb, M).unwrap();
    let mut last: u8 = 0;
    for k in [0usize, 1, 3, 10, 24, 25, 26, 100] {
        let vs = vec![v(0, 0, 0); k];
        let rnds = vec![255u8; k]; // a byte of 255 always exceeds the alpha
        let buf = build_raster_with(&vs, &rnds, &g, black);
        let a = buf.get(0, 0).a;
        let expected = if 10 * k >= 250 { 250 } else { (10 * k) as u8 };
        assert_eq!(a, expected);
        assert!(a >= last); // non-decreasing in the number of hits
        last = a;
    }
}

#[test]
fn alpha_step_needs_byte_above_alpha() {
    let black = RGB { r: 0, g: 0, b: 0 };
    let bb = BoundingBox { min: v(0, 0, 0), max: v(0, 0, 0) };
    let g = RasterGeometry::new(&bb, M).unwrap();
    let vs = vec![v(0, 0, 0); 3];
    // 0 raises from 0? no: the byte must strictly exceed the alpha
    let buf = build_raster_with(&vs, &vec![0u8, 0, 0], &g, black);
    assert_eq!(buf.get(0, 0).a, 0);
    // 255, then 5 (not above 10), then 255
    let buf2 = build_raster_with(&vs, &vec![255u8, 5, 255], &g, black);
    assert_eq!(buf2.get(0, 0).a, 20);
}

#[test]
fn saturation_ceiling_with_real_randomness() {
    let color = RGB { r: 9, g: 8, b: 7 };
    let bb = BoundingBox { min: v(0, 0, 0), max: v(0, 0, 0) };
    let g = RasterGeometry::new(&bb, M).unwrap();
    let vs = vec![v(0, 0, 0); 10_000];
    let buf = build_raster(&vs, &g, color);
    let p = buf.get(0, 0);
    assert!(p.a <= 250);
    assert_eq!(p.a % 10, 0);
    // with ten thousand hits the ceiling is reached all but certainly
    assert_eq!(p.a, 250);
    assert_eq!((p.r, p.g, p.b), (9, 8, 7));
}

#[test]
fn untouched_pixels_keep_background() {
    let color = RGB { r: 1, g: 2, b: 3 };
    // a 3x3 grid with hits only in two corners
    let vs = vec![v(0, 0, 0), v(2 * M, 2 * M, 0)];
    let bb = find_bounds(&vs).unwrap();
    let g = RasterGeometry::new(&bb, M).unwrap();
    assert_eq!((g.width, g.height), (3, 3));
    let rnds = vec![255u8; 2];
    let buf = build_raster_with(&vs, &rnds, &g, color);
    let mut touched = 0;
    for y in 0..3usize {
        for x in 0..3usize {
            let p = buf.get(x, y);
            assert_eq!((p.r, p.g, p.b), (1, 2, 3));
            if p.a != 0 {
                touched += 1;
                assert_eq!(p.a, 10);
            }
        }
    }
    assert_eq!(touched, 2);
}

#[test]
fn buffer_starts_fully_transparent() {
    let color = RGB { r: 200, g: 100, b: 50 };
    let buf = PixelBuffer::new(4, 2, color);
    for y in 0..2usize {
        for x in 0..4usize {
            let p = buf.get(x, y);
            assert_eq!((p.r, p.g, p.b, p.a), (200, 100, 50, 0));
        }
    }
}

#[test]
fn color_from_hex_code() {
    let c = RGB::from_str("#0a1B2c").unwrap();
    assert_eq!((c.r, c.g, c.b), (10, 27, 44));
    let black = RGB::from_str("#000000").unwrap();
    assert_eq!((black.r, black.g, black.b), (0, 0, 0));
    // further characters are ignored, as in `#rRgGbB..`
    let long = RGB::from_str("#ffffffzz").unwrap();
    assert_eq!((long.r, long.g, long.b), (255, 255, 255));
}

#[test]
fn color_rejects_bad_codes() {
    assert_eq!(RGB::from_str("#fff"), Err(PcError::MalformedColor));
    assert_eq!(RGB::from_str("123456!"), Err(PcError::MalformedColor));
    assert_eq!(RGB::from_str("#zzzzzz"), Err(PcError::MalformedColor));
    assert_eq!(RGB::from_str(""), Err(PcError::MalformedColor));
}
