use std::collections::HashSet;

use mandelbrot::block::{compute_block, Canvas, Point};
use mandelbrot::escape::{in_fast_disks, is_mandelbrot_member, orbit_stays_bounded};
use mandelbrot::fix::{Fix, ONE_RAW};
use mandelbrot::queue::{compute_taken_block, concat_results, drain_queue, fill_queue};
use mandelbrot::tiling::{block_count, block_origins};

const S: i32 = ONE_RAW;

fn canvas_512() -> Canvas {
    Canvas { width: 512, height: 512, block_width: 16, block_height: 16 }
}

fn sample(c: &Canvas, x: i32, y: i32) -> (Fix, Fix) {
    (Fix((x - 3 * (c.width / 4)) << 15), Fix((y - c.height / 2) << 15))
}

fn run_all(c: &Canvas, workers: usize) -> Vec<Point> {
    let (mut tx, rx) = spmc::channel();
    assert_eq!(fill_queue(c, &mut tx), block_count(c));
    let mut results = Vec::new();
    for _ in 0..workers {
        let rx = rx.clone();
        results.push(drain_queue(c, &rx));
    }
    concat_results(results)
}

#[test]
fn fix_add_and_sub_are_exact() {
    assert_eq!(Fix(S).add(Fix(S / 2)), Fix(3 * S / 2));
    assert_eq!(Fix(-5).sub(Fix(7)), Fix(-12));
}

#[test]
fn fix_add_then_sub_gives_back_value() {
    for &(a, b) in &[(0, 0), (S, -S), (123456, 987654), (-3 * S, 2 * S + 17)] {
        assert_eq!(Fix(a).add(Fix(b)).sub(Fix(b)), Fix(a));
    }
}

#[test]
fn fix_mul_by_one_gives_back_value() {
    for &a in &[0, 1, -1, S, -S, 3 * S / 4, 2_000_000_000, -2_000_000_000] {
        assert_eq!(Fix(a).mul(Fix(S)), Fix(a));
    }
}

#[test]
fn fix_mul_rescales_and_rounds_down() {
    assert_eq!(Fix(3 * S / 2).mul(Fix(2 * S)), Fix(3 * S));
    assert_eq!(Fix(-S / 2).mul(Fix(S / 2)), Fix(-S / 4));
    // the smallest negative product rounds toward negative infinity
    assert_eq!(Fix(-1).mul(Fix(1)), Fix(-1));
    assert_eq!(Fix(1).mul(Fix(1)), Fix(0));
}

#[test]
fn fast_disks_accept_their_centres() {
    assert!(in_fast_disks(Fix(-S), Fix(0)));
    assert!(in_fast_disks(Fix(-2228224), Fix(0)));
    assert!(in_fast_disks(Fix(0), Fix(0)));
    assert!(!in_fast_disks(Fix(-3 * S / 2), Fix(-S)));
    assert!(!in_fast_disks(Fix(2 * S), Fix(0)));
}

#[test]
fn fast_disk_boundary_is_strict() {
    // (-1.25, 0) lies exactly on the circle of the period-2 bulb
    assert!(!in_fast_disks(Fix(-5 * S / 4), Fix(0)));
    assert!(in_fast_disks(Fix(-5 * S / 4 + 1 + 32768), Fix(0)));
}

#[test]
fn membership_of_known_points() {
    assert!(is_mandelbrot_member(Fix(0), Fix(0)));
    assert!(is_mandelbrot_member(Fix(-S), Fix(0)));
    assert!(is_mandelbrot_member(Fix(S / 4), Fix(0)));
    assert!(!is_mandelbrot_member(Fix(-3 * S / 2), Fix(-S)));
    assert!(!is_mandelbrot_member(Fix(S), Fix(0)));
    assert!(!is_mandelbrot_member(Fix(3 * S), Fix(3 * S)));
    assert!(!is_mandelbrot_member(Fix(-3 * S), Fix(-3 * S)));
}

#[test]
fn iteration_escapes_outside_the_set() {
    assert!(!orbit_stays_bounded(Fix(S), Fix(0)));
    assert!(!orbit_stays_bounded(Fix(0), Fix(2 * S)));
    // -2 stays on the real axis at the edge of the set: 0, -2, 2, 2, ...
    assert!(orbit_stays_bounded(Fix(-2 * S), Fix(0)));
    // i cycles: 0, i, -1 + i, -i, -1 + i, ...
    assert!(orbit_stays_bounded(Fix(0), Fix(S)));
}

#[test]
fn fast_path_accepts_agree_with_iteration() {
    let points = [(0, 0), (-S, 0), (-S / 4, S / 4), (-S, S / 8), (-S / 2, -S / 4), (S / 8, 0)];
    for &(re, im) in &points {
        assert!(in_fast_disks(Fix(re), Fix(im)));
        assert!(orbit_stays_bounded(Fix(re), Fix(im)));
    }
}

#[test]
fn membership_is_symmetric_on_sample_points() {
    let c = canvas_512();
    for &(x, y) in &[(0, 300), (128, 256), (128, 300), (200, 280), (300, 400), (384, 256), (250, 420)] {
        let (re, im) = sample(&c, x, y);
        assert_eq!(is_mandelbrot_member(re, im), is_mandelbrot_member(re, Fix(-im.0)));
        assert_eq!(in_fast_disks(re, im), in_fast_disks(re, Fix(-im.0)));
    }
}

#[test]
fn rounding_down_can_break_conjugate_symmetry() {
    // pixel (36, 264): the products of the orbit round toward negative infinity,
    // so the orbit of the conjugate is not the mirrored orbit
    let c = canvas_512();
    let (re, im) = sample(&c, 36, 264);
    assert_eq!((re, im), (Fix(-11403264), Fix(262144)));
    assert!(is_mandelbrot_member(re, im));
    assert!(!is_mandelbrot_member(re, Fix(-im.0)));
}

#[test]
fn fast_path_can_accept_near_the_pinch() {
    // pixel (190, 273) lies in the cardioid disk but outside the cardioid and the bulb
    let c = canvas_512();
    let (re, im) = sample(&c, 190, 273);
    assert!(in_fast_disks(re, im));
    assert!(!orbit_stays_bounded(re, im));
    assert!(is_mandelbrot_member(re, im));
}

#[test]
fn compute_block_emits_pixel_and_mirror() {
    let c = canvas_512();
    let mut points = vec![Point { x: -1, y: -1 }];
    compute_block(&c, 128, 256, &mut points);
    assert_eq!(points[0], Point { x: -1, y: -1 });
    assert_eq!(points[1], Point { x: 128, y: 256 });
    assert_eq!(points[2], Point { x: 128, y: 256 });
    assert_eq!(points.len() % 2, 1);
    for pair in points[1..].chunks(2) {
        assert_eq!(pair[0].x, pair[1].x);
        assert_eq!(pair[0].y + pair[1].y, 512);
        assert!(pair[0].x >= 128 && pair[0].x < 144);
        assert!(pair[0].y >= 256 && pair[0].y < 272);
        let (re, im) = sample(&c, pair[0].x, pair[0].y);
        assert!(is_mandelbrot_member(re, im));
    }
    // the block at (128, 256) lies inside the period-2 bulb: every pixel is a member
    assert_eq!(points.len(), 1 + 2 * 16 * 16);
}

#[test]
fn compute_block_far_outside_emits_nothing() {
    let c = canvas_512();
    let mut points = Vec::new();
    compute_block(&c, 0, 496, &mut points);
    assert!(points.is_empty());
}

#[test]
fn block_origins_in_queue_order() {
    let c = canvas_512();
    let origins = block_origins(&c);
    assert_eq!(origins.len(), 512);
    assert_eq!(block_count(&c), 512);
    assert_eq!(origins[0], (0, 256));
    assert_eq!(origins[1], (0, 272));
    assert_eq!(origins[15], (0, 496));
    assert_eq!(origins[16], (16, 256));
    assert_eq!(origins[511], (496, 496));
}

fn check_tiling(c: &Canvas) {
    let mut seen = HashSet::new();
    for &(x0, y0) in block_origins(c).iter() {
        for x in x0..x0 + c.block_width {
            for y in y0..y0 + c.block_height {
                assert!(seen.insert((x, y)), "pixel ({}, {}) in two blocks", x, y);
            }
        }
    }
    let mut expected = HashSet::new();
    for x in 0..c.width {
        for y in c.height / 2..c.height {
            expected.insert((x, y));
        }
    }
    assert_eq!(seen, expected);
}

#[test]
fn blocks_tile_lower_half_exactly() {
    check_tiling(&canvas_512());
    check_tiling(&Canvas { width: 64, height: 32, block_width: 8, block_height: 4 });
    check_tiling(&Canvas { width: 30, height: 12, block_width: 5, block_height: 3 });
    check_tiling(&Canvas { width: 7, height: 14, block_width: 1, block_height: 7 });
    check_tiling(&Canvas { width: 512, height: 512, block_width: 512, block_height: 256 });
}

#[test]
fn single_block_canvas() {
    let c = Canvas { width: 4, height: 8, block_width: 4, block_height: 4 };
    assert_eq!(block_origins(&c), vec![(0, 4)]);
    assert_eq!(block_count(&c), 1);
}

#[test]
fn concat_results_keeps_order() {
    let a = Point { x: 1, y: 2 };
    let b = Point { x: 3, y: 4 };
    let d = Point { x: 5, y: 6 };
    assert_eq!(concat_results(vec![vec![a], vec![], vec![b, d]]), vec![a, b, d]);
    assert_eq!(concat_results(vec![]), Vec::<Point>::new());
}

#[test]
fn drained_queue_is_empty_for_later_workers() {
    let c = Canvas { width: 64, height: 64, block_width: 16, block_height: 16 };
    let (mut tx, rx) = spmc::channel();
    assert_eq!(fill_queue(&c, &mut tx), 8);
    let first = drain_queue(&c, &rx);
    let second = drain_queue(&c, &rx.clone());
    assert!(second.is_empty());
    let mut direct = Vec::new();
    for &(x, y) in block_origins(&c).iter() {
        compute_block(&c, x, y, &mut direct);
    }
    assert_eq!(first, direct);
}

#[test]
fn fill_queue_fails_without_receivers() {
    let c = canvas_512();
    let (mut tx, rx) = spmc::channel::<(i32, i32)>();
    drop(rx);
    assert_eq!(fill_queue(&c, &mut tx), 0);
}

#[test]
fn repeated_runs_give_the_same_points() {
    let c = canvas_512();
    let mut first = run_all(&c, 8);
    let mut second = run_all(&c, 3);
    // a run that takes the blocks in reverse order
    let mut reversed = Vec::new();
    for &(x, y) in block_origins(&c).iter().rev() {
        compute_block(&c, x, y, &mut reversed);
    }
    first.sort_by_key(|p| (p.x, p.y));
    second.sort_by_key(|p| (p.x, p.y));
    reversed.sort_by_key(|p| (p.x, p.y));
    assert_eq!(first, second);
    assert_eq!(first, reversed);
}

#[test]
fn end_to_end_512_canvas() {
    let c = canvas_512();
    let points = run_all(&c, 8);
    assert!(!points.is_empty());
    assert_eq!(points.len(), 99626);
    assert!(points.contains(&Point { x: 128, y: 256 }));
    assert!(!points.contains(&Point { x: 0, y: 0 }));
    for p in &points {
        assert!(p.x >= 0 && p.x < 512 && p.y > 0 && p.y <= 512);
    }
}

#[test]
fn taken_block_outside_canvas_is_skipped() {
    let c = canvas_512();
    let mut points = vec![Point { x: 7, y: 7 }];
    assert!(!compute_taken_block(&c, (500, 256), &mut points));
    assert!(!compute_taken_block(&c, (-16, 256), &mut points));
    assert!(!compute_taken_block(&c, (0, 500), &mut points));
    assert_eq!(points, vec![Point { x: 7, y: 7 }]);
    assert!(compute_taken_block(&c, (128, 256), &mut points));
    assert_eq!(points.len(), 1 + 2 * 16 * 16);
}
