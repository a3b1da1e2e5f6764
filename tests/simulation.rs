use habitat_sim::cell::Cell;
use habitat_sim::geometry::{isqrt, Point, COORD_LIMIT, UNIT};
use habitat_sim::habitat::{field_refresh_due, Habitat, DEFAULT_RADIUS};

fn px(x: i64, y: i64) -> Point {
    Point::new(x * UNIT, y * UNIT)
}

fn still(h: &Habitat) -> Vec<Point> {
    vec![Point::new(0, 0); h.cells.len()]
}

fn tick(h: &mut Habitat, frame: usize, iterations: usize) {
    let flows = still(h);
    h.update(frame, &flows, None, iterations);
}

#[test]
fn spawn_appends_cell_at_rest() {
    let mut h = Habitat::new((500, 500));
    h.spawn_cell(px(300, 40));
    h.spawn_cell(px(100, 100));
    assert_eq!(h.cells.len(), 2);
    let c = h.cells[1];
    assert_eq!(c.pos, px(100, 100));
    assert_eq!(c.vel, Point::new(0, 0));
    assert_eq!(c.size, DEFAULT_RADIUS);
    assert_eq!(c.size, 5 * UNIT);
    assert_eq!(h.focused_cell_idx, None);
}

#[test]
fn spawn_out_of_bounds_is_accepted() {
    let mut h = Habitat::new((500, 500));
    h.spawn_cell(px(-50, 250));
    assert_eq!(h.cells[0].pos, px(-50, 250));
    tick(&mut h, 1, 1);
    assert_eq!(h.cells[0].pos, px(5, 250));
}

#[test]
fn pick_selects_first_match_and_clears_on_miss() {
    let mut h = Habitat::new((500, 500));
    h.spawn_cell(px(10, 10));
    h.spawn_cell(px(10, 10));
    h.spawn_cell(px(200, 200));
    h.set_focused_cell(Some(px(10, 10)));
    tick(&mut h, 1, 0);
    assert_eq!(h.focused_cell_idx, Some(0));
    assert_eq!(h.camera_target, px(10, 10));
    h.set_focused_cell(Some(px(500, 500)));
    tick(&mut h, 2, 0);
    assert_eq!(h.focused_cell_idx, None);
}

#[test]
fn pick_on_second_cell_and_follow() {
    let mut h = Habitat::new((500, 500));
    h.spawn_cell(px(10, 10));
    h.spawn_cell(px(200, 200));
    h.set_focused_cell(Some(px(202, 199)));
    tick(&mut h, 1, 0);
    assert_eq!(h.get_focused_cell_idx(), Some(1));
    assert_eq!(h.get_camera_target(), px(200, 200));
    assert_eq!(h.get_cells().len(), 2);
    h.set_draw_flow_field(true);
    assert!(h.draw_flow_field_bool);
    // the radius itself is not within reach of a pick
    h.set_focused_cell(Some(px(205, 200)));
    tick(&mut h, 2, 0);
    assert_eq!(h.focused_cell_idx, None);
}

#[test]
fn empty_tick_does_nothing() {
    let mut h = Habitat::new((500, 500));
    h.update(10, &Vec::new(), Some(vec![Point::new(1, 2)]), 5);
    assert_eq!(h.cells.len(), 0);
    assert_eq!(h.focused_cell_idx, None);
    assert_eq!(h.camera_target, px(250, 250));
}

#[test]
fn corner_is_corrected_x_first() {
    let mut h = Habitat::new((500, 500));
    h.spawn_cell(px(2, 3));
    tick(&mut h, 1, 1);
    assert_eq!(h.cells[0].pos, px(5, 3));
    h.apply_collision();
    assert_eq!(h.cells[0].pos, px(5, 5));
}

#[test]
fn high_corner_priority() {
    let mut h = Habitat::new((500, 400));
    h.spawn_cell(px(600, 450));
    h.apply_collision();
    assert_eq!(h.cells[0].pos, px(495, 450));
    h.apply_collision();
    assert_eq!(h.cells[0].pos, px(495, 395));
}

#[test]
fn cells_end_inside_after_enough_passes() {
    let mut h = Habitat::new((300, 200));
    h.spawn_cell(px(-20, 100));
    h.spawn_cell(px(150, 400));
    h.spawn_cell(px(-3, -7));
    h.spawn_cell(px(150, 100));
    tick(&mut h, 1, 2);
    for c in &h.cells {
        assert!(c.size <= c.pos.x && c.pos.x <= 300 * UNIT - c.size);
        assert!(c.size <= c.pos.y && c.pos.y <= 200 * UNIT - c.size);
    }
}

#[test]
fn field_buffer_refreshes_every_tenth_tick() {
    let mut h = Habitat::new((500, 500));
    h.spawn_cell(px(100, 100));
    let mut refreshed: Vec<usize> = Vec::new();
    for frame in 1..=30usize {
        let before = h.get_flow_field_buffer().clone();
        let flows = still(&h);
        h.update(frame, &flows, Some(vec![Point::new(frame as i64, 0)]), 1);
        if *h.get_flow_field_buffer() != before {
            refreshed.push(frame);
            assert_eq!(h.get_flow_field_buffer(), &vec![Point::new(frame as i64, 0)]);
        }
    }
    assert_eq!(refreshed, vec![10, 20, 30]);
}

#[test]
fn refresh_due_values() {
    assert!(field_refresh_due(0));
    assert!(!field_refresh_due(1));
    assert!(!field_refresh_due(9));
    assert!(field_refresh_due(10));
    assert!(!field_refresh_due(11));
    assert!(field_refresh_due(usize::MAX - 5));
}

#[test]
fn overlapping_pair_separates() {
    let mut h = Habitat::new((500, 500));
    h.spawn_cell(px(100, 100));
    h.spawn_cell(px(104, 100));
    let mut depths: Vec<i64> = Vec::new();
    for frame in 1..=5usize {
        let gap = h.cells[1].pos.x - h.cells[0].pos.x;
        depths.push((2 * DEFAULT_RADIUS - gap).max(0));
        tick(&mut h, frame, 1);
    }
    for w in depths.windows(2) {
        assert!(w[1] <= w[0]);
    }
    assert_eq!(h.cells[0].pos, px(97, 100));
    assert_eq!(h.cells[1].pos, px(107, 100));
}

#[test]
fn penetration_shrinks_with_more_iterations() {
    let mut last = i64::MAX;
    for iterations in 0..6usize {
        let mut h = Habitat::new((500, 500));
        h.spawn_cell(px(100, 100));
        h.spawn_cell(px(103, 104));
        h.spawn_cell(px(106, 99));
        tick(&mut h, 1, iterations);
        let mut worst: i64 = 0;
        for a in 0..3 {
            for b in (a + 1)..3 {
                let (p, q) = (h.cells[a].pos, h.cells[b].pos);
                let d2 = ((p.x - q.x) as i128).pow(2) + ((p.y - q.y) as i128).pow(2);
                let d = isqrt(d2 as u128) as i64;
                worst = worst.max(2 * DEFAULT_RADIUS - d);
            }
        }
        assert!(worst <= last, "iterations {}: {} > {}", iterations, worst, last);
        last = worst;
    }
    assert!(last <= UNIT);
}

#[test]
fn unscaled_push_adds_raw_sum() {
    let mut h = Habitat::new((500, 500));
    h.set_scale_collision_force(false);
    assert!(!h.scale_collision_force);
    h.spawn_cell(px(100, 100));
    h.spawn_cell(px(104, 100));
    h.apply_collision();
    assert_eq!(h.cells[0].pos, px(94, 100));
    assert_eq!(h.cells[1].pos, px(110, 100));
}

#[test]
fn diagonal_push_rounds_toward_zero() {
    let mut h = Habitat::new((500, 500));
    h.scale_collision_force = false;
    h.spawn_cell(Point::new(100_000, 100_000));
    h.spawn_cell(Point::new(103_000, 104_000));
    h.apply_collision();
    // centres 5000 apart, depth 5000: push (-3000, -4000)
    assert_eq!(h.cells[0].pos, Point::new(97_000, 96_000));
    assert_eq!(h.cells[1].pos, Point::new(106_000, 108_000));
}

#[test]
fn distant_cells_do_not_interact() {
    let mut h = Habitat::new((500, 500));
    h.spawn_cell(px(100, 100));
    h.spawn_cell(px(111, 100));
    h.apply_collision();
    assert_eq!(h.cells[0].pos, px(100, 100));
    assert_eq!(h.cells[1].pos, px(111, 100));
}

#[test]
fn velocity_is_smoothed() {
    let mut h = Habitat::new((500, 500));
    h.spawn_cell(px(100, 100));
    h.update(1, &vec![Point::new(1000, -500)], None, 0);
    assert_eq!(h.cells[0].vel, Point::new(1000, -500));
    assert_eq!(h.cells[0].pos, Point::new(101_000, 99_500));
    h.update(2, &vec![Point::new(0, 0)], None, 0);
    assert_eq!(h.cells[0].vel, Point::new(900, -450));
    assert_eq!(h.cells[0].pos, Point::new(101_900, 99_050));
    h.update(3, &vec![Point::new(5, 5)], None, 0);
    assert_eq!(h.cells[0].vel, Point::new(815, -400));
}

#[test]
fn move_target_stays_on_arena() {
    let mut h = Habitat::new((500, 300));
    assert_eq!(h.camera_target, px(250, 150));
    h.spawn_cell(px(10, 10));
    h.set_focused_cell(Some(px(10, 10)));
    tick(&mut h, 1, 0);
    assert_eq!(h.focused_cell_idx, Some(0));
    h.move_target(px(-30, 5));
    assert_eq!(h.focused_cell_idx, None);
    assert_eq!(h.camera_target, px(0, 15));
    h.move_target(px(900, 900));
    assert_eq!(h.camera_target, px(500, 300));
    assert_eq!(h.get_size(), (500, 300));
}

#[test]
fn cell_ring_distance() {
    let c = Cell::new(Point::new(0, 0), 5);
    assert_eq!(c.distance_2(&Point::new(3, 4)), 0);
    assert_eq!(c.distance_2(&Point::new(8, 6)), 25);
    assert_eq!(c.distance_2(&Point::new(0, 7)), 4);
    assert!(c.contains_point(&Point::new(3, 4)));
    assert!(c.contains_point(&Point::new(0, -5)));
    assert!(!c.contains_point(&Point::new(4, 4)));
    let e = c.envelope();
    assert_eq!((e.min_x, e.min_y, e.max_x, e.max_y), (-5, -5, 5, 5));
}

#[test]
fn integer_square_root() {
    assert_eq!(isqrt(0), 0);
    assert_eq!(isqrt(1), 1);
    assert_eq!(isqrt(24), 4);
    assert_eq!(isqrt(25), 5);
    assert_eq!(isqrt(1u128 << 80), 1u64 << 40);
}

#[test]
fn motion_saturates_at_coordinate_limit() {
    let mut h = Habitat::new((500, 500));
    h.spawn_cell(px(100, 100));
    h.update(1, &vec![Point::new(i64::MAX, i64::MIN)], None, 0);
    assert_eq!(h.cells[0].vel, Point::new(COORD_LIMIT, -COORD_LIMIT));
    assert_eq!(h.cells[0].pos, Point::new(COORD_LIMIT, 100 * UNIT - COORD_LIMIT));
    h.update(2, &vec![Point::new(0, i64::MIN)], None, 0);
    assert_eq!(h.cells[0].pos.y, -COORD_LIMIT);
    h.apply_collision();
    assert_eq!(h.cells[0].pos, Point::new(495 * UNIT, -COORD_LIMIT));
}

#[test]
fn near_coincident_push_takes_full_penetration() {
    let mut h = Habitat::new((500, 500));
    h.spawn_cell(Point::new(100_000, 100_000));
    h.spawn_cell(Point::new(100_001, 100_001));
    h.apply_collision();
    // penetration 10000 - sqrt(2): push (-7070, -7070), halved by the count of 2
    assert_eq!(h.cells[0].pos, Point::new(96_465, 96_465));
    assert_eq!(h.cells[1].pos, Point::new(103_536, 103_536));
}

#[test]
fn diagonal_pair_penetration_never_grows() {
    let mut last = i64::MAX;
    for iterations in 0..8usize {
        let mut h = Habitat::new((500, 500));
        h.spawn_cell(Point::new(250_000, 250_000));
        h.spawn_cell(Point::new(250_003, 250_001));
        tick(&mut h, 1, iterations);
        let (p, q) = (h.cells[0].pos, h.cells[1].pos);
        assert_eq!(p.x + q.x, 500_003);
        assert_eq!(p.y + q.y, 500_001);
        let d2 = ((p.x - q.x) as i128).pow(2) + ((p.y - q.y) as i128).pow(2);
        let depth = (2 * DEFAULT_RADIUS - isqrt(d2 as u128) as i64).max(0);
        assert!(depth <= last, "iterations {}: {} > {}", iterations, depth, last);
        if iterations >= 1 {
            assert!(depth <= 3, "iterations {}: depth {}", iterations, depth);
        }
        last = depth;
    }
}
