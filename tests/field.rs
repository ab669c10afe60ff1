use slime::dish::Dish;
use slime::grid::{wrap_coord, Vec2d};
use slime::trail::decay_value;

fn dish(w: usize, h: usize) -> Dish {
    Dish::new(w, h, &Vec::new())
}

fn field_of(d: &Dish) -> Vec<u8> {
    let mut out = Vec::new();
    for y in 0..d.size_h() as i32 {
        for x in 0..d.size_w() as i32 {
            out.push(d.get(y, x));
        }
    }
    out
}

fn nonzero_cells(d: &Dish) -> Vec<(i32, i32)> {
    let mut out = Vec::new();
    for y in 0..d.size_h() as i32 {
        for x in 0..d.size_w() as i32 {
            if d.get(y, x) > 0 {
                out.push((y, x));
            }
        }
    }
    out
}

#[test]
fn wrap_coord_maps_onto_range() {
    assert_eq!(wrap_coord(0, 10), 0);
    assert_eq!(wrap_coord(9, 10), 9);
    assert_eq!(wrap_coord(10, 10), 0);
    assert_eq!(wrap_coord(23, 10), 3);
    assert_eq!(wrap_coord(-1, 10), 9);
    assert_eq!(wrap_coord(-10, 10), 0);
    assert_eq!(wrap_coord(-11, 10), 9);
    assert_eq!(wrap_coord(i32::MIN, 7), (i32::MIN as i64).rem_euclid(7) as usize);
    assert_eq!(wrap_coord(i32::MAX, 7), (i32::MAX as i64).rem_euclid(7) as usize);
}

#[test]
fn grid_get_and_set_wrap() {
    let mut g = Vec2d::new(4, 3, 0u8);
    assert_eq!(g.size_w(), 4);
    assert_eq!(g.size_h(), 3);
    g.set(-1, -1, 7);
    assert_eq!(g.get(2, 3), 7);
    g.set(4, 9, 5);
    assert_eq!(g.get(1, 1), 5);
    assert_eq!(g.get(0, 0), 0);
    g.fill(3);
    assert_eq!(g.get(2, 3), 3);
    assert_eq!(g.get(1, 1), 3);
}

#[test]
fn toroidal_wrap_by_whole_turns() {
    let (w, h) = (5i32, 3i32);
    let mut g = Vec2d::new(w as usize, h as usize, 0u8);
    for y in 0..h {
        for x in 0..w {
            g.set(y, x, (y * w + x) as u8);
        }
    }
    for y in -4..4 {
        for x in -6..6 {
            for k in -3..4 {
                assert_eq!(g.get(y + k * h, x + k * w), g.get(y, x));
            }
        }
    }
}

#[test]
fn box_sum_wraps_around_edges() {
    let mut g = Vec2d::new(4, 4, 0u8);
    g.set(0, 0, 10);
    g.set(3, 3, 20);
    g.set(1, 2, 200);
    assert_eq!(g.box_sum(-1, 1, -1, 1), 30);
    assert_eq!(g.box_sum(0, 4, 0, 4), 230);
    assert_eq!(g.box_sum(0, 0, 0, 4), 0);
    assert_eq!(g.box_sum(1, 2, 2, 3), 200);
    let full = Vec2d::new(3, 3, 255u8);
    assert_eq!(full.box_sum(-5, 5, -5, 5), 255 * 100);
}

#[test]
fn deposit_saturates() {
    let mut d = dish(6, 4);
    d.deposit(1, 2, 100);
    assert_eq!(d.get(1, 2), 100);
    d.deposit(1, 2, 20);
    assert_eq!(d.get(1, 2), 120);
    d.deposit(1, 2, 200);
    assert_eq!(d.get(1, 2), 255);
    d.deposit(1, 2, 255);
    assert_eq!(d.get(1, 2), 255);
    d.deposit(-3, 8, 255);
    assert_eq!(d.get(1, 2), 255);
    d.deposit(0, 0, 0);
    assert_eq!(d.get(0, 0), 0);
    assert_eq!(d.active_cells(), vec![(1, 2), (1, 2), (1, 2), (1, 2), (1, 2), (0, 0)]);
}

#[test]
fn new_wraps_seed_cells() {
    let d = Dish::new(10, 5, &vec![(-1, 12), (2, 3), (5, 10)]);
    assert_eq!(d.size_w(), 10);
    assert_eq!(d.size_h(), 5);
    assert_eq!(d.active_cells(), vec![(4, 2), (2, 3), (0, 0)]);
    assert!(field_of(&d).iter().all(|&v| v == 0));
}

#[test]
fn decay_matches_float_factor() {
    for v in 0..=255u8 {
        let expected = (v as f64 * 0.97) as u8;
        assert_eq!(decay_value(v), expected, "value {}", v);
        assert!(decay_value(v) <= v);
    }
    assert_eq!(decay_value(0), 0);
    assert_eq!(decay_value(100), 97);
    assert_eq!(decay_value(255), 247);
    assert_eq!(decay_value(1), 0);
}

#[test]
fn diffuse_spreads_single_deposit() {
    let mut d = dish(5, 5);
    d.deposit(2, 2, 255);
    d.diffuse();
    for y in 0..5 {
        for x in 0..5 {
            let inside = (1..=3).contains(&y) && (1..=3).contains(&x);
            assert_eq!(d.get(y, x), if inside { 28 } else { 0 }, "cell {} {}", y, x);
        }
    }
    let mut active = d.active_cells();
    active.sort();
    assert_eq!(active, nonzero_cells(&d));
}

#[test]
fn diffuse_across_the_seam() {
    let mut d = dish(6, 4);
    d.deposit(0, 0, 90);
    d.diffuse();
    assert_eq!(d.get(3, 5), 10);
    assert_eq!(d.get(0, 1), 10);
    assert_eq!(d.get(1, 1), 10);
    assert_eq!(d.get(2, 2), 0);
    let mut active = d.active_cells();
    active.sort();
    assert_eq!(active, nonzero_cells(&d));
    assert_eq!(active.len(), 9);
}

#[test]
fn diffuse_keeps_saturated_field_bounded() {
    let mut d = dish(4, 3);
    for y in 0..3 {
        for x in 0..4 {
            d.deposit(y, x, 255);
        }
    }
    d.deposit(1, 1, 255);
    d.diffuse();
    assert!(field_of(&d).iter().all(|&v| v == 255));
    assert_eq!(d.active_cells().len(), 12);
}

#[test]
fn active_set_is_exactly_nonzero_after_pass() {
    let mut d = dish(9, 7);
    d.deposit(1, 1, 255);
    d.deposit(1, 1, 255);
    d.deposit(5, 7, 40);
    d.deposit(3, 4, 8);
    d.deposit(-6, -8, 200);
    for _ in 0..6 {
        d.diffuse();
        let mut active = d.active_cells();
        active.sort();
        let before = active.len();
        active.dedup();
        assert_eq!(before, active.len(), "no repeated cell");
        assert_eq!(active, nonzero_cells(&d));
        d.decay();
    }
}

#[test]
fn dense_diffusion_matches_box_mean() {
    let mut d = dish(4, 4);
    d.deposit(0, 0, 9);
    d.deposit(0, 1, 18);
    d.diffuse_nsquared();
    assert_eq!(d.get(0, 0), 3);
    assert_eq!(d.get(1, 1), 3);
    assert_eq!(d.get(3, 3), 1);
    assert_eq!(d.get(2, 2), 0);
    let mut active = d.active_cells();
    active.sort();
    assert_eq!(active, nonzero_cells(&d));
}

#[test]
fn dense_decay_touches_every_cell() {
    let mut d = dish(3, 2);
    d.deposit(0, 0, 200);
    d.deposit(1, 2, 100);
    d.decay_nsquared();
    assert_eq!(d.get(0, 0), 194);
    assert_eq!(d.get(1, 2), 97);
    assert_eq!(d.get(0, 1), 0);
}

fn oracle_tick(field: &mut Vec<u8>, w: usize, h: usize, deposits: &[(i32, i32, u8)]) {
    for &(y, x, a) in deposits {
        let i = y.rem_euclid(h as i32) as usize * w + x.rem_euclid(w as i32) as usize;
        field[i] = field[i].saturating_add(a);
    }
    let mut next = vec![0u8; w * h];
    for cy in 0..h as i32 {
        for cx in 0..w as i32 {
            let mut sum = 0i32;
            for y in cy - 1..=cy + 1 {
                for x in cx - 1..=cx + 1 {
                    sum += field[y.rem_euclid(h as i32) as usize * w + x.rem_euclid(w as i32) as usize] as i32;
                }
            }
            next[cy as usize * w + cx as usize] = (sum / 9).min(255) as u8;
        }
    }
    for v in next.iter_mut() {
        *v = (*v as f64 * 0.97) as u8;
    }
    *field = next;
}

struct Lcg(u64);

impl Lcg {
    fn next(&mut self) -> u64 {
        self.0 = self.0.wrapping_mul(6364136223846793005).wrapping_add(1442695040888963407);
        self.0 >> 33
    }
}

#[test]
fn sparse_run_matches_dense_run() {
    let (w, h) = (13usize, 9usize);
    let mut sparse = Dish::new(w, h, &vec![(2, 3), (4, 4)]);
    let mut dense = Dish::new(w, h, &vec![(2, 3), (4, 4)]);
    let mut oracle = vec![0u8; w * h];
    let mut rng = Lcg(7);
    for tick in 0..40 {
        let n = if tick % 7 == 6 { 0 } else { 1 + rng.next() % 4 };
        let deposits: Vec<(i32, i32, u8)> = (0..n)
            .map(|_| {
                let y = (rng.next() % 40) as i32 - 20;
                let x = (rng.next() % 40) as i32 - 20;
                (y, x, 255u8)
            })
            .collect();
        sparse.update(&deposits);
        for &(y, x, a) in &deposits {
            dense.deposit(y, x, a);
        }
        dense.diffuse_nsquared();
        dense.decay_nsquared();
        oracle_tick(&mut oracle, w, h, &deposits);
        assert_eq!(field_of(&sparse), field_of(&dense), "tick {}", tick);
        assert_eq!(field_of(&sparse), oracle, "tick {}", tick);
    }
}

#[test]
fn idle_ticks_change_nothing() {
    let mut d = dish(8, 6);
    for _ in 0..5 {
        d.update(&Vec::new());
        assert!(field_of(&d).iter().all(|&v| v == 0));
        assert!(d.active_cells().is_empty());
    }
}

#[test]
fn trail_fades_to_nothing() {
    let mut d = dish(7, 7);
    d.update(&vec![(3, 3, 255)]);
    assert!(field_of(&d).iter().any(|&v| v > 0));
    for _ in 0..20 {
        d.update(&Vec::new());
    }
    assert!(field_of(&d).iter().all(|&v| v == 0));
    d.update(&Vec::new());
    assert!(d.active_cells().is_empty());
}

#[test]
fn zero_field_senses_nothing() {
    let d = dish(10, 10);
    for &(cy, cx) in &[(0i32, 0i32), (9, 9), (5, 2)] {
        assert_eq!(d.box_sum(cy - 2, cy + 2, cx - 2, cx + 2), 0);
    }
}
