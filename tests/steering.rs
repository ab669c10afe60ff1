use slime::dish::Dish;
use slime::steer::{decide, Decision, Turn, DRAW_SCALE};

fn draw_of(rand: f64) -> u64 {
    (rand * DRAW_SCALE as f64) as u64
}

const STRAIGHT: Decision = Decision { turn: Turn::Straight, sign: 0 };

#[test]
fn stronger_center_never_turns() {
    for &r in &[0.0, 0.1, 0.5, 0.9, 0.999999] {
        assert_eq!(decide(5, 10, 3, draw_of(r)), STRAIGHT);
    }
    assert_eq!(decide(5, 10, 3, DRAW_SCALE - 1), STRAIGHT);
}

#[test]
fn weaker_center_turns_by_ratio() {
    let left = Decision { turn: Turn::Left, sign: 0 };
    let right = Decision { turn: Turn::Right, sign: 0 };
    assert_eq!(decide(4, 1, 4, draw_of(0.0)), left);
    assert_eq!(decide(4, 1, 4, draw_of(0.9)), right);
    assert_eq!(decide(4, 1, 4, DRAW_SCALE / 2 - 1), left);
    assert_eq!(decide(4, 1, 4, DRAW_SCALE / 2), right);
    // left / (left + right) = 1/4
    assert_eq!(decide(2, 1, 6, draw_of(0.9)), right);
    assert_eq!(decide(2, 1, 6, draw_of(0.3)), right);
    assert_eq!(decide(2, 1, 6, draw_of(0.25)), right);
    assert_eq!(decide(2, 1, 6, draw_of(0.2)), left);
    assert_eq!(decide(2, 1, 6, draw_of(0.0)), left);
    assert_eq!(decide(u64::MAX, 0, u64::MAX, DRAW_SCALE - 1), right);
}

#[test]
fn one_stronger_side_turns_toward_it() {
    assert_eq!(decide(7, 7, 3, 0), Decision { turn: Turn::Left, sign: -1 });
    assert_eq!(decide(3, 3, 9, 0), Decision { turn: Turn::Right, sign: 1 });
    assert_eq!(decide(9, 3, 3, DRAW_SCALE - 1), Decision { turn: Turn::Left, sign: -1 });
    assert_eq!(decide(2, 6, 6, 0), Decision { turn: Turn::Right, sign: 1 });
}

#[test]
fn ties_go_straight() {
    assert_eq!(decide(0, 0, 0, 0), STRAIGHT);
    assert_eq!(decide(0, 0, 0, draw_of(0.7)), STRAIGHT);
    assert_eq!(decide(4, 4, 4, 0), STRAIGHT);
    assert_eq!(decide(4, 9, 4, 0), STRAIGHT);
}

#[test]
fn flat_field_agent_goes_straight() {
    let mut d = Dish::new(10, 10, &Vec::new());
    let (cy, cx) = (0i32, 8i32);
    let left = d.box_sum(cy - 2, cy + 2, cx - 2, cx + 2);
    let center = d.box_sum(cy - 2, cy + 2, cx - 1, cx + 3);
    let right = d.box_sum(cy - 1, cy + 3, cx - 2, cx + 2);
    assert_eq!((left, center, right), (0, 0, 0));
    for _ in 0..10 {
        assert_eq!(d.steer(left, center, right), STRAIGHT);
    }
}

#[test]
fn steer_follows_the_rule() {
    let mut d = Dish::new(4, 4, &Vec::new());
    for _ in 0..50 {
        assert_eq!(d.steer(5, 10, 3), STRAIGHT);
        assert_eq!(d.steer(9, 3, 3), Decision { turn: Turn::Left, sign: -1 });
        let r = d.steer(4, 1, 4);
        assert!(r.turn == Turn::Left || r.turn == Turn::Right);
        assert_eq!(r.sign, 0);
    }
    let mut lefts = 0;
    for _ in 0..400 {
        if d.steer(1, 0, 1000).turn == Turn::Left {
            lefts += 1;
        }
    }
    assert!(lefts < 40);
    let mut lefts = 0;
    for _ in 0..400 {
        if d.steer(1000, 0, 1).turn == Turn::Left {
            lefts += 1;
        }
    }
    assert!(lefts > 360);
}
