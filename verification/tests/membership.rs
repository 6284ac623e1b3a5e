use fuzzy_inference::rat::Rat;
use fuzzy_inference::shapes::{Grade, InverseGrade, Triangle};

fn rat_value_eq(r: &Rat, num: i64, den: i64) -> bool {
    (r.num as i128) * (den as i128) == (num as i128) * (r.den as i128)
}

#[test]
fn inverse_grade_boundary_values() {
    // Positions scaled by 100: x0 = 1.0, x1 = 2.5.
    let g = InverseGrade {
        name: String::from("VerySmall"),
        x0: 100,
        x1: 250,
        clip: Rat::new(1, 1),
    };
    assert!(rat_value_eq(&g.fuzzify(100), 1, 1));
    assert!(rat_value_eq(&g.fuzzify(250), 0, 1));
    // 1.75 lies halfway down the ramp.
    assert!(rat_value_eq(&g.fuzzify(175), 1, 2));
}

#[test]
fn inverse_grade_flat_regions() {
    let g = InverseGrade {
        name: String::from("Low"),
        x0: 100,
        x1: 250,
        clip: Rat::new(1, 1),
    };
    assert!(rat_value_eq(&g.fuzzify(-500), 1, 1));
    assert!(rat_value_eq(&g.fuzzify(900), 0, 1));
}

#[test]
fn triangle_falling_edge_uses_rising_span() {
    // Positions scaled by 10: Triangle("Small", 1.5, 3.0, 4.5).
    let t = Triangle {
        name: String::from("Small"),
        x0: 15,
        x1: 30,
        x2: 45,
        clip: Rat::new(1, 1),
    };
    // At 3.7 the falling edge gives (4.5 - 3.7) / (3.0 - 1.5) = 8/15.
    let d = t.fuzzify(37);
    assert!(rat_value_eq(&d, 8, 15));
    let approx = d.num as f64 / d.den as f64;
    assert!((approx - 0.5333333333333333).abs() < 1e-12);
}

#[test]
fn triangle_peak_reaches_clip() {
    let t = Triangle {
        name: String::from("Mid"),
        x0: 15,
        x1: 30,
        x2: 45,
        clip: Rat::new(1, 1),
    };
    assert!(rat_value_eq(&t.fuzzify(30), 1, 1));
    let clipped = Triangle {
        name: String::from("MidCapped"),
        x0: 15,
        x1: 30,
        x2: 45,
        clip: Rat::new(2, 5),
    };
    assert!(rat_value_eq(&clipped.fuzzify(30), 2, 5));
}

#[test]
fn triangle_zero_outside_support() {
    let t = Triangle {
        name: String::from("Mid"),
        x0: 15,
        x1: 30,
        x2: 45,
        clip: Rat::new(1, 1),
    };
    assert!(rat_value_eq(&t.fuzzify(15), 0, 1));
    assert!(rat_value_eq(&t.fuzzify(45), 0, 1));
    assert!(rat_value_eq(&t.fuzzify(10), 0, 1));
    assert!(rat_value_eq(&t.fuzzify(50), 0, 1));
}

#[test]
fn grade_ramp_and_saturation() {
    let g = Grade {
        name: String::from("VeryBig"),
        x0: 75,
        x1: 90,
        clip: Rat::new(1, 1),
    };
    assert!(rat_value_eq(&g.fuzzify(75), 0, 1));
    assert!(rat_value_eq(&g.fuzzify(80), 1, 3));
    assert!(rat_value_eq(&g.fuzzify(90), 1, 1));
    assert!(rat_value_eq(&g.fuzzify(200), 1, 1));
}

#[test]
fn grade_monotone_on_samples() {
    let g = Grade {
        name: String::from("High"),
        x0: 0,
        x1: 100,
        clip: Rat::new(1, 1),
    };
    let mut prev = g.fuzzify(-10);
    for p in [0i64, 13, 27, 50, 77, 99, 100, 150] {
        let cur = g.fuzzify(p);
        // prev <= cur as rational values
        assert!((prev.num as i128) * (cur.den as i128) <= (cur.num as i128) * (prev.den as i128));
        prev = cur;
    }
}

#[test]
fn grade_saturates_at_clip_ceiling() {
    let g = Grade {
        name: String::from("High"),
        x0: 0,
        x1: 100,
        clip: Rat::new(1, 2),
    };
    // Past the ramp the degree stays at the clip, not at 1.
    assert!(rat_value_eq(&g.fuzzify(100), 1, 2));
    assert!(rat_value_eq(&g.fuzzify(500), 1, 2));
    // On the ramp the raw value is capped as soon as it reaches the clip.
    assert!(rat_value_eq(&g.fuzzify(25), 1, 4));
    assert!(rat_value_eq(&g.fuzzify(80), 1, 2));
}
