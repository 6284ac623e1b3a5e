use fuzzy_inference::logic::FuzzySetResult;
use fuzzy_inference::rat::Rat;
use fuzzy_inference::sets::{CogError, FuzzySets};
use fuzzy_inference::shapes::{Grade, InverseGrade, Triangle};

fn rat_value_eq(r: &Rat, num: i64, den: i64) -> bool {
    (r.num as i128) * (den as i128) == (num as i128) * (r.den as i128)
}

fn ig(name: &str, x0: i64, x1: i64) -> InverseGrade {
    InverseGrade { name: String::from(name), x0, x1, clip: Rat::new(1, 1) }
}

fn tri(name: &str, x0: i64, x1: i64, x2: i64) -> Triangle {
    Triangle { name: String::from(name), x0, x1, x2, clip: Rat::new(1, 1) }
}

fn gr(name: &str, x0: i64, x1: i64) -> Grade {
    Grade { name: String::from(name), x0, x1, clip: Rat::new(1, 1) }
}

/// The distance variable of the cruise-control demo, positions scaled by 10.
fn distance_set() -> FuzzySets {
    FuzzySets {
        start: ig("VerySmall", 10, 25),
        triangles: vec![
            tri("Small", 15, 30, 45),
            tri("Perfect", 35, 50, 65),
            tri("Big", 55, 70, 85),
        ],
        end: Grade { name: String::from("VeryBig"), x0: 75, x1: 90, clip: Rat::new(0, 1) },
    }
}

/// The rate-of-change variable of the demo.
fn delta_set() -> FuzzySets {
    FuzzySets {
        start: ig("ShrinkingFast", -40, -25),
        triangles: vec![
            tri("Shrinking", -35, -20, -5),
            tri("Stable", -15, 0, 15),
            tri("Growing", 5, 20, 35),
        ],
        end: gr("GrowingFast", 25, 40),
    }
}

/// The output variable of the demo.
fn action_set() -> FuzzySets {
    FuzzySets {
        start: ig("BrakeHard", -80, -50),
        triangles: vec![
            tri("SlowDown", -70, -40, -10),
            tri("None", -30, 0, 30),
            tri("SpeedUp", 10, 40, 70),
        ],
        end: gr("FloorIt", 50, 80),
    }
}

#[test]
fn variables_are_well_formed() {
    assert!(distance_set().check_wf());
    assert!(delta_set().check_wf());
    assert!(action_set().check_wf());
}

#[test]
fn contains_matches_set_names_only() {
    let fs = action_set();
    assert!(fs.contains(&String::from("BrakeHard")));
    assert!(fs.contains(&String::from("SlowDown")));
    assert!(fs.contains(&String::from("None")));
    assert!(fs.contains(&String::from("SpeedUp")));
    assert!(fs.contains(&String::from("FloorIt")));
    assert!(!fs.contains(&String::from("")));
    assert!(!fs.contains(&String::from("Sideways")));
    assert!(!fs.contains(&String::from("slowdown")));
}

#[test]
fn fuzzify_keeps_positive_degrees_in_order() {
    // Distance 3.7: Small via the falling edge, Perfect via the rising one.
    let d = distance_set().fuzzify_input(37);
    assert_eq!(d.items.len(), 2);
    assert_eq!(d.items[0].0, "Small");
    assert!(rat_value_eq(&d.items[0].1, 8, 15));
    assert_eq!(d.items[1].0, "Perfect");
    assert!(rat_value_eq(&d.items[1].1, 2, 15));
}

#[test]
fn fuzzify_out_of_range_is_empty() {
    // The VeryBig grade of the demo has clip 0, so far to the right
    // nothing is matched at all.
    let d = distance_set().fuzzify_input(200);
    assert_eq!(d.items.len(), 0);
}

#[test]
fn rule_with_unmatched_antecedent_fires_empty() {
    // Delta 3.9 matches only GrowingFast, so is("Growing") is false and
    // the whole rule yields an empty conclusion.
    let action = action_set();
    let distance = distance_set().fuzzify_input(37);
    let delta = delta_set().fuzzify_input(39);
    assert!(!delta.is(&String::from("Growing")).is_true);
    let conclusion = distance
        .is(&String::from("Small"))
        .and(delta.is(&String::from("Growing")))
        .fire(&action, &String::from("None"));
    assert_eq!(conclusion.items.len(), 0);
}

#[test]
fn rule_with_unknown_consequent_fires_empty() {
    let action = action_set();
    let distance = distance_set().fuzzify_input(37);
    let conclusion = distance
        .is(&String::from("Small"))
        .fire(&action, &String::from("NoSuchSet"));
    assert_eq!(conclusion.items.len(), 0);
}

#[test]
fn aggregate_sets_only_the_matched_clip() {
    // One conclusion [("SlowDown", 0.4)]: every other clip drops to zero.
    let action = action_set();
    let conclusion = FuzzySetResult {
        items: vec![(String::from("SlowDown"), Rat::new(2, 5))],
    };
    let agg = action.aggregate(vec![conclusion]);
    assert_eq!(agg.start.clip.num, 0);
    assert_eq!(agg.end.clip.num, 0);
    assert_eq!(agg.triangles[0].name, "SlowDown");
    assert!(rat_value_eq(&agg.triangles[0].clip, 2, 5));
    assert_eq!(agg.triangles[1].clip.num, 0);
    assert_eq!(agg.triangles[2].clip.num, 0);
    // The source variable is untouched.
    assert!(rat_value_eq(&action.triangles[0].clip, 1, 1));
}

#[test]
fn aggregate_last_conclusion_wins() {
    let action = action_set();
    let first = FuzzySetResult {
        items: vec![(String::from("None"), Rat::new(1, 2))],
    };
    let second = FuzzySetResult {
        items: vec![(String::from("None"), Rat::new(1, 4))],
    };
    let agg = action.aggregate(vec![first, second]);
    assert!(rat_value_eq(&agg.triangles[1].clip, 1, 4));
}

#[test]
fn cog_over_single_clipped_triangle() {
    // Aggregated SlowDown-like triangle at (1.0, 3.0, 5.0) scaled by 10,
    // clip 0.4, step 0.5: the samples are symmetric about the peak, so the
    // center of gravity is exactly the peak position 3.0.
    let var = FuzzySets {
        start: InverseGrade { name: String::from("Low"), x0: 0, x1: 10, clip: Rat::new(0, 1) },
        triangles: vec![Triangle {
            name: String::from("SlowDown"),
            x0: 10,
            x1: 30,
            x2: 50,
            clip: Rat::new(2, 5),
        }],
        end: Grade { name: String::from("High"), x0: 50, x1: 60, clip: Rat::new(0, 1) },
    };
    let v = var.cog(5).unwrap();
    assert!(rat_value_eq(&v, 30, 1));
}

#[test]
fn cog_of_asymmetric_triangle_stays_within_support() {
    // An uneven triangle: the samples pull the center of gravity off the
    // peak (2.0), but it stays within the support [1.0, 5.0].
    let var = FuzzySets {
        start: InverseGrade { name: String::from("Low"), x0: 0, x1: 10, clip: Rat::new(0, 1) },
        triangles: vec![Triangle {
            name: String::from("Uneven"),
            x0: 10,
            x1: 20,
            x2: 50,
            clip: Rat::new(1, 1),
        }],
        end: Grade { name: String::from("High"), x0: 50, x1: 60, clip: Rat::new(0, 1) },
    };
    let v = var.cog(10).unwrap();
    // Samples at 10..50: memberships 0, 1, 1, 1, 0 (the falling edge is
    // normalised by the rising span), so the mean is exactly 30.
    assert!(rat_value_eq(&v, 30, 1));
    assert!((10 * v.den) <= v.num && v.num <= 50 * v.den);
}

#[test]
fn cog_rejects_nonpositive_step() {
    let var = action_set();
    assert_eq!(var.cog(0), Err(CogError::StepMismatch));
    assert_eq!(var.cog(-5), Err(CogError::StepMismatch));
}

#[test]
fn cog_rejects_step_that_misses_the_bound() {
    // Every active span of the demo output variable is 30 or 60 units;
    // a step of 7 never lands exactly on an upper bound.
    let var = action_set();
    assert_eq!(var.cog(7), Err(CogError::StepMismatch));
}

#[test]
fn cog_with_no_active_set_is_empty() {
    let action = action_set();
    // Aggregating no conclusions zeroes every clip.
    let agg = action.aggregate(Vec::new());
    assert_eq!(agg.cog(5), Err(CogError::EmptyRegion));
}

#[test]
fn cog_reports_overflow_on_extreme_denominators() {
    // Two clips on huge coprime denominators: their exact sum needs a
    // denominator beyond what the engine can represent.
    let var = FuzzySets {
        start: InverseGrade {
            name: String::from("A"),
            x0: 0,
            x1: 10,
            clip: Rat::new(1, 4611686018427387903),
        },
        triangles: vec![Triangle {
            name: String::from("B"),
            x0: 0,
            x1: 10,
            x2: 20,
            clip: Rat::new(1, 4611686018427387901),
        }],
        end: Grade { name: String::from("C"), x0: 20, x1: 30, clip: Rat::new(0, 1) },
    };
    assert!(var.check_wf());
    assert_eq!(var.cog(10), Err(CogError::Overflow));
}

#[test]
fn final_selection_picks_unique_set() {
    let action = action_set();
    // -0.34 lies only inside None's support (-3.0, 3.0).
    assert_eq!(action.final_selection(&Rat::new(-34, 10)), "None");
    // -7.5 lies below BrakeHard's ramp and outside every triangle.
    assert_eq!(action.final_selection(&Rat::new(-75, 1)), "BrakeHard");
    // -2.0 lies inside both SlowDown and None: ambiguous, so empty.
    assert_eq!(action.final_selection(&Rat::new(-20, 1)), "");
    // The rising grade is unbounded above: far to the right it is the
    // only positive set.
    assert_eq!(action.final_selection(&Rat::new(990, 1)), "FloorIt");
}

#[test]
fn cruise_control_demo_end_to_end() {
    let distance_vals = distance_set();
    let delta_vals = delta_set();
    let action = action_set();

    let distance = distance_vals.fuzzify_input(37);
    let delta = delta_vals.fuzzify_input(12);

    let rule_matches = vec![
        distance
            .is(&String::from("Small"))
            .and(delta.is(&String::from("Growing")))
            .fire(&action, &String::from("None")),
        distance
            .is(&String::from("Small"))
            .and(delta.is(&String::from("Stable")))
            .fire(&action, &String::from("SlowDown")),
        distance
            .is(&String::from("Perfect"))
            .and(delta.is(&String::from("Growing")))
            .fire(&action, &String::from("SpeedUp")),
        distance
            .is(&String::from("VeryBig"))
            .and(
                delta
                    .is(&String::from("Growing"))
                    .not()
                    .or(delta.is(&String::from("GrowingFast")).not()),
            )
            .fire(&action, &String::from("FloorIt")),
        distance
            .is(&String::from("VerySmall"))
            .fire(&action, &String::from("BrakeHard")),
    ];

    let mut cleaned: Vec<FuzzySetResult> = Vec::new();
    for m in rule_matches {
        if !m.items.is_empty() {
            cleaned.push(m);
        }
    }
    // Rules 4 and 5 do not fire: VeryBig and VerySmall are unmatched.
    assert_eq!(cleaned.len(), 3);

    let aggregated = action.aggregate(cleaned);
    assert!(rat_value_eq(&aggregated.triangles[1].clip, 7, 15)); // None
    assert!(rat_value_eq(&aggregated.triangles[0].clip, 1, 5)); // SlowDown
    assert!(rat_value_eq(&aggregated.triangles[2].clip, 2, 15)); // SpeedUp

    // Exact center of gravity at step 0.5 (5 scaled units): -200/59,
    // about -0.339 in unscaled positions.
    let cog = aggregated.cog(5).unwrap();
    assert!(rat_value_eq(&cog, -200, 59));
    let approx = cog.num as f64 / cog.den as f64 / 10.0;
    assert!((approx - (-0.3389830508474576)).abs() < 1e-12);

    assert_eq!(action.final_selection(&cog), "None");
}
