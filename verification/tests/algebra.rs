use fuzzy_inference::logic::{FuzzyBool, FuzzySetResult};
use fuzzy_inference::rat::Rat;

fn fb(is_true: bool, num: i64, den: i64) -> FuzzyBool {
    FuzzyBool { is_true, value: Rat::new(num, den) }
}

fn rat_value_eq(r: &Rat, num: i64, den: i64) -> bool {
    (r.num as i128) * (den as i128) == (num as i128) * (r.den as i128)
}

#[test]
fn and_takes_minimum_degree() {
    let a = fb(true, 8, 15);
    let b = fb(true, 7, 15);
    let r = a.and(b);
    assert!(r.is_true);
    assert!(rat_value_eq(&r.value, 7, 15));
}

#[test]
fn and_flag_is_conjunction() {
    assert!(!fb(true, 1, 2).and(fb(false, 3, 4)).is_true);
    assert!(!fb(false, 1, 2).and(fb(true, 3, 4)).is_true);
    assert!(fb(true, 1, 2).and(fb(true, 3, 4)).is_true);
}

#[test]
fn or_takes_maximum_degree() {
    let a = fb(true, 1, 5);
    let b = fb(true, 2, 3);
    let r = a.or(b);
    assert!(rat_value_eq(&r.value, 2, 3));
}

#[test]
fn or_flag_is_also_conjunction() {
    // The truth flag of `or` is deliberately the same conjunction `and`
    // computes; only the degree differs.
    assert!(!fb(true, 1, 2).or(fb(false, 3, 4)).is_true);
    assert!(!fb(false, 1, 2).or(fb(true, 3, 4)).is_true);
    assert!(fb(true, 1, 2).or(fb(true, 3, 4)).is_true);
}

#[test]
fn and_or_degrees_commute() {
    let pairs = [(1i64, 2i64, 2i64, 3i64), (0, 1, 1, 1), (3, 7, 3, 7), (5, 9, 1, 4)];
    for (an, ad, bn, bd) in pairs {
        let a = fb(true, an, ad);
        let b = fb(true, bn, bd);
        let ab = a.and(b).value;
        let ba = b.and(a).value;
        assert_eq!(
            (ab.num as i128) * (ba.den as i128),
            (ba.num as i128) * (ab.den as i128)
        );
        let oab = a.or(b).value;
        let oba = b.or(a).value;
        assert_eq!(
            (oab.num as i128) * (oba.den as i128),
            (oba.num as i128) * (oab.den as i128)
        );
    }
}

#[test]
fn not_complements_degree_and_keeps_flag() {
    let a = fb(true, 1, 5);
    let r = a.not();
    assert!(r.is_true);
    assert!(rat_value_eq(&r.value, 4, 5));
    let b = fb(false, 0, 1);
    assert!(!b.not().is_true);
    assert!(rat_value_eq(&b.not().value, 1, 1));
}

#[test]
fn double_negation_restores_degree() {
    for (n, d) in [(0i64, 1i64), (1, 2), (7, 15), (1, 1), (3, 8)] {
        let b = fb(true, n, d);
        let back = b.not().not();
        assert_eq!(back.value.num, b.value.num);
        assert_eq!(back.value.den, b.value.den);
    }
}

#[test]
fn lookup_finds_unique_label() {
    let res = FuzzySetResult {
        items: vec![
            (String::from("Small"), Rat::new(8, 15)),
            (String::from("Perfect"), Rat::new(2, 15)),
        ],
    };
    let hit = res.is(&String::from("Small"));
    assert!(hit.is_true);
    assert!(rat_value_eq(&hit.value, 8, 15));
}

#[test]
fn lookup_misses_absent_label() {
    let res = FuzzySetResult {
        items: vec![(String::from("Small"), Rat::new(8, 15))],
    };
    let miss = res.is(&String::from("Growing"));
    assert!(!miss.is_true);
    assert!(rat_value_eq(&miss.value, 0, 1));
}

#[test]
fn lookup_rejects_duplicate_labels() {
    // Two entries under one label are a configuration error: the lookup
    // wants exactly one match and reports "not found".
    let res = FuzzySetResult {
        items: vec![
            (String::from("Small"), Rat::new(1, 2)),
            (String::from("Small"), Rat::new(1, 3)),
        ],
    };
    let r = res.is(&String::from("Small"));
    assert!(!r.is_true);
    assert!(rat_value_eq(&r.value, 0, 1));
}

#[test]
fn lookup_on_empty_result_is_false() {
    let res = FuzzySetResult { items: Vec::new() };
    let r = res.is(&String::from("Anything"));
    assert!(!r.is_true);
    assert!(rat_value_eq(&r.value, 0, 1));
}
