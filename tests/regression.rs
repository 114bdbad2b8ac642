use utility_stats::regression::{Ratio, SimpleRegression};

fn same_value(r: Option<Ratio>, num: i128, den: i128) -> bool {
    match r {
        Some(q) => q.num * den == num * q.den,
        None => false,
    }
}

#[test]
fn empty_accumulator_is_undefined() {
    let reg = SimpleRegression::new();
    assert_eq!(reg.count(), 0);
    assert!(reg.slope().is_none());
    assert!(reg.intercept().is_none());
    assert!(reg.predict(3).is_none());
}

#[test]
fn single_point_is_undefined() {
    let mut reg = SimpleRegression::new();
    reg.add_data(4, 10);
    assert!(reg.slope().is_none());
    assert!(reg.intercept().is_none());
    assert!(reg.predict(4).is_none());
}

#[test]
fn one_x_value_is_undefined() {
    let mut reg = SimpleRegression::new();
    reg.add_data(7, 1);
    reg.add_data(7, 5);
    reg.add_data(7, -3);
    assert_eq!(reg.count(), 3);
    assert!(reg.slope().is_none());
    assert!(reg.intercept().is_none());
    assert!(reg.predict(0).is_none());
}

#[test]
fn exact_line_is_recovered() {
    let mut reg = SimpleRegression::new();
    for x in 0..5i64 {
        reg.add_data(x, 3 + 2 * x);
    }
    assert!(same_value(reg.slope(), 2, 1));
    assert!(same_value(reg.intercept(), 3, 1));
    assert!(same_value(reg.predict(10), 23, 1));
    assert!(reg.slope().unwrap().den > 0);
}

#[test]
fn incremental_matches_closed_form() {
    let pts: Vec<(i64, i64)> = vec![(1, 4), (2, 1), (4, 9), (5, 2), (9, -6), (10, 3)];
    let mut reg = SimpleRegression::new();
    for &(x, y) in &pts {
        reg.add_data(x, y);
    }
    let n = pts.len() as i128;
    let sx: i128 = pts.iter().map(|p| p.0 as i128).sum();
    let sy: i128 = pts.iter().map(|p| p.1 as i128).sum();
    let sxx: i128 = pts.iter().map(|p| (p.0 * p.0) as i128).sum();
    let sxy: i128 = pts.iter().map(|p| (p.0 * p.1) as i128).sum();
    let d = n * sxx - sx * sx;
    let c = n * sxy - sx * sy;
    assert!(same_value(reg.slope(), c, d));
    assert!(same_value(reg.intercept(), sy * d - c * sx, n * d));
    assert!(same_value(reg.predict(6), sy * d + c * (n * 6 - sx), n * d));
    let fx: Vec<f64> = pts.iter().map(|p| p.0 as f64).collect();
    let fy: Vec<f64> = pts.iter().map(|p| p.1 as f64).collect();
    let mx = fx.iter().sum::<f64>() / 6.0;
    let my = fy.iter().sum::<f64>() / 6.0;
    let num: f64 = fx.iter().zip(&fy).map(|(x, y)| (x - mx) * (y - my)).sum();
    let den: f64 = fx.iter().map(|x| (x - mx) * (x - mx)).sum();
    let s = reg.slope().unwrap();
    assert!(((s.num as f64) / (s.den as f64) - num / den).abs() < 1e-9);
}

#[test]
fn large_offsets_stay_exact() {
    let mut reg = SimpleRegression::new();
    reg.add_data(1_000_000, 7);
    reg.add_data(1_000_001, 9);
    reg.add_data(1_000_002, 11);
    assert!(same_value(reg.slope(), 2, 1));
    assert!(same_value(reg.predict(1_000_003), 13, 1));
}
