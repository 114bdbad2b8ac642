use utility_stats::date::Date;
use utility_stats::grapher::{calc_measurement_series, calc_temp_series};
use utility_stats::measurement::Measurement;
use utility_stats::regression::Ratio;

fn day(y: i32, m: u8, d: u8) -> Date {
    Date::from_calendar_date(y, m, d).unwrap()
}

fn series(start: Date, offsets: &[i32], amounts: &[i64]) -> Vec<Measurement> {
    offsets
        .iter()
        .zip(amounts)
        .map(|(o, a)| Measurement::new(Date { julian_day: start.julian_day + o }, *a))
        .collect()
}

fn is_value(r: &Option<Ratio>, num: i128, den: i128) -> bool {
    match r {
        Some(q) => q.num * den == num * q.den,
        None => false,
    }
}

#[test]
fn output_keeps_dates_and_length() {
    let data = series(day(2024, 3, 1), &[0, 1, 4, 5, 9], &[10, 12, 3, 8, 1]);
    let (dates, values) = calc_temp_series(&data, 4);
    assert_eq!(values.len(), data.len());
    let expected: Vec<Date> = data.iter().map(|m| m.date).collect();
    assert_eq!(dates, expected);
}

#[test]
fn empty_series_gives_empty_output() {
    let (dates, values) = calc_temp_series(&Vec::new(), 5);
    assert!(dates.is_empty());
    assert!(values.is_empty());
}

#[test]
fn width_one_windows_are_undefined() {
    let data = series(day(2024, 1, 1), &[0, 1, 2, 3], &[5, 6, 7, 8]);
    let (_, values) = calc_temp_series(&data, 1);
    assert!(values.iter().all(|v| v.is_none()));
}

#[test]
fn linear_series_is_reproduced() {
    let offsets: Vec<i32> = (0..10).collect();
    let amounts: Vec<i64> = (0..10).map(|x| 100 - 3 * x as i64).collect();
    let data = series(day(2023, 12, 25), &offsets, &amounts);
    let (_, values) = calc_temp_series(&data, 5);
    for (k, v) in values.iter().enumerate() {
        assert!(is_value(v, 100 - 3 * k as i128, 1));
    }
}

#[test]
fn dense_window_holds_width_readings() {
    let data = series(day(2024, 1, 1), &[0, 1, 2, 3, 4, 5, 6], &[0, 0, 0, 9, 0, 0, 0]);
    let (_, values) = calc_temp_series(&data, 3);
    // the window around position 3 holds positions 2 to 4: mean 3, flat line
    assert!(is_value(&values[3], 3, 1));
    // around position 2 it holds 1 to 3: points (1,0) (2,0) (3,9) give 3 at day 2
    assert!(is_value(&values[2], 3, 1));
    // at the start the window is cut: positions 0 and 1 only
    assert!(is_value(&values[0], 0, 1));
}

#[test]
fn even_width_window_is_asymmetric() {
    let data = series(day(2024, 1, 1), &[0, 1, 2, 3, 4], &[0, 0, 0, 0, 8]);
    let (_, values) = calc_temp_series(&data, 4);
    // width 4: two days before and one after; around day 3 that is days 1 to 4: 3.2
    assert!(is_value(&values[3], 32, 10));
    // around day 2: days 0 to 3, all zero
    assert!(is_value(&values[2], 0, 1));
}

#[test]
fn gaps_use_calendar_days() {
    let data = series(day(2024, 1, 1), &[0, 10, 11, 12, 30], &[1, 2, 4, 6, 100]);
    let (_, values) = calc_temp_series(&data, 3);
    assert!(values[0].is_none());
    assert!(is_value(&values[2], 4, 1));
    assert!(values[4].is_none());
}

#[test]
fn usage_per_day() {
    let data = series(day(2024, 1, 1), &[0, 4, 5, 15], &[0, 20, 3, 50]);
    let (dates, values) = calc_measurement_series(&data);
    assert_eq!(dates.len(), 3);
    assert_eq!(dates[0], data[1].date);
    assert_eq!(values[0], Ratio { num: 20, den: 4 });
    assert_eq!(values[1], Ratio { num: 3, den: 1 });
    assert_eq!(values[2], Ratio { num: 50, den: 10 });
    assert!(calc_measurement_series(&Vec::new()).0.is_empty());
}
