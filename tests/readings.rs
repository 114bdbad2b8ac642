use utility_stats::date::Date;
use utility_stats::grapher::{measurement_dates, temp_series};
use utility_stats::measurement::{Measurement, Measurements, ReadError};
use utility_stats::tmpmgr::{Temp, TempField};

fn day(y: i32, m: u8, d: u8) -> Date {
    Date::from_calendar_date(y, m, d).unwrap()
}

#[test]
fn records_are_sorted_by_date() {
    let rows = vec![
        ("2024-03-05".to_string(), 7u16),
        ("2024-01-31".to_string(), 3u16),
        ("2024-02-29".to_string(), 9u16),
        ("2024-01-31".to_string(), 4u16),
    ];
    let ms = Measurements::from_records(rows, "Gas".to_string(), "CCF".to_string()).unwrap();
    assert_eq!(ms.typ, "Gas");
    assert_eq!(ms.unit, "CCF");
    let got: Vec<(Date, i64)> = ms.data.iter().map(|m| (m.date, m.amount)).collect();
    assert_eq!(
        got,
        vec![
            (day(2024, 1, 31), 3),
            (day(2024, 1, 31), 4),
            (day(2024, 2, 29), 9),
            (day(2024, 3, 5), 7)
        ]
    );
}

#[test]
fn bad_date_is_an_error() {
    let rows = vec![("2024-01-01".to_string(), 1u16), ("2023-02-29".to_string(), 2u16)];
    let r = Measurements::from_records(rows, "Electricity".to_string(), "kWh".to_string());
    assert!(matches!(r, Err(ReadError::DateParseError { .. })));
    let rows = vec![("01/02/2024".to_string(), 1u16)];
    assert!(Measurements::from_records(rows, String::new(), String::new()).is_err());
    assert!(Measurements::from_records(Vec::new(), String::new(), String::new())
        .unwrap()
        .data
        .is_empty());
}

#[test]
fn dates_of_both_series_merged() {
    let e = vec![
        Measurement::new(day(2024, 1, 5), 1),
        Measurement::new(day(2024, 1, 1), 1),
        Measurement::new(day(2024, 1, 9), 1),
    ];
    let g = vec![Measurement::new(day(2024, 1, 5), 2), Measurement::new(day(2024, 1, 3), 2)];
    let dates = measurement_dates(&e, &g);
    assert_eq!(dates, vec![day(2024, 1, 1), day(2024, 1, 3), day(2024, 1, 5), day(2024, 1, 9)]);
    assert!(measurement_dates(&Vec::new(), &Vec::new()).is_empty());
}

#[test]
fn temperature_field_series() {
    let daily = vec![
        (day(2024, 1, 1), Temp { min: -10, mean: 5, max: 20 }),
        (day(2024, 1, 2), Temp { min: -7, mean: 6, max: 25 }),
    ];
    let max = temp_series(&daily, TempField::Max);
    assert_eq!(max, vec![Measurement::new(day(2024, 1, 1), 20), Measurement::new(day(2024, 1, 2), 25)]);
    let min = temp_series(&daily, TempField::Min);
    assert_eq!(min[1].amount, -7);
    assert_eq!(temp_series(&daily, TempField::Mean)[0].amount, 5);
}
