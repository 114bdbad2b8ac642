use utility_stats::cache::{get_key, ClientCache};
use utility_stats::date::Date;
use utility_stats::tmpmgr::{check_past, combine_temps, Temp, TempDataManager, TempError, TempLookup};

fn day(y: i32, m: u8, d: u8) -> Date {
    Date::from_calendar_date(y, m, d).unwrap()
}

fn t(min: i64, mean: i64, max: i64) -> Temp {
    Temp { min, mean, max }
}

#[test]
fn date_range_excludes_end() {
    let dates = TempDataManager::date_range(day(2024, 1, 1), day(2024, 1, 4));
    assert_eq!(dates, vec![day(2024, 1, 1), day(2024, 1, 2), day(2024, 1, 3)]);
}

#[test]
fn date_range_crosses_months_and_is_empty_backwards() {
    let dates = TempDataManager::date_range(day(2024, 2, 28), day(2024, 3, 2));
    assert_eq!(dates, vec![day(2024, 2, 28), day(2024, 2, 29), day(2024, 3, 1)]);
    assert!(TempDataManager::date_range(day(2024, 1, 4), day(2024, 1, 1)).is_empty());
    assert!(TempDataManager::date_range(day(2024, 1, 4), day(2024, 1, 4)).is_empty());
}

#[test]
fn invalid_calendar_dates_are_refused() {
    assert!(Date::from_calendar_date(2019, 2, 29).is_none());
    assert!(Date::from_calendar_date(2019, 13, 1).is_none());
    assert!(Date::from_calendar_date(2019, 4, 31).is_none());
    assert!(Date::from_calendar_date(2020, 2, 29).is_some());
    assert_eq!(day(2000, 1, 1).julian_day, 2_451_545);
}

#[test]
fn two_providers_combine() {
    let r = combine_temps(&vec![Some(t(10, 15, 20)), Some(t(12, 17, 22))]);
    assert_eq!(r, Some(t(10, 16, 22)));
}

#[test]
fn silent_providers_are_left_out() {
    let r = combine_temps(&vec![None, Some(t(-50, -20, 5)), None, Some(t(-40, -25, 0))]);
    assert_eq!(r, Some(t(-50, -23, 5)));
    assert_eq!(combine_temps(&vec![None, None]), None);
    assert_eq!(combine_temps(&Vec::new()), None);
}

#[test]
fn today_and_future_are_refused() {
    let today = day(2024, 5, 10);
    let mut mgr = TempDataManager::new(today);
    assert_eq!(mgr.get_temp(&today), Err(TempError::NotInPast));
    assert_eq!(mgr.get_temp(&day(2024, 6, 1)), Err(TempError::NotInPast));
    assert_eq!(mgr.record(&today, &vec![Some(t(1, 2, 3))]), Err(TempError::NotInPast));
    assert_eq!(mgr.get_temp(&day(2024, 5, 9)), Ok(TempLookup::Fetch));
}

#[test]
fn second_lookup_uses_cache() {
    let today = day(2024, 5, 10);
    let date = day(2024, 5, 1);
    let mut mgr = TempDataManager::new(today);
    assert_eq!(mgr.get_temp(&date), Ok(TempLookup::Fetch));
    let first = mgr.record(&date, &vec![Some(t(10, 15, 20)), Some(t(12, 17, 22))]);
    assert_eq!(first, Ok(Some(t(10, 16, 22))));
    assert_eq!(mgr.get_temp(&date), Ok(TempLookup::Cached(Some(t(10, 16, 22)))));
    let again = mgr.record(&date, &vec![Some(t(0, 0, 0))]);
    assert_eq!(again, first);
    assert_eq!(mgr.get_temp(&date), Ok(TempLookup::Cached(Some(t(10, 16, 22)))));
}

#[test]
fn no_data_is_cached_as_none() {
    let mut mgr = TempDataManager::new(day(2024, 5, 10));
    let date = day(2024, 4, 1);
    assert_eq!(mgr.record(&date, &vec![None]), Ok(None));
    assert_eq!(mgr.get_temp(&date), Ok(TempLookup::Cached(None)));
}

#[test]
fn cache_keys_count_days_from_1970() {
    assert_eq!(get_key(&day(1970, 1, 1)), 0);
    assert_eq!(get_key(&day(1970, 1, 2)), 1);
    assert_eq!(get_key(&day(1969, 12, 31)), -1);
    assert_eq!(get_key(&day(2024, 1, 1)), 19723);
}

#[test]
fn cache_database_lives_in_directory() {
    let cache = ClientCache::new("cache".to_string());
    assert_eq!(cache.db_path(), "cache/db.sqlite");
}

#[test]
fn averages_over_cached_days() {
    let mut mgr = TempDataManager::new(day(2024, 5, 10));
    mgr.record(&day(2024, 5, 1), &vec![Some(t(0, 10, 20))]);
    mgr.record(&day(2024, 5, 2), &vec![Some(t(5, 12, 30))]);
    mgr.record(&day(2024, 5, 3), &vec![Some(t(-3, 2, 4))]);
    let min = mgr.get_avg_min_temp(day(2024, 5, 1), day(2024, 5, 4)).unwrap();
    assert_eq!((min.num, min.den), (2, 3));
    let mean = mgr.get_avg_mean_temp(day(2024, 5, 1), day(2024, 5, 4)).unwrap();
    assert_eq!((mean.num, mean.den), (24, 3));
    let max = mgr.get_avg_max_temp(day(2024, 5, 1), day(2024, 5, 3)).unwrap();
    assert_eq!((max.num, max.den), (50, 2));
}

#[test]
fn averages_need_every_day() {
    let mut mgr = TempDataManager::new(day(2024, 5, 10));
    mgr.record(&day(2024, 5, 1), &vec![Some(t(0, 10, 20))]);
    mgr.record(&day(2024, 5, 3), &vec![Some(t(0, 10, 20))]);
    mgr.record(&day(2024, 5, 4), &vec![None]);
    assert!(mgr.get_avg_min_temp(day(2024, 5, 1), day(2024, 5, 4)).is_none());
    assert!(mgr.get_avg_min_temp(day(2024, 5, 3), day(2024, 5, 5)).is_none());
    assert!(mgr.get_avg_min_temp(day(2024, 5, 1), day(2024, 5, 1)).is_none());
}

#[test]
fn readings_summarized() {
    assert_eq!(Temp::from_readings(&vec![30, -5, 12, 7]), Some(t(-5, 11, 30)));
    assert_eq!(Temp::from_readings(&vec![-1, -2]), Some(t(-2, -2, -1)));
    assert_eq!(Temp::from_readings(&Vec::new()), None);
}

#[test]
fn past_check() {
    let today = day(2024, 5, 10);
    assert_eq!(check_past(&day(2024, 5, 9), &today), Ok(()));
    assert_eq!(check_past(&today, &today), Err(TempError::NotInPast));
    assert_eq!(check_past(&day(2025, 1, 1), &today), Err(TempError::NotInPast));
}
