use bwg_usage::clock::LocalTime;
use bwg_usage::quota::{
    after_round, can_read_hours, days_of_hours, example_servers, live_status, reading_fits,
    request_url, series_of, update_traffic_delta_for_server, usage_of_day, usage_of_days,
    usage_series, BwgApiResponse, BwgServerConfig, TrafficHistory,
};
use bwg_usage::text_map::TextMap;
use chrono::{Datelike, NaiveDate, TimeZone};

const EAST_8: i32 = 8 * 3600;

fn usage(list: &[(&str, i64)]) -> TextMap<i64> {
    let mut m: TextMap<i64> = TextMap::new();
    for (k, v) in list {
        m.insert(k.to_string(), *v);
    }
    m
}

fn at(year: i32, month: u32, day: u32, hour: u32) -> LocalTime {
    let zone = chrono::FixedOffset::east_opt(EAST_8).unwrap();
    let t = zone.with_ymd_and_hms(year, month, day, hour, 30, 0).unwrap();
    LocalTime { timestamp: t.timestamp(), utc_offset: EAST_8 }
}

fn days_back(from: LocalTime, n: i64) -> Vec<LocalTime> {
    (0..n)
        .map(|i| LocalTime { timestamp: from.timestamp - 86_400 * i, utc_offset: from.utc_offset })
        .collect()
}

fn server(veid: &str, api_key: &str) -> BwgServerConfig {
    BwgServerConfig {
        name: "n".to_string(),
        veid: veid.to_string(),
        api_key: api_key.to_string(),
        ip: "1.2.3.4".to_string(),
    }
}

fn read(history: &mut TrafficHistory, counter: i64, reset: i64, hour: &str) -> bool {
    assert!(reading_fits(history, "s", counter, reset, hour));
    update_traffic_delta_for_server(history, "s", counter, reset, hour)
}

#[test]
fn test_weekly_logic() {
    let now = at(2026, 6, 24, 12);
    let hour_str = "2026-06-18 19:00";
    let hours = usage(&[(hour_str, 5)]);
    assert!(can_read_hours(&hours));
    let days = days_of_hours(&hours);
    let t_day = days[0].unwrap() as i64;
    assert_eq!(t_day, NaiveDate::from_ymd_opt(2026, 6, 18).unwrap().num_days_from_ce() as i64);

    let moments = days_back(now, 28);
    let start_day = moments[6].day();
    let end_day = moments[0].day();
    assert!(t_day >= start_day && t_day <= end_day);
    assert_eq!(usage_of_days(&hours, &days, start_day, end_day), Some(5));
    assert_eq!(usage_of_days(&hours, &days, start_day + 1, end_day), Some(0));
}

#[test]
fn moments_are_shown_on_the_local_clock() {
    let t = at(2026, 1, 1, 3);
    assert_eq!(t.date().unwrap(), "2026-01-01");
    assert_eq!(t.short_date().unwrap(), "01-01");
    assert_eq!(t.hour().unwrap(), "2026-01-01 03:00");
    assert_eq!(t.week(), Some(1));
    let utc = LocalTime { timestamp: t.timestamp, utc_offset: 0 };
    assert_eq!(utc.hour().unwrap(), "2025-12-31 19:00");
    assert_eq!(t.day() - utc.day(), 1);
    assert_eq!(LocalTime { timestamp: -1, utc_offset: 0 }.day(), 719_162);
    assert_eq!(LocalTime { timestamp: 0, utc_offset: 0 }.day(), 719_163);
    assert!(LocalTime { timestamp: i64::MAX, utc_offset: 0 }.date().is_none());
    assert!(LocalTime { timestamp: 0, utc_offset: 86_400 }.week().is_none());
    assert_eq!(at(2027, 1, 1, 0).week(), Some(53));
}

#[test]
fn the_example_server_is_not_asked_about() {
    let list = example_servers();
    assert_eq!(list.len(), 1);
    assert_eq!(list[0].ip, "1.2.3.4");
    assert!(request_url(&list[0]).is_none());
    assert!(request_url(&server("123456", "k")).is_none());
    assert!(request_url(&server("1", "your_api_key_here")).is_none());
    assert_eq!(
        request_url(&server("1", "k")).unwrap(),
        "https://api.64clouds.com/v1/getServiceInfo?veid=1&api_key=k"
    );
}

#[test]
fn answers_of_the_provider_become_a_status() {
    let mut answer = BwgApiResponse {
        plan_monthly_data: 100,
        data_counter: 7,
        data_next_reset: 99,
        error: 0,
        extra: Vec::new(),
    };
    let s = live_status(&server("1", "k"), &answer).unwrap();
    assert_eq!((s.official_used_bytes, s.official_limit_bytes, s.next_reset_time), (7, 100, 99));
    assert_eq!((s.name.as_str(), s.ip.as_str()), ("n", "1.2.3.4"));
    answer.error = 1;
    assert!(live_status(&server("1", "k"), &answer).is_none());

    let shown = after_round(Vec::new(), vec![s]);
    assert_eq!(shown.len(), 1);
    assert_eq!(after_round(shown, Vec::new()).len(), 1);
}

#[test]
fn readings_add_what_the_counter_has_grown() {
    let mut h = TrafficHistory::default();
    assert!(!read(&mut h, 0, 5, "h0"));
    assert!(h.server_last_counters.is_empty());
    assert!(read(&mut h, 100, 5, "h0"));
    assert!(h.hourly_usage.is_empty());
    assert_eq!((h.last_counter, h.last_reset), (100, 5));

    assert!(read(&mut h, 130, 5, "h1"));
    assert!(read(&mut h, 135, 0, "h1"));
    assert_eq!(h.hourly_usage.count("h1"), 35);
    assert!(read(&mut h, 135, 0, "h2"));
    assert!(!h.hourly_usage.contains_key("h2"));

    assert!(read(&mut h, 140, 6, "h3"));
    assert_eq!(h.hourly_usage.count("h3"), 140);
    assert!(read(&mut h, 10, 6, "h4"));
    assert_eq!(h.hourly_usage.count("h4"), 10);

    assert!(update_traffic_delta_for_server(&mut h, "other", 1000, 1, "h5"));
    assert_eq!(h.last_counter, 1000);
    assert!(read(&mut h, 11, 6, "h5"));
    assert_eq!(h.last_counter, 1011);
    assert_eq!(h.server_last_resets.count("s"), 6);

    h.hourly_usage.insert("full".to_string(), i64::MAX);
    assert!(!reading_fits(&h, "s", 12, 6, "full"));
}

#[test]
fn days_are_the_sums_of_their_hours() {
    let hours = usage(&[
        ("2026-06-18 01:00", 1),
        ("2026-06-18 02:00", 2),
        ("2026-06-19 02:00", 4),
        ("2026-06-1", 8),
        ("not a date at all", 16),
    ]);
    assert_eq!(usage_of_day(&hours, "2026-06-18"), Some(3));
    assert_eq!(usage_of_day(&hours, "2026-06-1"), Some(15));
    let days = days_of_hours(&hours);
    assert!(days[3].is_none() && days[4].is_none());
    let first = days[0].unwrap() as i64;
    assert_eq!(usage_of_days(&hours, &days, first, first + 1), Some(7));
    assert_eq!(usage_of_days(&hours, &days, first + 1, first + 1), Some(4));
    assert!(!can_read_hours(&usage(&[("2026-06-1日 01:00", 1)])));
    assert!(can_read_hours(&usage(&[("日", 1)])));
    assert!(usage_of_day(&usage(&[("d1", i64::MAX), ("d2", 1)]), "d").is_none());
}

#[test]
fn the_last_weeks_are_shown_without_gaps() {
    let now = at(2026, 6, 24, 12);
    let moments = days_back(now, 28);
    let mut h = TrafficHistory::default();
    for (i, m) in moments.iter().enumerate() {
        h.hourly_usage.insert(m.hour().unwrap(), 1 << i);
    }
    h.hourly_usage.insert("2026-05-27 00:00".to_string(), 1 << 40);
    assert!(can_read_hours(&h.hourly_usage));
    let s = usage_series(&h, &moments).unwrap();
    assert_eq!(s.daily_labels, vec!["06-18", "06-19", "06-20", "06-21", "06-22", "06-23", "06-24"]);
    assert_eq!(s.daily_bytes, vec![64, 32, 16, 8, 4, 2, 1]);
    assert_eq!(
        s.weekly_labels,
        vec!["05-28~06-03", "06-04~06-10", "06-11~06-17", "06-18~06-24"]
    );
    assert_eq!(s.weekly_bytes, vec![127 << 21, 127 << 14, 127 << 7, 127]);

    let days = days_of_hours(&h.hourly_usage);
    let again = series_of(&h.hourly_usage, &days, &moments).unwrap();
    assert_eq!(again.weekly_bytes, s.weekly_bytes);

    let far = days_back(LocalTime { timestamp: i64::MAX, utc_offset: 0 }, 28);
    assert!(usage_series(&h, &far).is_none());
}

#[test]
fn filed_hours_lie_on_the_day_of_their_moment() {
    for t in [at(2026, 2, 28, 23), at(2026, 3, 1, 0), LocalTime { timestamp: 0, utc_offset: -3600 }] {
        let hours = usage(&[(t.hour().unwrap().as_str(), 9)]);
        assert!(can_read_hours(&hours));
        let days = days_of_hours(&hours);
        assert_eq!(days, vec![Some(t.day() as i32)]);
        assert_eq!(usage_of_day(&hours, &t.date().unwrap()), Some(9));
        assert_eq!(usage_of_days(&hours, &days, t.day(), t.day()), Some(9));
        assert_eq!(usage_of_days(&hours, &days, t.day() + 1, t.day() + 6), Some(0));
    }
    assert_eq!(LocalTime { timestamp: 0, utc_offset: -3600 }.hour().unwrap(), "1969-12-31 23:00");
}
