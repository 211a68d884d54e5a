use bwg_usage::apply::{
    apply_report_to_history, effective_abnormal_deltas, is_delta_report, is_in_week,
    remember_processed_report_id, report_fits, try_apply_report, ReportTime,
};
use bwg_usage::auth::{AuthFailure, AuthSettings};
use bwg_usage::classify::{configured_direct_suffixes, ClassifiedDomainDelta};
use bwg_usage::clock::{week_index, LocalTime};
use bwg_usage::history::{DeviceHistory, NasTrafficHistory};
use bwg_usage::hosts::RoutingSettings;
use bwg_usage::report::{
    max_report_delta, valid_public_label, validate_report_payload, TrafficReportRequest,
};
use bwg_usage::server::{handle_report, port_setting, ReportReply};
use bwg_usage::text_map::TextMap;

fn suffixes() -> Vec<String> {
    configured_direct_suffixes(&RoutingSettings {
        direct_suffixes: None,
        direct_suffixes_file: None,
        control_domain_suffixes: None,
        nas_server_url: None,
    })
}

fn counts(list: &[(&str, i64)]) -> TextMap<i64> {
    let mut m: TextMap<i64> = TextMap::new();
    for (k, v) in list {
        m.insert(k.to_string(), *v);
    }
    m
}

fn classified(list: &[(&str, i64)]) -> TextMap<ClassifiedDomainDelta> {
    let mut m: TextMap<ClassifiedDomainDelta> = TextMap::new();
    for (k, v) in list {
        m.insert(
            k.to_string(),
            ClassifiedDomainDelta {
                bytes: *v,
                should_proxy: true,
                category: "claimed".to_string(),
                reason: "claimed".to_string(),
            },
        );
    }
    m
}

fn sample_report() -> TrafficReportRequest {
    TrafficReportRequest {
        report_id: "report-1".to_string(),
        device_name: "MacBookPro".to_string(),
        download_delta: 1024,
        upload_delta: 512,
        current_node_ip: "1.2.3.4".to_string(),
        domain_deltas: counts(&[("api.openai.com", 1536)]),
        abnormal_domain_deltas: TextMap::new(),
        report_kind: "delta".to_string(),
    }
}

fn at(timestamp: i64) -> ReportTime {
    ReportTime::at(&LocalTime { timestamp, utc_offset: 0 }).unwrap()
}

fn now() -> ReportTime {
    let now = chrono::Local::now();
    ReportTime::at(&LocalTime {
        timestamp: now.timestamp(),
        utc_offset: now.offset().local_minus_utc(),
    })
    .unwrap()
}

fn check(report: &TrafficReportRequest) -> Result<(), String> {
    validate_report_payload(report, max_report_delta(None))
}

#[test]
fn test_validate_report_payload_rejects_bad_values() {
    let mut report = sample_report();
    assert!(check(&report).is_ok());

    report.download_delta = -1;
    assert!(check(&report).is_err());

    let mut report = sample_report();
    report.device_name = "bad\nname".to_string();
    assert!(check(&report).is_err());

    let mut report = sample_report();
    report.domain_deltas.insert("bad<script>".to_string(), 1);
    assert!(check(&report).is_ok());

    report.domain_deltas.insert("bad\nhost".to_string(), 1);
    assert!(check(&report).is_err());

    let mut report = sample_report();
    report.report_id = "bad\nid".to_string();
    assert!(check(&report).is_err());
}

#[test]
fn test_apply_report_to_history_deduplicates_report_id() {
    let mut history = NasTrafficHistory::default();
    let report = sample_report();
    let first = now();
    let mut second = now();
    second.timestamp = first.timestamp + 30;

    let duplicate = apply_report_to_history(&mut history, &report, &first, &suffixes());
    assert!(!duplicate);
    let duplicate = apply_report_to_history(&mut history, &report, &second, &suffixes());
    assert!(duplicate);

    let dev = history.devices.get("MacBookPro").unwrap();
    assert_eq!(dev.total_download, 1024);
    assert_eq!(dev.total_upload, 512);
    assert_eq!(dev.processed_report_ids, vec!["report-1".to_string()]);
    assert_eq!(dev.last_seen, first.timestamp + 30);

    let node = history.nodes.get("1.2.3.4").unwrap();
    assert_eq!(node.total_download + node.total_upload, 1536);
    assert_eq!(*history.daily_api_traffic.get("api.openai.com").unwrap(), 1536);
}

#[test]
fn test_apply_report_to_history_reclassifies_client_abnormal_data() {
    let mut history = NasTrafficHistory::default();
    let mut report = sample_report();
    report.report_id = "report-cn".to_string();
    report.domain_deltas = counts(&[("static.bilibili.com", 2048)]);
    report.abnormal_domain_deltas.clear();

    let duplicate = apply_report_to_history(&mut history, &report, &now(), &suffixes());
    assert!(!duplicate);

    let dev = history.devices.get("MacBookPro").unwrap();
    assert_eq!(dev.total_abnormal_proxy, 2048);
    assert!(history.daily_abnormal_traffic.contains_key("static.bilibili.com"));
}

#[test]
fn every_rule_for_reports_has_its_message() {
    let message = |f: &dyn Fn(&mut TrafficReportRequest)| -> String {
        let mut report = sample_report();
        f(&mut report);
        check(&report).unwrap_err()
    };
    assert_eq!(message(&|r| r.report_id = "x".repeat(129)), "report_id 包含非法字符或过长");
    assert_eq!(
        message(&|r| r.device_name = " ".to_string()),
        "device_name 不能为空，且长度不能超过 64 个字符"
    );
    assert_eq!(
        message(&|r| r.current_node_ip = "\u{0}".to_string()),
        "current_node_ip 包含非法字符或过长"
    );
    assert_eq!(message(&|r| r.upload_delta = -1), "流量增量不能为负数");
    assert_eq!(
        message(&|r| r.download_delta = 10_995_116_277_761),
        "单次上报流量超过保护阈值"
    );
    assert_eq!(
        message(&|r| for i in 0..2001 {
            r.domain_deltas.insert(format!("d{}", i), 1);
        }),
        "单次上报域名数量超过保护阈值"
    );
    assert_eq!(
        message(&|r| r.domain_deltas.insert("x.example".to_string(), -5)),
        "域名 x.example 的流量增量非法"
    );
    assert_eq!(
        message(&|r| r.domain_deltas.insert("é".repeat(127), 5)),
        "域名包含非法字符或过长"
    );
    assert_eq!(
        message(&|r| r.abnormal_domain_deltas = classified(&[("y.example", -1)])),
        "异常域名 y.example 的流量增量非法"
    );
    assert_eq!(
        message(&|r| r.abnormal_domain_deltas = classified(&[("", 1)])),
        "异常域名分类字段包含非法字符或过长"
    );
    let mut empty_ids = sample_report();
    empty_ids.report_id = String::new();
    empty_ids.current_node_ip = String::new();
    assert!(check(&empty_ids).is_ok());
}

#[test]
fn labels_are_measured_in_bytes() {
    assert!(valid_public_label("éé", 4));
    assert!(!valid_public_label("éé", 3));
    assert!(!valid_public_label("\u{3000}\t", 10));
    assert!(!valid_public_label("a\u{85}b", 10));
    assert!(!valid_public_label("", 10));
}

#[test]
fn the_largest_report_comes_from_the_setting() {
    assert_eq!(max_report_delta(None), 10 * 1024 * 1024 * 1024 * 1024);
    assert_eq!(max_report_delta(Some("77")), 77);
    assert_eq!(max_report_delta(Some("-1")), -1);
    assert_eq!(max_report_delta(Some(" 77")), 10_995_116_277_760);
    assert_eq!(port_setting(&Some("8080".to_string()), 1), 8080);
    assert_eq!(port_setting(&Some("65536".to_string()), 1), 1);
    assert_eq!(port_setting(&None, 9), 9);
}

#[test]
fn reports_of_bytes_are_told_from_heartbeats() {
    let mut r = sample_report();
    assert!(is_delta_report(&r));
    r.report_kind = "heartbeat".to_string();
    assert!(is_delta_report(&r));
    r.download_delta = 0;
    r.upload_delta = 0;
    assert!(is_delta_report(&r));
    r.domain_deltas.clear();
    assert!(!is_delta_report(&r));
    r.abnormal_domain_deltas = classified(&[("a", 0)]);
    assert!(is_delta_report(&r));
}

#[test]
fn heartbeats_leave_all_totals_alone() {
    let mut history = NasTrafficHistory::default();
    apply_report_to_history(&mut history, &sample_report(), &at(1_750_000_000), &suffixes());
    let beat = TrafficReportRequest {
        report_id: String::new(),
        device_name: "MacBookPro".to_string(),
        download_delta: 0,
        upload_delta: 0,
        current_node_ip: "5.6.7.8:443".to_string(),
        domain_deltas: TextMap::new(),
        abnormal_domain_deltas: TextMap::new(),
        report_kind: "heartbeat".to_string(),
    };
    let repeat = apply_report_to_history(&mut history, &beat, &at(1_750_000_100), &suffixes());
    assert!(!repeat);
    let dev = history.devices.get("MacBookPro").unwrap();
    assert_eq!((dev.total_download, dev.total_upload, dev.last_seen), (1024, 512, 1_750_000_100));
    assert_eq!(dev.current_node, "5.6.7.8:443");
    assert_eq!(dev.processed_report_ids.len(), 1);
    assert_eq!(history.nodes.get("5.6.7.8").unwrap().total_download, 0);
    assert_eq!(history.daily_api_traffic.count("api.openai.com"), 1536);
}

#[test]
fn another_day_and_week_begin_anew() {
    let mut history = NasTrafficHistory::default();
    // Sunday 2026-06-14 and Monday 2026-06-15.
    let sunday = at(1_781_438_400);
    let monday = at(1_781_438_400 + 86_400);
    assert_eq!((sunday.date.as_str(), sunday.week), ("2026-06-14", 24));
    assert_eq!((monday.date.as_str(), monday.week), ("2026-06-15", 25));
    apply_report_to_history(&mut history, &sample_report(), &sunday, &suffixes());
    let mut next = sample_report();
    next.report_id = "report-2".to_string();
    next.domain_deltas = counts(&[("b.example", 5), ("zero.example", 0)]);
    apply_report_to_history(&mut history, &next, &monday, &suffixes());
    assert_eq!(history.daily_api_date, "2026-06-15");
    assert_eq!(history.weekly_api_week, 25);
    assert_eq!(history.daily_api_traffic.len(), 1);
    assert_eq!(history.weekly_api_traffic.count("b.example"), 5);
    assert!(!history.weekly_api_traffic.contains_key("api.openai.com"));
    let dev = history.devices.get("MacBookPro").unwrap();
    assert!(dev.domain_traffic.contains_key("zero.example"));
    assert_eq!(dev.total_download, 2048);
}

#[test]
fn a_week_of_another_year_is_another_week() {
    let mut history = NasTrafficHistory::default();
    history.weekly_api_week = 25;
    history.daily_api_date = "2025-06-18".to_string();
    history.weekly_api_traffic = counts(&[("old.example", 7)]);
    history.weekly_abnormal_traffic = classified(&[("old.cn", 7)]);
    let noon = at(1_781_740_800 + 43_200);
    assert_eq!((noon.date.as_str(), noon.week), ("2026-06-18", 25));
    assert!(!history.is_of_week(&noon));
    assert!(!apply_report_to_history(&mut history, &sample_report(), &noon, &suffixes()));
    assert_eq!(history.weekly_api_traffic.len(), 1);
    assert_eq!(history.weekly_api_traffic.count("api.openai.com"), 1536);
    assert!(history.weekly_abnormal_traffic.is_empty());

    let mut next = sample_report();
    next.report_id = "report-2".to_string();
    let sunday = at(1_781_740_800 + 3 * 86_400);
    assert!(!apply_report_to_history(&mut history, &next, &sunday, &suffixes()));
    assert_eq!(history.weekly_api_traffic.count("api.openai.com"), 3072);
}

#[test]
fn weeks_go_on_over_the_turn_of_the_year() {
    // Monday 2024-12-30 and Friday 2025-01-03 lie in week 1 of 2025.
    let monday = at(1_735_516_800);
    let friday = at(1_735_516_800 + 4 * 86_400);
    assert_eq!((monday.date.as_str(), monday.week), ("2024-12-30", 1));
    assert_eq!((friday.date.as_str(), friday.week), ("2025-01-03", 1));
    assert_eq!(week_index(monday.day), week_index(friday.day));
    assert_eq!(week_index(monday.day - 1), week_index(monday.day) - 1);
    assert_eq!((week_index(1), week_index(7), week_index(8)), (0, 0, 1));
    assert_eq!((week_index(0), week_index(-6), week_index(-7)), (-1, -1, -2));

    assert!(is_in_week(1, Some(monday.day as i32), &friday));
    assert!(!is_in_week(1, Some(monday.day as i32 - 1), &friday));
    assert!(!is_in_week(2, Some(monday.day as i32), &friday));
    assert!(!is_in_week(1, Some(monday.day as i32 - 364), &friday));
    assert!(is_in_week(1, None, &friday));
    assert!(!is_in_week(52, None, &friday));
}

#[test]
fn reports_without_a_node_count_under_none() {
    for node in ["", "未知", "未配置"] {
        let mut history = NasTrafficHistory::default();
        let mut r = sample_report();
        r.current_node_ip = node.to_string();
        apply_report_to_history(&mut history, &r, &at(0), &suffixes());
        assert!(history.nodes.is_empty());
        assert_eq!(history.devices.len(), 1);
    }
}

#[test]
fn abnormal_bytes_are_classified_anew() {
    let mut r = sample_report();
    r.domain_deltas = counts(&[("a.cn", 10), ("b.example", 20), ("c.cn", 0)]);
    r.abnormal_domain_deltas = classified(&[("a.cn", 99), ("d.cn", 7), ("e.example", 8), ("f.cn", 0)]);
    let eff = effective_abnormal_deltas(&r, &suffixes());
    assert_eq!(eff.len(), 2);
    assert_eq!(eff.get("a.cn").unwrap().bytes, 10);
    assert_eq!(eff.get("d.cn").unwrap().bytes, 7);
    assert_eq!(eff.get("d.cn").unwrap().category, "should-direct");
}

#[test]
fn only_the_last_five_hundred_ids_are_remembered() {
    let mut dev = DeviceHistory::default();
    for i in 0..501 {
        remember_processed_report_id(&mut dev, &format!("id-{}", i));
    }
    remember_processed_report_id(&mut dev, "id-500");
    remember_processed_report_id(&mut dev, "  ");
    assert_eq!(dev.processed_report_ids.len(), 500);
    assert_eq!(dev.processed_report_ids[0], "id-1");
    assert_eq!(dev.processed_report_ids[499], "id-500");
}

#[test]
fn a_report_stays_known_through_499_others() {
    let mut history = NasTrafficHistory::default();
    let first = sample_report();
    assert_eq!(try_apply_report(&mut history, &first, &at(10), &suffixes()), Some(false));
    for i in 0..499 {
        let mut other = sample_report();
        other.report_id = format!("other-{}", i);
        assert_eq!(try_apply_report(&mut history, &other, &at(20), &suffixes()), Some(false));
    }
    assert_eq!(try_apply_report(&mut history, &first, &at(30), &suffixes()), Some(true));
    assert_eq!(history.devices.get("MacBookPro").unwrap().total_download, 500 * 1024);

    let mut last = sample_report();
    last.report_id = "last".to_string();
    assert_eq!(try_apply_report(&mut history, &last, &at(40), &suffixes()), Some(false));
    assert_eq!(try_apply_report(&mut history, &first, &at(50), &suffixes()), Some(false));
}

#[test]
fn reports_that_do_not_fit_change_nothing() {
    let mut history = NasTrafficHistory::default();
    let mut big = sample_report();
    big.download_delta = i64::MAX;
    assert_eq!(
        try_apply_report(&mut history, &big, &at(10), &suffixes()),
        Some(false)
    );
    let mut more = sample_report();
    more.report_id = "report-2".to_string();
    assert!(!report_fits(&history, &more, &at(20), &suffixes()));
    assert_eq!(try_apply_report(&mut history, &more, &at(20), &suffixes()), None);
    assert_eq!(history.devices.get("MacBookPro").unwrap().last_seen, 10);
    assert_eq!(
        try_apply_report(&mut history, &big, &at(30), &suffixes()),
        Some(true)
    );
}

#[test]
fn records_balance_after_reports() {
    let mut history = NasTrafficHistory::default();
    for i in 0..5 {
        let mut r = sample_report();
        r.report_id = format!("r{}", i);
        r.domain_deltas = counts(&[("a.cn", 1000), ("b.example", 536)]);
        apply_report_to_history(&mut history, &r, &at(i), &suffixes());
    }
    let dev = history.devices.get("MacBookPro").unwrap();
    let sum = dev.domain_traffic.count("a.cn") + dev.domain_traffic.count("b.example");
    assert_eq!(sum, dev.total_download + dev.total_upload);
    assert_eq!(dev.abnormal_domain_traffic.bytes("a.cn"), dev.total_abnormal_proxy);
    assert_eq!(dev.total_abnormal_proxy, 5000);
}

#[test]
fn the_server_answers_each_report_in_its_way() {
    let settings = AuthSettings {
        report_token: Some(" secret ".to_string()),
        report_auth_required: None,
        dashboard_token: None,
        read_auth_required: None,
    };
    let mut history = NasTrafficHistory::default();
    let max = max_report_delta(None);
    let mut report = sample_report();
    let r = handle_report(&mut history, &report, None, &settings, max, &at(0), &suffixes());
    assert!(matches!(r, ReportReply::Refused(AuthFailure::Unauthorized)));
    let header = Some("Bearer secret");
    let r = handle_report(&mut history, &report, header, &settings, max, &at(0), &suffixes());
    assert!(matches!(r, ReportReply::Accepted { duplicate: false }));
    let r = handle_report(&mut history, &report, header, &settings, max, &at(0), &suffixes());
    assert!(matches!(r, ReportReply::Accepted { duplicate: true }));
    report.upload_delta = -1;
    let r = handle_report(&mut history, &report, header, &settings, max, &at(0), &suffixes());
    assert!(matches!(r, ReportReply::Invalid(m) if m == "流量增量不能为负数"));
    report.upload_delta = i64::MAX;
    report.report_id = "other".to_string();
    let r = handle_report(&mut history, &report, header, &settings, i64::MAX, &at(0), &suffixes());
    assert!(matches!(r, ReportReply::TooLarge));
    assert_eq!(history.devices.get("MacBookPro").unwrap().total_upload, 512);
}

#[test]
fn times_of_reports_follow_the_local_clock() {
    let t = ReportTime::at(&LocalTime { timestamp: 1_750_000_000, utc_offset: 28_800 }).unwrap();
    assert_eq!((t.date.as_str(), t.week), ("2025-06-15", 24));
    let t = ReportTime::at(&LocalTime { timestamp: 1_750_000_000, utc_offset: 36_000 }).unwrap();
    assert_eq!((t.date.as_str(), t.week), ("2025-06-16", 25));
    assert!(ReportTime::at(&LocalTime { timestamp: 0, utc_offset: 90_000 }).is_none());
    assert!(ReportTime::at(&LocalTime { timestamp: i64::MAX, utc_offset: 0 }).is_none());
}
