use bwg_usage::apply::ReportTime;
use bwg_usage::auth::{env_flag, validate_bearer_auth, AuthFailure, AuthSettings};
use bwg_usage::classify::ClassifiedDomainDelta;
use bwg_usage::clock::LocalTime;
use bwg_usage::dashboard::{
    api_traffic, can_show_devices, can_show_nodes, device_list, device_online_threshold_secs,
    node_list, top_classified, top_domains,
};
use bwg_usage::history::{DeviceHistory, NasTrafficHistory, NodeHistory};
use bwg_usage::quota::BwgServerLiveStatus;
use bwg_usage::server::port_setting;
use bwg_usage::text_map::TextMap;

fn classified(bytes: i64) -> ClassifiedDomainDelta {
    ClassifiedDomainDelta {
        bytes,
        should_proxy: false,
        category: "should-direct".to_string(),
        reason: "r".to_string(),
    }
}

fn device(node: &str, last_seen: i64) -> DeviceHistory {
    let mut d = DeviceHistory::default();
    d.current_node = node.to_string();
    d.last_seen = last_seen;
    d
}

/// Some days after 18 June 2026, a Thursday, five minutes after midnight.
fn on_day(days: i64) -> ReportTime {
    let moment = LocalTime { timestamp: 1_781_740_800 + 300 + 86_400 * days, utc_offset: 0 };
    ReportTime::at(&moment).unwrap()
}

fn some(s: &str) -> Option<String> {
    Some(s.to_string())
}

fn settings(
    report: Option<&str>,
    report_required: Option<&str>,
    dashboard: Option<&str>,
    read_required: Option<&str>,
) -> AuthSettings {
    AuthSettings {
        report_token: report.map(|s| s.to_string()),
        report_auth_required: report_required.map(|s| s.to_string()),
        dashboard_token: dashboard.map(|s| s.to_string()),
        read_auth_required: read_required.map(|s| s.to_string()),
    }
}

fn status(name: &str, ip: &str) -> BwgServerLiveStatus {
    BwgServerLiveStatus {
        name: name.to_string(),
        ip: ip.to_string(),
        official_used_bytes: 1,
        official_limit_bytes: 2,
        next_reset_time: 3,
    }
}

#[test]
fn domains_with_most_bytes_come_first() {
    let mut m: TextMap<i64> = TextMap::new();
    for i in 0..12i64 {
        m.insert(format!("d{}", i), (i * 5) % 12);
    }
    let list = top_domains(&m, 10);
    assert_eq!(list.len(), 10);
    let bytes: Vec<i64> = list.iter().map(|i| i.bytes).collect();
    assert_eq!(bytes, vec![11, 10, 9, 8, 7, 6, 5, 4, 3, 2]);
    assert_eq!(list[0].domain, "d7");
    assert!(list[0].category.is_none());

    let mut c: TextMap<ClassifiedDomainDelta> = TextMap::new();
    c.insert("a".to_string(), classified(1));
    c.insert("b".to_string(), classified(2));
    c.insert("c".to_string(), classified(1));
    let list = top_classified(&c, 2);
    assert_eq!(list.iter().map(|i| i.domain.as_str()).collect::<Vec<_>>(), vec!["b", "a"]);
    assert_eq!(list[0].should_proxy, Some(false));
    assert_eq!(list[0].category.as_deref(), Some("should-direct"));
    assert_eq!(list[0].reason.as_deref(), Some("r"));
}

#[test]
fn days_and_weeks_are_shown_side_by_side() {
    let mut h = NasTrafficHistory::default();
    h.daily_api_date = "2026-06-18".to_string();
    h.weekly_api_week = 25;
    for i in 0..11i64 {
        h.daily_api_traffic.insert(format!("d{}", i), i);
    }
    h.weekly_api_traffic.insert("w".to_string(), 5);
    h.daily_abnormal_traffic.insert("x".to_string(), classified(3));
    let r = api_traffic(&h, &on_day(0));
    assert_eq!(r.daily.len(), 10);
    assert_eq!(r.daily[0].domain, "d10");
    assert_eq!(r.weekly[0].bytes, 5);
    assert_eq!(r.abnormal_daily[0].domain, "x");
    assert!(r.abnormal_weekly.is_empty());
}

#[test]
fn another_day_or_week_is_not_shown() {
    let mut h = NasTrafficHistory::default();
    h.daily_api_date = "2026-06-18".to_string();
    h.weekly_api_week = 25;
    h.daily_api_traffic.insert("d".to_string(), 1);
    h.weekly_api_traffic.insert("w".to_string(), 2);
    h.daily_abnormal_traffic.insert("x".to_string(), classified(3));
    h.weekly_abnormal_traffic.insert("y".to_string(), classified(4));
    let lens = |days: i64| {
        let r = api_traffic(&h, &on_day(days));
        (r.daily.len(), r.abnormal_daily.len(), r.weekly.len(), r.abnormal_weekly.len())
    };
    assert_eq!(lens(0), (1, 1, 1, 1));
    assert_eq!(lens(1), (0, 0, 1, 1));
    // Monday to Sunday.
    assert_eq!(lens(-3), (0, 0, 1, 1));
    assert_eq!(lens(3), (0, 0, 1, 1));
    assert_eq!(lens(-4), (0, 0, 0, 0));
    assert_eq!(lens(4), (0, 0, 0, 0));
    // The same week of the year before and of the year after.
    assert_eq!(on_day(-364).week, 25);
    assert_eq!(lens(-364), (0, 0, 0, 0));
    assert_eq!(on_day(371).week, 25);
    assert_eq!(lens(371), (0, 0, 0, 0));
}

#[test]
fn devices_are_online_for_a_while() {
    assert_eq!(device_online_threshold_secs(&None), 90);
    assert_eq!(device_online_threshold_secs(&some("30")), 30);
    assert_eq!(device_online_threshold_secs(&some("x")), 90);

    let mut h = NasTrafficHistory::default();
    let mut old = device("1.2.3.4", 1000);
    for i in 0..7i64 {
        old.abnormal_domain_traffic.insert(format!("a{}", i), classified(i));
    }
    old.total_download = 9;
    h.devices.insert("b".to_string(), old);
    h.devices.insert("a".to_string(), device("x", 1001));
    assert!(can_show_devices(&h, 1090));
    let list = device_list(&h, 1090, 90);
    assert_eq!(list.iter().map(|d| d.name.as_str()).collect::<Vec<_>>(), vec!["a", "b"]);
    assert!(list[0].online);
    assert!(!list[1].online);
    assert_eq!(list[1].total_download, 9);
    assert_eq!(list[1].top_abnormal_domains.len(), 5);
    assert_eq!(list[1].top_abnormal_domains[0].domain, "a6");

    h.devices.insert("c".to_string(), device("x", i64::MIN));
    assert!(!can_show_devices(&h, 0));
}

#[test]
fn nodes_show_their_bytes_and_devices() {
    let mut h = NasTrafficHistory::default();
    let mut n = NodeHistory::default();
    n.total_download = 10;
    n.total_upload = 5;
    n.abnormal_domain_traffic.insert("a".to_string(), classified(2));
    n.abnormal_domain_traffic.insert("b".to_string(), classified(3));
    h.nodes.insert("1.2.3.4".to_string(), n);
    h.devices.insert("d1".to_string(), device("1.2.3.4:443", 1000));
    h.devices.insert("d2".to_string(), device("5.6.7.8", 1000));
    h.devices.insert("d3".to_string(), device("1.2.3.4", 900));

    let servers = vec![status("z", "1.2.3.4"), status("y", "9.9.9.9")];
    assert!(can_show_nodes(&servers, &h, 1050));
    let list = node_list(&servers, &h, 1050, 51);
    assert_eq!(list[0].name, "y");
    assert_eq!((list[0].client_accumulated, list[0].client_abnormal), (0, 0));
    assert!(list[0].active_devices.is_empty());
    assert_eq!(list[1].name, "z");
    assert_eq!((list[1].client_accumulated, list[1].client_abnormal), (15, 5));
    assert_eq!((list[1].official_used, list[1].official_limit, list[1].next_reset), (1, 2, 3));
    assert_eq!(list[1].active_devices, vec!["d1"]);
    assert!(node_list(&servers, &h, 1050, 50)[1].active_devices.is_empty());
    assert!(node_list(&servers, &h, 1045, 30)[1].active_devices.is_empty());
    assert_eq!(node_list(&servers, &h, 1060, 161)[1].active_devices, vec!["d1", "d3"]);

    let alone = node_list(&Vec::new(), &h, 1050, 90);
    assert_eq!(alone.len(), 1);
    assert_eq!(alone[0].name, "未匹配服务器 (1.2.3.4)");
    assert_eq!(alone[0].client_accumulated, 15);
    assert!(alone[0].active_devices.is_empty());

    let mut full = NodeHistory::default();
    full.total_download = i64::MAX;
    full.total_upload = 1;
    h.nodes.insert("0".to_string(), full);
    assert!(can_show_nodes(&servers, &h, 1050));
    assert!(!can_show_nodes(&Vec::new(), &h, 1050));
}

#[test]
fn tokens_decide_who_may_write() {
    let s = settings(Some(" t "), None, None, None);
    assert_eq!(s.report_token().as_deref(), Some("t"));
    assert_eq!(s.validate_report_auth(Some("Bearer t")), Ok(()));
    assert_eq!(s.validate_report_auth(Some(" t ")), Ok(()));
    assert_eq!(s.validate_report_auth(Some("Bearer x")), Err(AuthFailure::Unauthorized));
    assert_eq!(s.validate_report_auth(None), Err(AuthFailure::Unauthorized));

    let none = settings(Some("  "), None, None, None);
    assert_eq!(none.report_token(), None);
    assert_eq!(none.validate_report_auth(Some("x")), Err(AuthFailure::ServiceUnavailable));
    let off = settings(None, Some("false"), None, None);
    assert!(!off.report_auth_required());
    assert_eq!(off.validate_report_auth(None), Ok(()));
    assert!(settings(None, Some("no"), None, None).report_auth_required());
    assert!(!settings(None, Some("0"), None, None).report_auth_required());
}

#[test]
fn tokens_decide_who_may_read() {
    let open = settings(None, None, None, None);
    assert!(!open.read_auth_required());
    assert_eq!(open.validate_read_auth(None), Ok(()));

    let by_report = settings(Some("t"), None, None, None);
    assert_eq!(by_report.dashboard_token().as_deref(), Some("t"));
    assert!(by_report.read_auth_required());
    assert_eq!(by_report.validate_read_auth(None), Err(AuthFailure::Unauthorized));
    assert_eq!(by_report.validate_read_auth(Some("Bearer t")), Ok(()));

    let own = settings(Some("t"), None, Some("d"), Some("0"));
    assert_eq!(own.dashboard_token().as_deref(), Some("d"));
    assert!(!own.read_auth_required());
    assert_eq!(own.validate_read_auth(Some("Bearer t")), Err(AuthFailure::Unauthorized));
    let forced = settings(None, None, None, Some("1"));
    assert_eq!(forced.validate_read_auth(None), Err(AuthFailure::ServiceUnavailable));

    assert_eq!(validate_bearer_auth(Some("Bearer  a b "), some("a b"), false), Ok(()));
}

#[test]
fn flags_and_ports_come_from_settings() {
    for on in ["1", "true", " YES ", "y", "On"] {
        assert!(env_flag(&some(on)), "{}", on);
    }
    for off in ["", "0", "false", "no", "onn"] {
        assert!(!env_flag(&some(off)), "{}", off);
    }
    assert!(!env_flag(&None));
    assert_eq!(port_setting(&None, 18082), 18082);
    assert_eq!(port_setting(&some("80"), 18082), 80);
    assert_eq!(port_setting(&some("65536"), 18082), 18082);
    assert_eq!(port_setting(&some(" 80"), 18082), 18082);
}
