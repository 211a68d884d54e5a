use bwg_usage::classify::{
    classify_host, classify_proxy_domain, classify_proxy_domain_with_suffixes,
    configured_direct_suffixes, domain_matches_suffix, merge_classified_delta,
    parse_direct_suffixes, push_normalized_suffix, suffixes_from, ClassifiedDomainDelta,
    TrafficClassification,
};
use bwg_usage::hosts::RoutingSettings;
use bwg_usage::pending::{generate_report_id, PendingTrafficReport, ReportStamp};
use bwg_usage::text_map::TextMap;
use bwg_usage::tracker::{
    ClashConnection, ClashConnectionMetadata, ClientTrafficTracker, ProxyDeltaBatch,
};

fn no_settings() -> RoutingSettings {
    RoutingSettings {
        direct_suffixes: None,
        direct_suffixes_file: None,
        control_domain_suffixes: None,
        nas_server_url: None,
    }
}

fn defaults() -> Vec<String> {
    configured_direct_suffixes(&no_settings())
}

fn conn(id: &str, host: &str, ip: Option<&str>, up: i64, down: i64, chain: &str) -> ClashConnection {
    ClashConnection {
        id: id.to_string(),
        metadata: ClashConnectionMetadata {
            host: host.to_string(),
            destination_ip: ip.map(|s| s.to_string()),
        },
        upload: up,
        download: down,
        chains: vec![chain.to_string()],
    }
}

fn counts(list: &[(&str, i64)]) -> TextMap<i64> {
    let mut m: TextMap<i64> = TextMap::new();
    for (k, v) in list {
        m.insert(k.to_string(), *v);
    }
    m
}

fn stamp(millis: u128) -> ReportStamp {
    ReportStamp { millis, process: 42 }
}

#[test]
fn test_calculate_proxy_deltas_basic() {
    let mut tracker = ClientTrafficTracker::default();
    let conns = vec![
        conn("conn1", "google.com", None, 100, 200, "proxy"),
        conn("conn2", "baidu.com", None, 50, 150, "direct"),
    ];
    assert!(tracker.deltas_fit(&conns, &Vec::new(), &defaults()));
    let batch = tracker.calculate_proxy_deltas(&conns, &no_settings());
    assert_eq!(batch.download_delta, 0);
    assert_eq!(batch.upload_delta, 0);
    assert!(batch.domain_deltas.is_empty());
    assert_eq!(tracker.active_conns.len(), 1);

    let conns2 = vec![
        conn("conn1", "google.com", None, 150, 300, "proxy"),
        conn("conn2", "baidu.com", None, 100, 300, "direct"),
        conn("conn3", "control.example.invalid", None, 1000, 2000, "proxy"),
    ];
    let control_domains = vec!["control.example.invalid".to_string()];
    let batch2 =
        tracker.calculate_proxy_deltas_with_control_domains(&conns2, &control_domains, &defaults());
    assert_eq!(batch2.download_delta, 100);
    assert_eq!(batch2.upload_delta, 50);
    assert_eq!(batch2.domain_deltas.len(), 1);
    assert_eq!(*batch2.domain_deltas.get("google.com").unwrap(), 150);
    assert_eq!(tracker.active_conns.len(), 1);
    assert!(tracker.active_conns.contains_key("conn1"));
    assert!(!tracker.active_conns.contains_key("conn3"));

    let conns3 = vec![
        conn("conn3", "control.example.invalid", None, 1500, 3000, "proxy"),
        conn("conn4", "", Some("93.184.216.34"), 200, 400, "proxy"),
    ];
    let batch3 =
        tracker.calculate_proxy_deltas_with_control_domains(&conns3, &control_domains, &defaults());
    assert_eq!(batch3.download_delta, 0);
    assert_eq!(batch3.upload_delta, 0);
    assert!(batch3.domain_deltas.is_empty());
    assert_eq!(tracker.active_conns.len(), 1);
    assert!(!tracker.active_conns.contains_key("conn1"));
    assert!(!tracker.active_conns.contains_key("conn3"));
    assert!(tracker.active_conns.contains_key("conn4"));
}

#[test]
fn test_classify_proxy_domain_flags_domestic_and_private_targets() {
    let settings = no_settings();
    let baidu = classify_proxy_domain("passport.baidu.com:443", &settings);
    assert!(!baidu.should_proxy);
    assert_eq!(baidu.category, "should-direct");

    let cn = classify_proxy_domain("api.example.cn", &settings);
    assert!(!cn.should_proxy);
    assert_eq!(cn.category, "should-direct");

    let private_ip = classify_proxy_domain("192.168.1.1:8080", &settings);
    assert!(!private_ip.should_proxy);
    assert_eq!(private_ip.category, "private-network");

    let overseas = classify_proxy_domain("api.openai.com", &settings);
    assert!(overseas.should_proxy);
    assert_eq!(overseas.category, "expected-proxy");
}

#[test]
fn test_classify_proxy_domain_accepts_configured_direct_suffixes() {
    let suffixes = vec!["internal.example".to_string()];
    let internal = classify_proxy_domain_with_suffixes("cdn.internal.example:443", &suffixes);
    assert!(!internal.should_proxy);
    assert_eq!(internal.category, "should-direct");

    let overseas = classify_proxy_domain_with_suffixes("api.openai.com", &suffixes);
    assert!(overseas.should_proxy);
}

#[test]
fn test_pending_report_keeps_stable_id_across_merges() {
    let mut pending = PendingTrafficReport::default();
    pending.merge_batch(
        ProxyDeltaBatch {
            download_delta: 10,
            upload_delta: 5,
            domain_deltas: counts(&[("api.openai.com", 15)]),
            abnormal_domain_deltas: TextMap::new(),
        },
        "Mac Book",
        stamp(1000),
    );
    let first_id = pending.report_id.clone();
    assert!(!first_id.is_empty());

    pending.merge_batch(
        ProxyDeltaBatch {
            download_delta: 20,
            upload_delta: 0,
            domain_deltas: counts(&[("api.openai.com", 20)]),
            abnormal_domain_deltas: TextMap::new(),
        },
        "Mac Book",
        stamp(2000),
    );

    assert_eq!(pending.report_id, first_id);
    assert_eq!(pending.total_bytes(), 35);
    assert_eq!(first_id, "Mac-Book-1000-42");
    assert_eq!(pending.domain_deltas.count("api.openai.com"), 35);
}

#[test]
fn test_calculate_proxy_deltas_marks_abnormal_proxy_domains() {
    let mut tracker = ClientTrafficTracker::default();
    let first = vec![conn("cn1", "static.bilibili.com", None, 10, 10, "proxy")];
    let _ = tracker.calculate_proxy_deltas(&first, &no_settings());

    let second = vec![conn("cn1", "static.bilibili.com", None, 20, 70, "proxy")];
    let batch = tracker.calculate_proxy_deltas(&second, &no_settings());
    assert_eq!(batch.download_delta, 60);
    assert_eq!(batch.upload_delta, 10);
    assert_eq!(*batch.domain_deltas.get("static.bilibili.com").unwrap(), 70);

    let abnormal = batch.abnormal_domain_deltas.get("static.bilibili.com").unwrap();
    assert_eq!(abnormal.bytes, 70);
    assert!(!abnormal.should_proxy);
    assert_eq!(abnormal.category, "should-direct");
}

#[test]
fn test_merge_classified_delta_accumulates_reason() {
    let classification = classify_proxy_domain("static.bilibili.com", &no_settings());
    let mut map: TextMap<ClassifiedDomainDelta> = TextMap::new();
    merge_classified_delta(&mut map, "static.bilibili.com", 10, &classification);
    merge_classified_delta(&mut map, "static.bilibili.com", 15, &classification);

    let merged = map.get("static.bilibili.com").unwrap();
    assert_eq!(merged.bytes, 25);
    assert!(!merged.should_proxy);
    assert_eq!(merged.category, "should-direct");
}

#[test]
fn same_connections_again_count_nothing() {
    let mut tracker = ClientTrafficTracker::default();
    let first = vec![conn("a", "x.example", None, 1, 2, "proxy")];
    let second = vec![conn("a", "x.example", None, 11, 22, "proxy")];
    let _ = tracker.calculate_proxy_deltas(&first, &no_settings());
    let moved = tracker.calculate_proxy_deltas(&second, &no_settings());
    assert_eq!((moved.download_delta, moved.upload_delta), (20, 10));
    let still = tracker.calculate_proxy_deltas(&second, &no_settings());
    assert_eq!((still.download_delta, still.upload_delta), (0, 0));
    assert!(still.domain_deltas.is_empty());
    assert!(still.abnormal_domain_deltas.is_empty());
}

#[test]
fn counters_that_fall_count_nothing() {
    let mut tracker = ClientTrafficTracker::default();
    let first = vec![conn("a", "x.example", None, 100, 100, "proxy")];
    let second = vec![conn("a", "x.example", None, 40, 130, "proxy")];
    let _ = tracker.calculate_proxy_deltas(&first, &no_settings());
    let batch = tracker.calculate_proxy_deltas(&second, &no_settings());
    assert_eq!((batch.download_delta, batch.upload_delta), (30, 0));
    assert_eq!(batch.domain_deltas.count("x.example"), 30);
}

#[test]
fn a_connection_without_host_and_address_is_unknown() {
    let mut tracker = ClientTrafficTracker::default();
    let _ = tracker.calculate_proxy_deltas(&vec![conn("a", "", None, 0, 0, "proxy")], &no_settings());
    let batch =
        tracker.calculate_proxy_deltas(&vec![conn("a", "", None, 3, 4, "proxy")], &no_settings());
    assert_eq!(batch.domain_deltas.count("未知IP"), 7);
    assert!(batch.abnormal_domain_deltas.is_empty());
    let none = tracker
        .calculate_proxy_deltas(&vec![conn("a", "", Some(""), 9, 9, "proxy")], &no_settings());
    assert!(none.domain_deltas.is_empty());
    assert!(tracker.active_conns.is_empty());
}

#[test]
fn rounds_that_do_not_fit_are_refused() {
    let mut tracker = ClientTrafficTracker::default();
    let first = vec![conn("a", "x.example", None, 0, -1, "proxy")];
    let second = vec![conn("a", "x.example", None, 0, i64::MAX, "proxy")];
    assert!(tracker.try_proxy_deltas(&first, &no_settings()).is_some());
    assert!(!tracker.deltas_fit(&second, &Vec::new(), &defaults()));
    assert!(tracker.try_proxy_deltas(&second, &no_settings()).is_none());
    assert_eq!(tracker.active_conns.get("a").unwrap().1, -1);
    assert!(tracker.peek(&first, &Vec::new(), &defaults()).is_some());
}

#[test]
fn parts_of_a_batch_add_up() {
    let mut tracker = ClientTrafficTracker::default();
    let hosts = ["a.example", "b.cn", "a.example"];
    let zero: Vec<ClashConnection> = hosts
        .iter()
        .enumerate()
        .map(|(i, h)| conn(&format!("c{}", i), h, None, 0, 0, "proxy"))
        .collect();
    let more: Vec<ClashConnection> = hosts
        .iter()
        .enumerate()
        .map(|(i, h)| conn(&format!("c{}", i), h, None, 10 + i as i64, 20, "proxy"))
        .collect();
    let _ = tracker.calculate_proxy_deltas(&zero, &no_settings());
    let batch = tracker.calculate_proxy_deltas(&more, &no_settings());
    assert_eq!(batch.download_delta + batch.upload_delta, 93);
    assert_eq!(
        batch.domain_deltas.count("a.example") + batch.domain_deltas.count("b.cn"),
        93
    );
    assert_eq!(batch.abnormal_domain_deltas.len(), 1);
    assert_eq!(
        batch.abnormal_domain_deltas.bytes("b.cn"),
        batch.domain_deltas.count("b.cn")
    );
}

#[test]
fn classification_has_these_categories_and_reasons() {
    let suffixes = defaults();
    let of = |t: &str| -> TrafficClassification { classify_proxy_domain_with_suffixes(t, &suffixes) };
    assert_eq!(of("").category, "unknown");
    assert_eq!(of("未知IP").category, "unknown");
    assert_eq!(of("未知IP").reason, "目标为空或仅能识别为未知 IP，保守归入代理流量");
    assert_eq!(of("8.8.8.8").category, "public-ip");
    assert_eq!(of("10.0.0.1:80").category, "private-network");
    assert_eq!(of("172.31.0.1").category, "private-network");
    assert_eq!(of("172.32.0.1").category, "public-ip");
    assert_eq!(of("[::1]:443").category, "private-network");
    assert_eq!(of("[fd00::1]:443").category, "private-network");
    assert_eq!(of("[2001:db8::1]").category, "public-ip");
    assert_eq!(of("10.example").category, "expected-proxy");
    assert_eq!(of("www.qq.com").reason, "命中国内/本地服务后缀规则: qq.com");
    assert_eq!(of("xqq.com").category, "expected-proxy");
    assert_eq!(of("tcp:QQ.COM.:443").category, "expected-proxy");
    assert_eq!(of("tcp:QQ.COM:443").category, "should-direct");
    assert_eq!(classify_host("", &suffixes).category, "unknown");
}

#[test]
fn suffixes_are_read_from_json_and_from_plain_lists() {
    assert_eq!(
        parse_direct_suffixes(r#"[" .A.example ", "b.example", "a.EXAMPLE", ""]"#),
        vec!["a.example".to_string(), "b.example".to_string()]
    );
    assert_eq!(
        parse_direct_suffixes("a.example # first\n.B.example,\tc.example\r\n#only"),
        vec!["a.example".to_string(), "b.example".to_string(), "c.example".to_string()]
    );
    assert_eq!(parse_direct_suffixes("[1]"), vec!["[1]".to_string()]);
    assert_eq!(
        suffixes_from(&Some(vec!["Z.example".to_string()]), "ignored"),
        vec!["z.example".to_string()]
    );
    assert_eq!(suffixes_from(&None, "x"), vec!["x".to_string()]);
}

#[test]
fn configured_suffixes_begin_with_the_defaults() {
    let mut settings = no_settings();
    settings.direct_suffixes = Some("extra.example, cn".to_string());
    settings.direct_suffixes_file = Some(r#"["file.example", "extra.example"]"#.to_string());
    let all = configured_direct_suffixes(&settings);
    let base = defaults();
    assert_eq!(base.len(), 23);
    assert_eq!(base[0], "cn");
    assert_eq!(base[22], "ustc.edu.cn");
    assert_eq!(&all[..23], &base[..]);
    assert_eq!(&all[23..], &["extra.example".to_string(), "file.example".to_string()]);
}

#[test]
fn suffixes_match_at_labels_in_any_script() {
    assert!(domain_matches_suffix("a.b.example", " .B.Example "));
    assert!(domain_matches_suffix("b.example", "b.example"));
    assert!(!domain_matches_suffix("ab.example", "b.example"));
    assert!(domain_matches_suffix("x.bücher.example", "BÜCHER.example"));
    let mut list: Vec<String> = Vec::new();
    push_normalized_suffix(&mut list, "ÄÖ.example");
    push_normalized_suffix(&mut list, "äö.example");
    push_normalized_suffix(&mut list, "bad\u{7}.example");
    push_normalized_suffix(&mut list, " ... ");
    assert_eq!(list, vec!["äö.example".to_string()]);
}

#[test]
fn new_ids_are_made_of_name_time_and_process() {
    assert_eq!(generate_report_id("Mac Book", stamp(7)), "Mac-Book-7-42");
    assert_eq!(generate_report_id("", stamp(0)), "device-0-42");
    assert_eq!(generate_report_id("日本", stamp(0)), "device-0-42");
    assert_eq!(generate_report_id("a\u{3000}b_c.d!", stamp(10)), "a-b_c.d-10-42");
    let long = "x".repeat(40);
    let id = generate_report_id(&long, ReportStamp { millis: u128::MAX, process: u32::MAX });
    assert_eq!(
        id,
        format!("{}-{}-{}", "x".repeat(32), u128::MAX, u32::MAX)
    );
    assert_eq!(id.len(), 83);
}

#[test]
fn pending_reports_know_when_they_are_empty() {
    let mut pending = PendingTrafficReport::default();
    assert!(pending.is_empty());
    assert_eq!(pending.ensure_report_id("d", stamp(1)), "d-1-42");
    assert_eq!(pending.ensure_report_id("d", stamp(2)), "d-1-42");
    assert!(pending.is_empty());
    let batch = ProxyDeltaBatch {
        download_delta: i64::MAX,
        upload_delta: 0,
        domain_deltas: counts(&[("a", i64::MAX)]),
        abnormal_domain_deltas: TextMap::new(),
    };
    assert!(pending.takes_batch(&batch));
    pending.merge_batch(batch, "d", stamp(3));
    assert!(!pending.is_empty());
    assert!(!pending.takes_batch(&ProxyDeltaBatch {
        download_delta: 1,
        upload_delta: 0,
        domain_deltas: TextMap::new(),
        abnormal_domain_deltas: TextMap::new(),
    }));
}
