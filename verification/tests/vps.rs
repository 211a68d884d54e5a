use bwg_usage::access_log::{
    can_merge, choose_counts, default_count, default_should_proxy, fetch_abnormal_traffic,
    parse_log_line, read_answer, record_from_groups, record_from_words, vps_counts, LogRecord,
    VpsData, VpsTrafficData,
};
use bwg_usage::analyzer::{read_sockets, request_of_line, Sighting, VpsAnalyzer};
use bwg_usage::text_map::TextMap;
use bwg_usage::vps::{
    checked_socket_bytes, checked_ss_total_bytes, parse_ss_total_bytes, remote_command,
    ssh_arguments, ssh_targets, validate_ssh_status, SshSettings, SshTarget,
};

fn direct() -> Vec<String> {
    vec!["cn".to_string(), "baidu.com".to_string()]
}

fn counts(list: &[(&str, i64)]) -> TextMap<i64> {
    let mut m: TextMap<i64> = TextMap::new();
    for (k, v) in list {
        m.insert(k.to_string(), *v);
    }
    m
}

fn data(traffic: &[(&str, i64)], requests: &[(&str, i64)]) -> VpsTrafficData {
    VpsTrafficData { traffic: counts(traffic), requests: counts(requests) }
}

fn record(time: &str, target: &str) -> LogRecord {
    LogRecord {
        time: time.to_string(),
        source: "10.0.0.1:5000".to_string(),
        action: "accepted".to_string(),
        target: target.to_string(),
        strategy: "direct".to_string(),
        count: 1,
        should_proxy: false,
        category: "should-direct".to_string(),
        reason: String::new(),
    }
}

fn no_list() -> SshSettings {
    SshSettings {
        hosts: String::new(),
        ports: String::new(),
        users: String::new(),
        host: String::new(),
        port: String::new(),
        user: String::new(),
    }
}

fn shown(list: &[SshTarget]) -> Vec<String> {
    list.iter().map(|t| format!("{}@{}:{}", t.user, t.host, t.port)).collect()
}

#[test]
fn test_parse_ss_total_bytes_ignores_bytes_acked() {
    let stats = " cubic bytes_sent:1000 bytes_acked:50000 bytes_received:250";
    assert_eq!(parse_ss_total_bytes(stats), 1250);

    let ack_only = " cubic bytes_sent:1000 bytes_acked:50000";
    assert_eq!(parse_ss_total_bytes(ack_only), 1000);
}

#[test]
fn test_validate_ssh_status_treats_non_zero_as_error() {
    assert!(validate_ssh_status(true, "", "root", "1.2.3.4").is_ok());
    let err = validate_ssh_status(false, "Permission denied", "root", "1.2.3.4")
        .expect_err("non-zero ssh status should be an error");
    assert!(err.contains("Permission denied"));
}

#[test]
fn bytes_of_sockets_that_do_not_fit_are_refused() {
    let max = i64::MAX.to_string();
    assert_eq!(checked_ss_total_bytes("bytes_sent:3 bytes_received:4"), Some(7));
    assert_eq!(checked_ss_total_bytes(""), Some(0));
    assert_eq!(checked_ss_total_bytes(&format!("bytes_sent:{} bytes_received:1", max)), None);
    assert_eq!(checked_ss_total_bytes(&format!("bytes_sent:{}0 bytes_received:1", max)), Some(1));
    assert_eq!(checked_socket_bytes(&Some("12".to_string()), &None), Some(12));
    assert_eq!(checked_socket_bytes(&Some(max), &Some("1".to_string())), None);
}

#[test]
fn failures_of_ssh_are_told_in_short() {
    assert_eq!(
        validate_ssh_status(false, "  \n", "root", "h"),
        Err("SSH 返回失败 (root@h): 无 stderr 输出".to_string())
    );
    let long = "错".repeat(400);
    assert_eq!(
        validate_ssh_status(false, &long, "root", "h"),
        Err(format!("SSH 返回失败 (root@h): {}", "错".repeat(300)))
    );
}

#[test]
fn servers_come_from_the_lists_or_the_single_one() {
    let mut s = no_list();
    assert!(ssh_targets(&s).is_empty());

    s.host = "one".to_string();
    s.port = "2222".to_string();
    s.user = "me".to_string();
    assert_eq!(shown(&ssh_targets(&s)), vec!["me@one:2222"]);

    s.hosts = " a, ,b,c".to_string();
    s.ports = "1,2".to_string();
    s.users = "x".to_string();
    assert_eq!(shown(&ssh_targets(&s)), vec!["x@a:1", "root@b:22", "root@c:22"]);

    s.ports = String::new();
    s.hosts = "a,b".to_string();
    assert_eq!(shown(&ssh_targets(&s)), vec!["x@a:", "root@b:22"]);
}

#[test]
fn commands_for_servers_are_put_together() {
    let rest = " /var/log/v2ray/access.log 2>/dev/null || true; echo '===TRAFFIC_JSON==='; cat /var/log/v2ray/domain_traffic.json 2>/dev/null || echo '{}'";
    assert_eq!(remote_command(&None), format!("tail -n 10000{}", rest));
    assert_eq!(remote_command(&Some("250".to_string())), format!("tail -n 250{}", rest));
    assert_eq!(remote_command(&Some("-1".to_string())), format!("tail -n 10000{}", rest));
    assert_eq!(remote_command(&Some("4294967296".to_string())), format!("tail -n 10000{}", rest));
    assert_eq!(
        remote_command(&Some("4294967295".to_string())),
        format!("tail -n 4294967295{}", rest)
    );

    let t = SshTarget {
        host: "h".to_string(),
        port: "22".to_string(),
        user: "root".to_string(),
    };
    assert_eq!(
        ssh_arguments(&t, &None, "ls".to_string()),
        vec![
            "-o",
            "StrictHostKeyChecking=accept-new",
            "-o",
            "ConnectTimeout=10",
            "-p",
            "22",
            "root@h",
            "ls",
        ]
    );
    let strict = ssh_arguments(&t, &Some("yes".to_string()), String::new());
    assert_eq!(strict[1], "StrictHostKeyChecking=yes");
}

#[test]
fn lines_of_the_log_become_records() {
    let line = "2026/06/18 19:00:01 10.0.0.1:5000 accepted tcp:www.baidu.com:443 [direct]";
    let r = parse_log_line(line, &direct()).unwrap();
    assert_eq!(r.time, "2026/06/18 19:00:01");
    assert_eq!(r.source, "10.0.0.1:5000");
    assert_eq!(r.action, "accepted");
    assert_eq!(r.target, "www.baidu.com:443");
    assert_eq!(r.strategy, "direct");
    assert_eq!(r.count, 1);
    assert!(!r.should_proxy);
    assert_eq!(r.category, "should-direct");

    assert!(parse_log_line(
        "2026/06/18 19:00:01 10.0.0.1:5000 accepted tcp:api.openai.com:443 [direct]",
        &direct()
    )
    .is_none());

    let loose = "2026/06/18 19:00:01 from:[::1] accepted udp:x.baidu.com:53 [in -> out] [a]";
    let r = parse_log_line(loose, &direct()).unwrap();
    assert_eq!(r.source, "from:[::1]");
    assert_eq!(r.target, "x.baidu.com:53");
    assert_eq!(r.strategy, "a");

    assert!(parse_log_line("2026/06/18 19:00:01 a accepted tcp:baidu.com:443", &direct()).is_none());
    assert!(parse_log_line("a b c d e f", &direct()).is_none());
    assert!(parse_log_line("", &direct()).is_none());
}

#[test]
fn records_come_from_groups_and_from_words() {
    let groups: Vec<Option<String>> =
        ["all", "t", "s", "accepted", "tcp", "baidu.com:443", "direct"]
            .iter()
            .map(|x| Some(x.to_string()))
            .collect();
    let r = record_from_groups(&groups, &direct()).unwrap();
    assert_eq!(
        (r.time.as_str(), r.source.as_str(), r.target.as_str(), r.strategy.as_str()),
        ("t", "s", "baidu.com:443", "direct")
    );
    assert!(record_from_groups(&groups, &Vec::new()).is_none());

    let line: Vec<char> = "d t src accepted tcp:baidu.com:1 udp:2.cn:5 [[x]]".chars().collect();
    let r = record_from_words(&line, &direct()).unwrap();
    assert_eq!(r.time, "d t");
    assert_eq!(r.target, "2.cn:5");
    assert_eq!(r.strategy, "x");
    let short: Vec<char> = "d t src accepted tcp:baidu.com:1".chars().collect();
    assert!(record_from_words(&short, &direct()).is_none());

    assert_eq!(default_count(), 1);
    assert!(default_should_proxy());
}

#[test]
fn only_accepted_lines_become_records() {
    let usual = "2026/06/18 19:00:01 1.2.3.4:5555 rejected tcp:www.baidu.com:443 [direct]";
    assert!(parse_log_line(usual, &direct()).is_none());
    assert!(parse_log_line(&usual.replace("rejected", "rejected again"), &direct()).is_none());
    assert!(parse_log_line(&usual.replace("rejected", "accepted"), &direct()).is_some());
    let loose = "2026/06/18 19:00:01 from:[::1] rejected udp:x.baidu.com:53 [in -> out] [a]";
    assert!(parse_log_line(loose, &direct()).is_none());
    assert!(parse_log_line(&loose.replace("rejected", "accepted"), &direct()).is_some());

    let answer = read_answer(&format!("{}\n===TRAFFIC_JSON===\n{{}}\n", usual), &direct());
    assert!(answer.records.is_empty());
    let both = vps_counts(&answer.counts_text, None);
    assert!(both.traffic.is_empty() && both.requests.is_empty());

    let mut groups: Vec<Option<String>> =
        ["all", "t", "s", "rejected", "tcp", "baidu.com:443", "direct"]
            .iter()
            .map(|x| Some(x.to_string()))
            .collect();
    assert!(record_from_groups(&groups, &direct()).is_none());
    groups[3] = None;
    assert!(record_from_groups(&groups, &direct()).is_none());
}

#[test]
fn answers_are_parted_at_the_mark() {
    let line = "2026/06/18 19:00:01 10.0.0.1:5000 accepted tcp:baidu.com:443 [direct]";
    let out = format!("{}\nnoise\n===TRAFFIC_JSON===\n{{\n\"a\": 1}}\n", line);
    let answer = read_answer(&out, &direct());
    assert_eq!(answer.records.len(), 1);
    assert_eq!(answer.counts_text, "{\n\"a\": 1}\n");

    let none = read_answer("noise", &direct());
    assert!(none.records.is_empty());
    assert_eq!(none.counts_text, "");
}

#[test]
fn counts_have_a_new_form_and_an_old_one() {
    let old = vps_counts("{\"a.com\": 5, \"b.com\": -2}", None);
    assert_eq!(old.traffic.len(), 2);
    assert_eq!(old.traffic.count("a.com"), 5);
    assert_eq!(old.traffic.count("b.com"), -2);
    assert!(old.requests.is_empty());

    let both = vps_counts("{}", Some(data(&[("x", 1)], &[("y", 2)])));
    assert_eq!(both.traffic.count("x"), 1);
    assert_eq!(both.requests.count("y"), 2);

    let bad = vps_counts("no json", None);
    assert!(bad.traffic.is_empty() && bad.requests.is_empty());

    let twice = vps_counts("{\"a\": 1, \"a\": 7}", None);
    assert_eq!(twice.traffic.count("a"), 7);

    let blank = choose_counts(" \n", Some(data(&[("x", 1)], &[])), Some(counts(&[("z", 3)])));
    assert!(blank.traffic.is_empty());
    let given = choose_counts("t", None, Some(counts(&[("z", 3)])));
    assert_eq!(given.traffic.count("z"), 3);
}

#[test]
fn servers_are_merged_by_host() {
    let results = vec![
        Some(VpsData {
            records: vec![record("2026/06/18 10:00:00", "www.baidu.com:443")],
            counts: data(&[("a.com", 10), ("b.com", 1)], &[("a.com", 2)]),
        }),
        None,
        Some(VpsData {
            records: vec![
                record("2026/06/18 12:00:00", "baidu.com:80"),
                record("2026/06/18 11:00:00", "tcp:baidu.com"),
                record("2026/06/18 13:00:00", "x.cn:1"),
                record("2026/06/18 14:00:00", ""),
            ],
            counts: data(&[("b.com", 30)], &[("a.com", 3), ("c.com", -1)]),
        }),
    ];
    assert!(can_merge(&results));
    let all = fetch_abnormal_traffic(&results).unwrap();

    assert_eq!(all.records.len(), 2);
    assert_eq!(all.records[0].target, "x.cn:1");
    assert_eq!(all.records[0].count, 1);
    assert_eq!(all.records[1].target, "baidu.com:80");
    assert_eq!(all.records[1].time, "2026/06/18 12:00:00");
    assert_eq!(all.records[1].count, 3);

    let traffics: Vec<(String, i64)> =
        all.domain_traffics.into_iter().map(|t| (t.domain, t.bytes)).collect();
    assert_eq!(traffics, vec![("b.com".to_string(), 31), ("a.com".to_string(), 10)]);
    let tops: Vec<(String, usize)> =
        all.top_domains.into_iter().map(|t| (t.domain, t.count)).collect();
    assert_eq!(tops, vec![("c.com".to_string(), usize::MAX), ("a.com".to_string(), 5)]);
}

#[test]
fn long_lists_are_cut() {
    let records: Vec<LogRecord> =
        (0..30).map(|i| record(&format!("2026/06/18 10:00:{:02}", i), &format!("h{}.cn", i))).collect();
    let mut traffic: TextMap<i64> = TextMap::new();
    let mut requests: TextMap<i64> = TextMap::new();
    for i in 0..15i64 {
        traffic.insert(format!("d{}", i), i);
        requests.insert(format!("d{}", i), 100 - i);
    }
    let results = vec![Some(VpsData { records, counts: VpsTrafficData { traffic, requests } })];
    let all = fetch_abnormal_traffic(&results).unwrap();
    assert_eq!(all.records.len(), 20);
    assert_eq!(all.records[0].target, "h29.cn");
    assert_eq!(all.records[19].target, "h10.cn");
    assert_eq!(all.domain_traffics.len(), 10);
    assert_eq!(all.domain_traffics[0].domain, "d14");
    assert_eq!(all.top_domains.len(), 10);
    assert_eq!(all.top_domains[0].domain, "d0");
}

#[test]
fn rounds_without_an_answer_show_nothing_new() {
    assert!(fetch_abnormal_traffic(&vec![None, None]).is_none());
    let too_much = vec![
        Some(VpsData { records: Vec::new(), counts: data(&[("a", i64::MAX)], &[]) }),
        Some(VpsData { records: Vec::new(), counts: data(&[("a", 1)], &[]) }),
    ];
    assert!(!can_merge(&too_much));
}

fn socket(port: u16, sent: i64) -> String {
    format!(
        "ESTAB 0 0 1.2.3.4:443 5.6.7.8:{} users:((\"xray\",pid=1,fd=3))\n\t cubic bytes_sent:{} bytes_acked:9 bytes_received:10\n",
        port, sent
    )
}

#[test]
fn requests_are_read_from_the_log() {
    let line = "2026/06/18 19:00:01 10.0.0.1:5000 accepted tcp:www.a.com:443 [direct]\n";
    let mut a = VpsAnalyzer::new(data(&[], &[("a.com", 4)]));
    assert!(a.read_log_line(line));
    assert_eq!(a.data.requests.count("a.com"), 5);
    assert_eq!(a.port_to_domain.get(&5000).unwrap(), "a.com");

    assert!(a.read_log_line("2026/06/18 19:00:01 10.0.0.1:5001 rejected tcp:b.com:443 [direct]"));
    assert!(a.read_log_line("2026/06/18 19:00:01 10.0.0.1:70000 accepted tcp:b.com:443 [direct]"));
    assert!(a.read_log_line("accepted tcp:b.com:443"));
    assert_eq!(a.data.requests.len(), 1);

    let mut full = VpsAnalyzer::new(data(&[], &[("a.com", i64::MAX)]));
    assert!(!full.read_log_line(line));
    assert_eq!(full.data.requests.count("a.com"), i64::MAX);
    assert!(full.port_to_domain.is_empty());

    let target = Some("a.com:443".to_string());
    assert_eq!(request_of_line(line, target), Some((5000, "a.com:443".to_string())));
    assert_eq!(request_of_line(line, None), None);
}

#[test]
fn sockets_are_read_in_pairs_of_lines() {
    let list = format!("State Recv-Q\n{}{}", socket(5000, 100), "ESTAB 0 0 a b:7 users:((\"v2ray\"");
    let seen = read_sockets(&list).unwrap();
    assert_eq!(seen.len(), 2);
    assert_eq!((seen[0].port, seen[0].total), (5000, Some(110)));
    assert_eq!((seen[1].port, seen[1].total), (7, None));
    assert!(read_sockets("ESTAB 0 0 a b:7 users:((\"nginx\"\nbytes_sent:1").unwrap().is_empty());
    assert!(read_sockets(&socket(1, i64::MAX)).is_none());
}

#[test]
fn traffic_of_sockets_goes_to_the_host_of_the_port() {
    let mut a = VpsAnalyzer::new(data(&[("a.com", 1)], &[]));
    assert!(a.read_log_line("d t 10.0.0.1:5000 accepted tcp:a.com:443 [direct]"));
    assert!(a.scan_list(&format!("{}{}", socket(5000, 100), socket(6000, 500))));
    assert_eq!(a.data.traffic.count("a.com"), 1);
    assert_eq!(a.active_connections.get(&5000), Some(&110));
    assert_eq!(a.active_connections.get(&6000), None);

    assert!(a.scan_list(&socket(5000, 250)));
    assert_eq!(a.data.traffic.count("a.com"), 151);

    assert!(a.scan_list(&socket(5000, 50)));
    assert_eq!(a.data.traffic.count("a.com"), 151);
    assert_eq!(a.active_connections.get(&5000), Some(&60));

    assert!(a.scan_list(""));
    assert!(a.active_connections.is_empty());
    assert!(a.port_to_domain.is_empty());
    assert_eq!(a.data.traffic.count("a.com"), 151);
}

#[test]
fn scans_that_do_not_fit_are_refused() {
    let mut a = VpsAnalyzer::new(data(&[("a.com", i64::MAX)], &[]));
    a.note_request(5000, "a.com");
    let first = vec![Sighting { port: 5000, total: Some(1) }];
    let second = vec![Sighting { port: 5000, total: Some(2) }];
    assert!(a.can_scan(&first));
    a.scan(&first);
    assert!(!a.can_scan(&second));
    assert!(!a.scan_list(&socket(5000, 5)));
    assert_eq!(a.data.traffic.count("a.com"), i64::MAX);
    assert_eq!(a.active_connections.get(&5000), Some(&1));
}
