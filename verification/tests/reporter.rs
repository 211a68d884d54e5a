use bwg_usage::apply::{try_apply_report, ReportTime};
use bwg_usage::clock::LocalTime;
use bwg_usage::history::NasTrafficHistory;
use bwg_usage::pending::{PendingTrafficReport, ReportStamp};
use bwg_usage::reporter::{
    client_token, endpoint, interval_setting, ClientReporter, Due, ReportSchedule,
};
use bwg_usage::tracker::{ClashAPIConnections, ClashConnection, ClashConnectionMetadata};

const SECOND: u128 = 1_000_000_000;

fn stamp(millis: u128) -> ReportStamp {
    ReportStamp { millis, process: 7 }
}

fn look(host: &str, download: i64, upload: i64) -> ClashAPIConnections {
    ClashAPIConnections {
        download_total: download,
        upload_total: upload,
        connections: Some(vec![ClashConnection {
            id: "c".to_string(),
            metadata: ClashConnectionMetadata { host: host.to_string(), destination_ip: None },
            upload,
            download,
            chains: vec!["proxy".to_string()],
        }]),
    }
}

fn device() -> ClientReporter {
    ClientReporter::new("Mac".to_string(), PendingTrafficReport::default(), 600, 30, 0)
}

#[test]
fn settings_of_the_loop_have_defaults() {
    assert_eq!(interval_setting(&None, 600), 600);
    assert_eq!(interval_setting(&Some("5".to_string()), 600), 5);
    assert_eq!(interval_setting(&Some("-5".to_string()), 600), 600);
    assert_eq!(endpoint("https://n//", "/api/report"), "https://n/api/report");
    assert_eq!(client_token(Some(" t ".to_string())).as_deref(), Some(" t "));
    assert_eq!(client_token(Some("  ".to_string())), None);
    assert_eq!(client_token(None), None);
}

#[test]
fn heartbeats_and_reports_come_due() {
    let s = ReportSchedule::new(600, 30, 5 * SECOND);
    assert_eq!(s.due(35 * SECOND - 1, false), Due::Nothing);
    assert_eq!(s.due(35 * SECOND, false), Due::Heartbeat);
    assert_eq!(s.due(605 * SECOND, false), Due::Delta);
    assert_eq!(s.due(605 * SECOND, true), Due::Heartbeat);
}

#[test]
fn failures_wait_longer_and_longer() {
    let mut s = ReportSchedule::new(600, 30, 0);
    let mut delays = Vec::new();
    for _ in 0..6 {
        delays.push(s.retry_delay);
        s.failed(Due::Delta, 1000 * SECOND);
        assert_eq!(s.next_report_due, (1000 + *delays.last().unwrap() as u128) * SECOND);
    }
    assert_eq!(delays, vec![30, 60, 120, 240, 300, 300]);
    s.failed(Due::Heartbeat, 2000 * SECOND);
    assert_eq!(s.next_heartbeat_due, 2060 * SECOND);
    assert_eq!(s.retry_delay, 300);
    s.succeeded(Due::Heartbeat, 2000 * SECOND);
    assert_eq!(s.next_heartbeat_due, 2030 * SECOND);
    assert_eq!(s.retry_delay, 300);
    s.succeeded(Due::Delta, 2000 * SECOND);
    assert_eq!(s.next_report_due, 2600 * SECOND);
    assert_eq!(s.retry_delay, 30);
}

#[test]
fn what_failed_is_sent_again_under_the_same_id() {
    let none: Vec<String> = Vec::new();
    let mut d = device();
    assert_eq!(d.try_observe(&look("a.com", 100, 10), &none, &none, stamp(1)), Some(false));
    assert_eq!(d.due(40 * SECOND), Due::Heartbeat);
    let beat = d.compose(Due::Heartbeat, "1.2.3.4".to_string(), stamp(2));
    assert_eq!(beat.report_kind, "heartbeat");
    assert_eq!((beat.report_id.as_str(), beat.download_delta), ("", 0));
    assert!(!d.settle(Due::Heartbeat, true, 40 * SECOND));

    assert_eq!(d.try_observe(&look("a.com", 150, 20), &none, &none, stamp(3)), Some(true));
    assert_eq!(d.due(700 * SECOND), Due::Delta);
    let first = d.compose(Due::Delta, "1.2.3.4".to_string(), stamp(4));
    assert_eq!(first.report_kind, "delta");
    assert_eq!(first.report_id, "Mac-3-7");
    assert_eq!((first.download_delta, first.upload_delta), (50, 10));
    assert_eq!(first.domain_deltas.count("a.com"), 60);
    assert!(!d.settle(Due::Delta, false, 700 * SECOND));

    assert_eq!(d.due(710 * SECOND), Due::Heartbeat);
    let again = d.compose(Due::Delta, "1.2.3.4".to_string(), stamp(5));
    assert_eq!(again.report_id, first.report_id);
    assert_eq!(again.download_delta, 50);

    let time = ReportTime::at(&LocalTime { timestamp: 1_781_782_200, utc_offset: 0 }).unwrap();
    let mut history = NasTrafficHistory::default();
    assert_eq!(try_apply_report(&mut history, &first, &time, &none), Some(false));
    assert_eq!(try_apply_report(&mut history, &again, &time, &none), Some(true));
    assert_eq!(history.devices.get("Mac").unwrap().total_download, 50);

    assert!(d.settle(Due::Delta, true, 730 * SECOND));
    assert!(d.pending.is_empty());
    assert_eq!(d.pending.report_id, "");
    assert_eq!(d.schedule.next_report_due, 1330 * SECOND);
    assert_eq!(d.try_observe(&look("a.com", 151, 20), &none, &none, stamp(6)), Some(true));
    assert_eq!(d.pending.report_id, "Mac-6-7");
}

#[test]
fn connections_off_the_proxy_never_count() {
    let none: Vec<String> = Vec::new();
    let control = vec!["nas.example".to_string()];
    let mut d = device();
    for round in 1..4i64 {
        let data = look("api.nas.example", 100 * round, 10 * round);
        assert_eq!(d.try_observe(&data, &control, &none, stamp(1)), Some(false));
        let mut direct = look("a.com", 100 * round, 10 * round);
        direct.connections.as_mut().unwrap()[0].chains = vec!["direct".to_string(), "proxy".to_string()];
        assert_eq!(d.try_observe(&direct, &control, &none, stamp(1)), Some(false));
    }
    assert!(d.pending.is_empty());
    assert!(d.tracker.active_conns.is_empty());
}

#[test]
fn looks_without_connections_change_nothing() {
    let none: Vec<String> = Vec::new();
    let mut d = device();
    assert_eq!(d.try_observe(&look("a.com", 1, 1), &none, &none, stamp(1)), Some(false));
    let empty = ClashAPIConnections { download_total: 0, upload_total: 0, connections: None };
    assert!(d.can_observe(&empty, &none, &none));
    assert_eq!(d.try_observe(&empty, &none, &none, stamp(1)), Some(false));
    assert!(d.tracker.active_conns.contains_key("c"));

    d.pending.download_delta = i64::MAX;
    assert!(!d.can_observe(&look("a.com", 2, 1), &none, &none));
    assert_eq!(d.try_observe(&look("a.com", 2, 1), &none, &none, stamp(1)), None);
    assert_eq!(d.pending.download_delta, i64::MAX);
}
