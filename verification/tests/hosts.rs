use bwg_usage::hosts::{
    configured_control_domain_suffixes, extract_host, is_control_domain, lowercased,
    name_of_target, normalize_domain, normalize_node_key, normalize_traffic_target,
    parse_domain_list, RoutingSettings,
};
use bwg_usage::ip::is_ip_address;

fn texts(list: &[&str]) -> Vec<String> {
    list.iter().map(|s| s.to_string()).collect()
}

fn chars(s: &str) -> Vec<char> {
    s.chars().collect()
}

#[test]
fn test_normalize_node_key_strips_port() {
    assert_eq!(normalize_node_key("1.2.3.4:443"), "1.2.3.4");
    assert_eq!(normalize_node_key("1.2.3.4"), "1.2.3.4");
    assert_eq!(normalize_node_key("[2001:db8::1]:443"), "2001:db8::1");
}

#[test]
fn node_keys_without_closing_bracket_end_at_the_colon() {
    assert_eq!(normalize_node_key(" [2001:db8::1 "), "[2001");
    assert_eq!(normalize_node_key("2001:db8::1"), "2001");
    assert_eq!(normalize_node_key("[]x"), "");
    assert_eq!(normalize_node_key(""), "");
}

#[test]
fn domains_have_one_form() {
    assert_eq!(normalize_domain("  HTTP://x"), "http://x");
    assert_eq!(normalize_domain(" http://https://..A.Example// "), "a.example");
    assert_eq!(normalize_domain("https://http://a"), "http://a");
    assert_eq!(normalize_domain("//..x/"), "x");
    assert_eq!(normalize_domain("ÄB"), "Äb");
    assert_eq!(
        parse_domain_list("a.example,, https://B.example/ ,/"),
        texts(&["a.example", "b.example"])
    );
}

#[test]
fn hosts_come_out_of_urls() {
    assert_eq!(extract_host("https://u:p@nas.Example:8443/x@y").unwrap(), "nas.example");
    assert_eq!(extract_host("http://[2001:db8::1]:80/").unwrap(), "2001:db8::1");
    assert_eq!(extract_host("[[x").unwrap(), "x");
    assert_eq!(extract_host("nas.example"), Some("nas.example".to_string()));
    assert_eq!(extract_host("https://:80/"), None);
    assert_eq!(extract_host(""), None);
}

#[test]
fn control_domains_hold_their_subdomains() {
    let list = texts(&["", "https://Control.example/"]);
    assert!(is_control_domain("a.control.EXAMPLE", &list));
    assert!(is_control_domain(".control.example", &list));
    assert!(!is_control_domain("xcontrol.example", &list));
    assert!(!is_control_domain("", &list));
    assert!(!is_control_domain("a", &Vec::new()));
}

#[test]
fn control_domains_are_sorted_and_stand_once() {
    let settings = RoutingSettings {
        direct_suffixes: None,
        direct_suffixes_file: None,
        control_domain_suffixes: Some("z.example,a.example,Z.example,é.example".to_string()),
        nas_server_url: Some("https://m.example:8443/".to_string()),
    };
    assert_eq!(
        configured_control_domain_suffixes(&settings),
        texts(&["a.example", "m.example", "z.example", "é.example"])
    );
}

#[test]
fn targets_have_one_form() {
    assert_eq!(normalize_traffic_target(" tcp:udp:WWW.Example.com.:443 "), "example.com.");
    assert_eq!(normalize_traffic_target("tcp:www.example.com:443"), "example.com");
    assert_eq!(normalize_traffic_target("example.com..."), "example.com");
    assert_eq!(normalize_traffic_target("[2001:DB8::1]:443"), "2001:db8::1");
    assert_eq!(normalize_traffic_target("[x"), "[x");
    assert_eq!(normalize_traffic_target("example.com:"), "example.com:");
    assert_eq!(normalize_traffic_target("example.com:44a"), "example.com:44a");
    assert_eq!(normalize_traffic_target("2001:db8::1"), "2001:db8:");
    assert_eq!(normalize_traffic_target("BÜCHER.example"), "bücher.example");
    assert_eq!(normalize_traffic_target("未知IP"), "未知ip");
    assert_eq!(normalize_traffic_target(""), "");
    assert_eq!(name_of_target(&chars("www.a")), "a");
}

#[test]
fn lower_case_is_that_of_the_standard_library() {
    for s in ["ABC", "ÄÖÜß", "ΑΣ", "İ", "Ǆ", "", "未知IP"] {
        let low: String = lowercased(&chars(s)).into_iter().collect();
        assert_eq!(low, s.to_lowercase());
    }
}

#[test]
fn addresses_are_told_from_other_texts() {
    let addresses = [
        "1.2.3.4", "255.255.255.255", "0.0.0.0", "::", "::1", "1::", "1:2:3:4:5:6:7:8",
        "1:2:3:4:5:6:7::", "::2:3:4:5:6:7:8", "::1.2.3.4", "1:2:3:4:5:6:1.2.3.4", "1::1.2.3.4",
        "FFFF::abcd", "::1:2:3:4:5:6:7", "1:2:3:4:5::1.2.3.4", "1:2:3:4::5:1.2.3.4",
        "2001:db8::1", "fd00::1",
    ];
    for c in addresses {
        assert!(is_ip_address(&chars(c)), "{}", c);
    }
    let others = [
        "256.1.1.1", "01.2.3.4", "1.2.3", "1.2.3.4.5", "1.2.3.4:80", "", ".", "1..2.3",
        "+1.2.3.4", "1.2.3.0004", "fe80::1%eth0", "1:2:3:4:5:6:7", "1:2:3:4::5:6:7:8",
        "1::2::3", ":::", "1:::2", ":1:2:3:4:5:6:7", "12345::", "g::", "1:2:3:4:5:6:7:1.2.3.4",
        "1.2.3.4::", "::1.2.3.4:5", "::ffff:256.1.1.1", "1:2:3:4:5:6:7:8:9", "[::1]", " ::1",
        "٣.1.1.1", "2001:db8:", "1:2:3:4:5:6::7:8", "::1.2.3", "00.0.0.0", "1:2:3:4:5:1.2.3.4",
    ];
    for c in others {
        assert!(!is_ip_address(&chars(c)), "{}", c);
    }
}

#[test]
fn ports_do_not_separate_targets_of_a_host() {
    for host in ["a.com", "WWW.Example.org", "10.0.0.1", "ΟΔΟΣ.gr", "ΟΔΟΣ", "www.", "", "[x", "[X]", "日本"] {
        let alone = normalize_traffic_target(host.trim_end_matches('.'));
        for port in ["0", "80", "65535", "99999999999999999999"] {
            let target = format!("{}:{}", host.trim_end_matches('.'), port);
            assert_eq!(normalize_traffic_target(&target), alone, "{}", target);
        }
    }
}

#[test]
fn the_port_has_no_part_in_lowering_a_target() {
    for target in [
        "ΟΔΟΣ:80", "ΟΔΟΣ:Σ", "WWW.ΑΣ:443", "İ.com:1", "KELVIN\u{212a}:22", "www.:80", ":80", "a:",
        "a:80:90", "[A]:1", "[A]b:1", "[A:1", "www.[A]:1", "A:x1", "www:1", "ß:7",
    ] {
        let low = target.to_lowercase();
        let expected = match low.strip_prefix('[').and_then(|s| s.split_once(']')) {
            Some((inner, _)) => inner.to_string(),
            None => {
                let rest = low.strip_prefix("www.").unwrap_or(&low);
                match rest.rsplit_once(':') {
                    Some((host, port))
                        if !port.is_empty() && port.chars().all(|c| c.is_ascii_digit()) =>
                    {
                        host.to_string()
                    }
                    _ => rest.to_string(),
                }
            }
        };
        assert_eq!(normalize_traffic_target(target), expected, "{}", target);
    }
}
