use bwg_usage::cli::{node_line, parse_command, read_status, reply_line, status_lines, CliCommand};
use bwg_usage::json::{find_field, remove_field, set_field, Json, JsonNumber};
use bwg_usage::nodes::{
    add_local_node, delete_local_node, find_node, host_and_port, node_for_report,
    node_from_arguments, parse_node_arguments, resolved_address, AddNodeRequest, NodeConfig,
    ReportNode, SwitchNodeRequest,
};
use bwg_usage::outbound::{
    can_switch, detect_active_node_tag, ensure_control_domain_bypass, switch_config,
    switch_local_node, switch_message,
};

fn text(s: &str) -> Json {
    Json::Text(s.to_string())
}

fn number(n: u64) -> Json {
    Json::Number(JsonNumber::Unsigned(n))
}

fn object(fields: Vec<(&str, Json)>) -> Json {
    Json::Object(fields.into_iter().map(|(k, v)| (k.to_string(), v)).collect())
}

fn shown(j: &Json) -> String {
    match j {
        Json::Null => "null".to_string(),
        Json::Bool(b) => b.to_string(),
        Json::Number(JsonNumber::Unsigned(n)) => n.to_string(),
        Json::Number(JsonNumber::Signed(n)) => n.to_string(),
        Json::Number(JsonNumber::Other(b)) => f64::from_bits(*b).to_string(),
        Json::Text(s) => format!("{:?}", s),
        Json::List(l) => format!("[{}]", l.iter().map(shown).collect::<Vec<_>>().join(",")),
        Json::Object(f) => format!(
            "{{{}}}",
            f.iter().map(|(k, v)| format!("{:?}:{}", k, shown(v))).collect::<Vec<_>>().join(",")
        ),
    }
}

fn node(name: &str, server: &str, port: u16) -> NodeConfig {
    NodeConfig {
        name: name.to_string(),
        server: server.to_string(),
        server_port: port,
        password: None,
        server_name: None,
        outbound: None,
    }
}

fn strings(list: &[&str]) -> Vec<String> {
    list.iter().map(|s| s.to_string()).collect()
}

fn config(outbounds: Vec<Json>) -> Json {
    object(vec![
        ("outbounds", Json::List(outbounds)),
        ("route", object(vec![("rules", Json::List(Vec::new()))])),
    ])
}

fn proxy(fields: Vec<(&str, Json)>) -> Json {
    let mut all = vec![("tag", text("proxy"))];
    all.extend(fields);
    object(all)
}

#[test]
fn fields_are_read_set_and_removed() {
    let mut f = vec![("a".to_string(), number(1)), ("b".to_string(), text("x"))];
    assert_eq!(find_field(&f, "b"), Some(1));
    assert_eq!(find_field(&f, "c"), None);
    set_field(&mut f, "a", Json::Null);
    set_field(&mut f, "c", Json::Bool(true));
    let j = Json::Object(f);
    assert_eq!(shown(&j), "{\"a\":null,\"b\":\"x\",\"c\":true}");
    assert_eq!(j.text_at("b").unwrap(), "x");
    assert!(j.text_is("b", "x"));
    assert!(!j.text_is("a", "x"));
    assert!(j.text_at("c").is_none());
    assert!(j.get("d").is_none());
    assert!(j.list_at("b").is_none());
    assert_eq!(shown(&j.duplicate()), shown(&j));
    let mut g = vec![("a".to_string(), number(1)), ("b".to_string(), text("x"))];
    remove_field(&mut g, "a");
    assert_eq!(find_field(&g, "a"), None);
    assert_eq!(g.len(), 1);

    assert_eq!(object(vec![("n", number(7))]).number_at("n"), Some(7));
    let positive = Json::Number(JsonNumber::Signed(7));
    assert_eq!(object(vec![("n", positive)]).number_at("n"), Some(7));
    let bits = Json::Number(JsonNumber::Other(7.0f64.to_bits()));
    assert_eq!(object(vec![("n", bits)]).number_at("n"), None);
    let signed = Json::Number(JsonNumber::Signed(-7));
    assert_eq!(object(vec![("n", signed)]).number_at("n"), None);
    assert!(Json::List(Vec::new()).get("n").is_none());
}

#[test]
fn nodes_are_added_changed_and_deleted() {
    let mut nodes = vec![node("a", "1.1.1.1", 1), node("b", "2.2.2.2", 2), node("a", "3.3.3.3", 3)];
    let request = AddNodeRequest {
        name: "a".to_string(),
        server: "9.9.9.9".to_string(),
        server_port: 9,
        password: Some("p".to_string()),
        server_name: Some("s".to_string()),
        outbound: None,
    };
    assert_eq!(add_local_node(&mut nodes, request), "成功添加/修改本地节点 'a'");
    assert_eq!(nodes.len(), 3);
    assert_eq!(find_node(&nodes, "a"), Some(0));
    assert_eq!(nodes[0].server, "9.9.9.9");
    assert_eq!(nodes[0].password.as_deref(), Some("p"));
    assert_eq!(nodes[2].server, "3.3.3.3");

    let request = AddNodeRequest {
        name: "c".to_string(),
        server: "4.4.4.4".to_string(),
        server_port: 4,
        password: None,
        server_name: None,
        outbound: Some(Json::Null),
    };
    add_local_node(&mut nodes, request);
    assert_eq!(find_node(&nodes, "c"), Some(3));

    assert!(delete_local_node(&mut nodes, "a"));
    assert!(!delete_local_node(&mut nodes, "a"));
    assert_eq!(nodes.iter().map(|n| n.name.as_str()).collect::<Vec<_>>(), vec!["b", "c"]);
    let asked = SwitchNodeRequest { name: "b".to_string() };
    assert_eq!(find_node(&nodes, &asked.name), Some(0));
}

#[test]
fn arguments_describe_a_node() {
    let args = strings(&["--name", "HK", "x", "--server", "h", "--port", "443", "--sni", "s", "--password"]);
    let a = parse_node_arguments(&args);
    assert_eq!((a.name.as_str(), a.server.as_str(), a.port), ("HK", "h", 443));
    assert_eq!(a.sni.as_deref(), Some("s"));
    assert!(a.password.is_none());
    let n = node_from_arguments(&args).unwrap();
    assert_eq!(n.server_port, 443);
    assert_eq!(n.server_name.as_deref(), Some("s"));
    assert!(n.outbound.is_none());

    assert!(node_from_arguments(&strings(&["--name", "a", "--server", "h", "--port", "70000"])).is_none());
    assert!(node_from_arguments(&strings(&["--name", "a", "--port", "1"])).is_none());
    assert!(node_from_arguments(&strings(&["--server", "a", "--port", "1"])).is_none());
    let twice = parse_node_arguments(&strings(&["--name", "--name", "b", "--name", "c"]));
    assert_eq!(twice.name, "c");
    let eaten = parse_node_arguments(&strings(&["--name", "--server", "x"]));
    assert_eq!((eaten.name.as_str(), eaten.server.as_str()), ("--server", ""));
}

#[test]
fn reports_name_the_address_of_the_node() {
    let nodes = vec![node("a", "1.1.1.1", 1), node("b", "host.example", 2)];
    assert!(matches!(node_for_report("a", &nodes), ReportNode::Known(s) if s == "1.1.1.1"));
    assert!(matches!(
        node_for_report("b", &nodes),
        ReportNode::Lookup { server, port: 2 } if server == "host.example"
    ));
    assert!(matches!(node_for_report("z", &nodes), ReportNode::Known(s) if s == "z"));
    let odd = vec![node("未知", "1.1.1.1", 1)];
    assert!(matches!(node_for_report("未知", &odd), ReportNode::Known(s) if s == "未知"));
    assert!(matches!(node_for_report("", &nodes), ReportNode::Known(s) if s.is_empty()));
    assert_eq!(host_and_port("h", 0), "h:0");
    assert_eq!(resolved_address("h".to_string(), Some("1.2.3.4".to_string())), "1.2.3.4");
    assert_eq!(resolved_address("h".to_string(), None), "h");
}

#[test]
fn the_node_in_use_is_found() {
    let nodes = vec![node("a", "1.1.1.1", 443), node("b", "2.2.2.2", 443)];
    let none: Option<&Json> = None;
    assert_eq!(detect_active_node_tag(&nodes, none), "未知");
    assert_eq!(detect_active_node_tag(&nodes, Some(&Json::Null)), "未知");
    assert_eq!(detect_active_node_tag(&nodes, Some(&config(Vec::new()))), "未配置");

    let direct = config(vec![proxy(vec![("server", text("2.2.2.2")), ("server_port", number(443))])]);
    assert_eq!(detect_active_node_tag(&nodes, Some(&direct)), "b");
    let signed = config(vec![proxy(vec![
        ("server", text("2.2.2.2")),
        ("server_port", Json::Number(JsonNumber::Signed(443))),
    ])]);
    assert_eq!(detect_active_node_tag(&nodes, Some(&signed)), "b");
    let wide = config(vec![proxy(vec![("server", text("2.2.2.2")), ("server_port", number(65536 + 443))])]);
    assert_eq!(detect_active_node_tag(&nodes, Some(&wide)), "b");
    let other = config(vec![proxy(vec![("server", text("h")), ("server_port", number(1))])]);
    assert_eq!(detect_active_node_tag(&nodes, Some(&other)), "h:1");
    assert_eq!(detect_active_node_tag(&nodes, Some(&config(vec![proxy(Vec::new())]))), "未知");

    let selector = config(vec![
        proxy(vec![("type", text("selector")), ("default", text("x"))]),
        object(vec![("tag", text("x")), ("server", text("1.1.1.1")), ("server_port", number(443))]),
    ]);
    assert_eq!(detect_active_node_tag(&nodes, Some(&selector)), "a");
}

#[test]
fn a_switch_rewrites_the_proxy() {
    let mut n = node("a", "1.1.1.1", 443);
    n.password = Some("pw".to_string());
    n.server_name = Some("sni".to_string());
    let before = config(vec![
        object(vec![("tag", text("direct"))]),
        proxy(vec![("server", text("old")), ("password", text("x"))]),
    ]);
    let after = switch_config(before.duplicate(), &n).unwrap();
    assert_eq!(
        shown(&after.list_at("outbounds").unwrap()[1]),
        "{\"tag\":\"proxy\",\"server\":\"1.1.1.1\",\"password\":\"pw\",\"server_port\":443,\"tls\":{\"server_name\":\"sni\"}}"
    );
    assert_eq!(detect_active_node_tag(&vec![n], Some(&after)), "a");

    let plain = node("b", "2.2.2.2", 80);
    let after = switch_config(after, &plain).unwrap();
    assert_eq!(
        shown(&after.list_at("outbounds").unwrap()[1]),
        "{\"tag\":\"proxy\",\"server\":\"2.2.2.2\",\"server_port\":80,\"tls\":{}}"
    );

    let mut whole = node("c", "3.3.3.3", 1);
    whole.outbound = Some(object(vec![("type", text("vless")), ("server", text("3.3.3.3"))]));
    let after = switch_config(before.duplicate(), &whole).unwrap();
    assert_eq!(
        shown(&after.list_at("outbounds").unwrap()[1]),
        "{\"type\":\"vless\",\"server\":\"3.3.3.3\",\"tag\":\"proxy\"}"
    );
    whole.outbound = Some(text("no object"));
    assert!(!can_switch(&before, &whole));

    let selector = config(vec![proxy(vec![("type", text("selector"))])]);
    assert!(can_switch(&selector, &whole));
    let after = switch_config(selector, &whole).unwrap();
    assert_eq!(
        shown(&after.list_at("outbounds").unwrap()[0]),
        "{\"tag\":\"proxy\",\"type\":\"selector\",\"default\":\"c\"}"
    );
}

#[test]
fn what_stands_against_a_switch_is_told() {
    let nodes = vec![node("a", "1.1.1.1", 443)];
    let none: Vec<String> = Vec::new();
    assert_eq!(
        switch_local_node(&nodes, "z", config(Vec::new()), &none).unwrap_err(),
        "本地节点池中未找到名为 'z' 的节点"
    );
    assert_eq!(
        switch_local_node(&nodes, "a", Json::Null, &none).unwrap_err(),
        "配置文件中未找到 outbounds 字段"
    );
    assert_eq!(
        switch_local_node(&nodes, "a", config(Vec::new()), &none).unwrap_err(),
        "未能在配置文件中定位到 tag 为 'proxy' 的代理出口 outbound 项"
    );
    let done =
        switch_local_node(&nodes, "a", config(vec![proxy(Vec::new())]), &strings(&["nas.example"]))
            .unwrap();
    assert_eq!(
        shown(done.get("route").unwrap()),
        "{\"rules\":[{\"domain_suffix\":[\"nas.example\"],\"outbound\":\"direct\"}]}"
    );
    assert_eq!(switch_message("a"), "成功切换到节点 'a'，配置校验通过，代理服务重启中！");
}

#[test]
fn the_bypass_is_set_once() {
    let domains = strings(&["a.example", "b.example"]);
    let none: Vec<String> = Vec::new();
    let mut j = config(Vec::new());
    assert!(!ensure_control_domain_bypass(&mut j, &none));
    assert!(ensure_control_domain_bypass(&mut j, &domains));
    assert!(!ensure_control_domain_bypass(&mut j, &domains));
    assert!(!ensure_control_domain_bypass(&mut j, &strings(&["b.example"])));
    assert!(ensure_control_domain_bypass(&mut j, &strings(&["c.example"])));
    let rules = j.get("route").unwrap().list_at("rules").unwrap();
    assert_eq!(rules.len(), 2);
    assert_eq!(shown(&rules[0]), "{\"domain_suffix\":[\"c.example\"],\"outbound\":\"direct\"}");

    let mut bare = object(vec![("route", object(Vec::new()))]);
    assert!(!ensure_control_domain_bypass(&mut bare, &domains));
    assert!(!ensure_control_domain_bypass(&mut Json::Null, &domains));
}

#[test]
fn commands_are_read_from_the_arguments() {
    let ask = |list: &[&str]| {
        let mut all = vec!["bwg_usage"];
        all.extend(list);
        parse_command(&strings(&all))
    };
    assert!(matches!(ask(&[]), CliCommand::Help));
    assert!(matches!(ask(&["server"]), CliCommand::Server));
    assert!(matches!(ask(&["daemon", "x"]), CliCommand::Daemon));
    assert!(matches!(ask(&["v2ray-traffic"]), CliCommand::Analyzer));
    assert!(matches!(ask(&["status"]), CliCommand::Status));
    assert!(matches!(ask(&["sing-box", "stop"]), CliCommand::Singbox(Some(a)) if a == "stop"));
    assert!(matches!(ask(&["singbox"]), CliCommand::Singbox(None)));
    assert!(matches!(ask(&["node"]), CliCommand::Help));
    assert!(matches!(ask(&["node", "list"]), CliCommand::NodeList));
    assert!(matches!(ask(&["node", "switch"]), CliCommand::NodeSwitch(None)));
    assert!(matches!(ask(&["node", "switch", "a"]), CliCommand::NodeSwitch(Some(n)) if n == "a"));
    assert!(matches!(ask(&["node", "delete", "a"]), CliCommand::NodeDelete(Some(n)) if n == "a"));
    assert!(matches!(ask(&["node", "delete"]), CliCommand::NodeDelete(None)));
    assert!(matches!(ask(&["node", "add", "--name", "x"]), CliCommand::NodeAdd(v) if v == vec!["--name", "x"]));
    assert!(matches!(ask(&["node", "rename"]), CliCommand::Help));
    assert!(matches!(ask(&["help"]), CliCommand::Help));
}

#[test]
fn answers_are_put_into_lines() {
    let good = object(vec![("success", Json::Bool(true)), ("message", text("m"))]);
    assert_eq!(reply_line(&good), "🟢 成功: m");
    assert_eq!(reply_line(&object(Vec::new())), "🔴 失败: ");

    let s = read_status(&object(vec![
        ("device_name", text("Mac")),
        ("current_node", text("HK")),
        ("singbox_online", Json::Bool(true)),
        ("singbox_total_download", number(1073741824)),
        ("singbox_total_upload", Json::Number(JsonNumber::Signed(-5))),
        ("nas_server_url", text("https://n")),
    ]));
    assert_eq!((s.total_download, s.total_upload), (1073741824, -5));
    assert_eq!(
        status_lines(&s, "1.00", "0.00", "1.00"),
        vec![
            "========================================",
            "💻 本机设备名称: Mac",
            "🌐 当前出站节点: HK",
            "⚙️  sing-box 状态: 🟢 在线",
            "📊 累计下载流量: 1.00 GB",
            "📊 累计上传流量: 0.00 GB",
            "📊 累计消耗总量: 1.00 GB",
            "📦 NAS 大盘状态: 🔴 连接失败 (https://n)",
            "========================================",
        ]
    );

    let mut n = node("香港", "h.example", 443);
    assert_eq!(node_line(&n, "香港"), format!(" * {:<14} | {:<22} | -", "香港", "h.example:443"));
    n.server_name = Some("sni".to_string());
    n.name = "a-name-of-many-letters".to_string();
    assert_eq!(node_line(&n, "x"), format!("   {:<14} | {:<22} | sni", n.name, "h.example:443"));
}
