use bwg_usage::service::{
    brew_program, command_has_shell_metachar, command_name, command_setting,
    default_singbox_command, manage_singbox, parse_configured_command, singbox_command_for_action,
    valid_service_name, validate_service_command, CommandOutcome, ServicePrograms, SingboxAction,
};

fn texts(list: &[&str]) -> Vec<String> {
    list.iter().map(|s| s.to_string()).collect()
}

#[test]
fn test_parse_configured_command_inserts_sudo_non_interactive() {
    let parsed =
        parse_configured_command("sudo brew services restart sing-box", SingboxAction::Restart)
            .unwrap();
    assert_eq!(parsed[0], "sudo");
    assert_eq!(parsed[1], "-n");
    assert_eq!(parsed[2], "brew");
}

#[test]
fn test_parse_configured_command_rejects_shell_metacharacters() {
    let err = parse_configured_command(
        "sudo brew services restart sing-box; rm -rf /",
        SingboxAction::Restart,
    )
    .expect_err("shell metacharacters should be rejected");
    assert!(err.contains("shell"));
}

#[test]
fn test_parse_configured_command_rejects_sudo_to_unrelated_command() {
    let err = parse_configured_command("sudo rm -rf /tmp/example", SingboxAction::Restart)
        .expect_err("sudo must not allow unrelated commands");
    assert!(err.contains("不允许"));
}

#[test]
fn test_parse_configured_command_rejects_wrong_action() {
    let err = parse_configured_command("brew services stop sing-box", SingboxAction::Restart)
        .expect_err("configured command must match requested action");
    assert!(err.contains("brew 管理命令"));
}

#[test]
fn test_singbox_action_from_str() {
    assert_eq!(SingboxAction::from_str("restart"), Some(SingboxAction::Restart));
    assert_eq!(SingboxAction::from_str("reload"), None);
}

#[test]
fn actions_and_words_stand_for_each_other() {
    for a in [SingboxAction::Start, SingboxAction::Stop, SingboxAction::Restart] {
        assert_eq!(SingboxAction::from_str(a.as_str()), Some(a));
    }
    assert_eq!(command_setting(SingboxAction::Stop), "SINGBOX_STOP_CMD");
    assert_eq!(SingboxAction::from_str("Start"), None);
}

#[test]
fn names_of_programs_are_the_ends_of_paths() {
    let cases = [
        "sudo", "/usr/bin/sudo", "/usr/bin/", "./x", "a/.", "a/..", "", "/", ".", "..", "a//b", "a/./",
        "../x", "a b/c d",
    ];
    for c in cases {
        let want = std::path::Path::new(c).file_name().and_then(|s| s.to_str()).unwrap_or("");
        assert_eq!(command_name(c), want, "{}", c);
    }
}

#[test]
fn every_metacharacter_is_seen() {
    for c in [";", "&", "|", ">", "<", "`", "$", "\n", "\r"] {
        assert!(command_has_shell_metachar(&format!("a{}b", c)));
    }
    assert!(!command_has_shell_metachar("a b\tc'\"\\"));
}

#[test]
fn labels_of_services_name_the_proxy() {
    assert!(valid_service_name("system/io.sing-box_1@x"));
    assert!(!valid_service_name("system/other"));
    assert!(!valid_service_name("sing-box svc"));
    assert!(!valid_service_name("sing-bóx"));
}

#[test]
fn each_manager_has_its_commands() {
    let start = SingboxAction::Start;
    let restart = SingboxAction::Restart;
    let check = |list: &[&str], a: SingboxAction| validate_service_command(&texts(list), a);
    assert!(check(&["/opt/homebrew/bin/brew", "services", "start", "sing-box"], start).is_ok());
    assert!(check(&["systemctl", "start", "sing-box.service"], start).is_ok());
    assert!(check(&["launchctl", "start", "io.sing-box"], start).is_ok());
    assert!(check(&["launchctl", "kickstart", "-k", "system/sing-box"], restart).is_ok());
    assert!(check(&["/usr/bin/sudo", "-n", "systemctl", "restart", "sing-box"], restart).is_ok());
    assert_eq!(check(&[], start).unwrap_err(), "命令为空");
    assert_eq!(
        check(&["sudo", "systemctl", "start", "sing-box"], start).unwrap_err(),
        "sudo 管理命令必须使用 -n 以避免阻塞等待密码"
    );
    assert_eq!(check(&["sudo", "-n"], start).unwrap_err(), "sudo 后缺少实际管理命令");
    assert_eq!(
        check(&["brew", "services", "start", "sing-box", "x"], start).unwrap_err(),
        "brew 管理命令只允许: brew services start sing-box"
    );
    assert_eq!(
        check(&["systemctl", "start", "nginx"], start).unwrap_err(),
        "systemctl 管理命令只允许: systemctl start sing-box"
    );
    assert_eq!(
        check(&["launchctl", "start", "other"], start).unwrap_err(),
        "launchctl start 只允许操作包含 sing-box 的服务标签"
    );
    assert_eq!(
        check(&["launchctl", "restart", "sing-box"], restart).unwrap_err(),
        "launchctl restart 只允许: launchctl kickstart -k <sing-box 服务标签>"
    );
    assert_eq!(
        check(&["sudo", "-n", "sudo", "-n"], start).unwrap_err(),
        "不允许的 sing-box 管理命令: sudo"
    );
}

#[test]
fn blank_commands_are_refused() {
    assert_eq!(
        parse_configured_command(" \t ", SingboxAction::Stop).unwrap_err(),
        "命令为空"
    );
    assert_eq!(
        parse_configured_command("  systemctl\u{3000}stop  sing-box ", SingboxAction::Stop).unwrap(),
        texts(&["systemctl", "stop", "sing-box"])
    );
}

#[test]
fn commands_come_from_the_setting_or_the_default() {
    let programs = |brew: Option<&str>| ServicePrograms {
        sudo: "/usr/bin/sudo".to_string(),
        brew: brew.map(|s| s.to_string()),
    };
    let d = default_singbox_command(SingboxAction::Stop, programs(None));
    assert_eq!(d, texts(&["/usr/bin/sudo", "-n", "systemctl", "stop", "sing-box"]));
    assert!(validate_service_command(&d, SingboxAction::Stop).is_ok());
    let b = singbox_command_for_action(SingboxAction::Start, &None, programs(Some("/x/brew"))).unwrap();
    assert_eq!(b, texts(&["/usr/bin/sudo", "-n", "/x/brew", "services", "start", "sing-box"]));
    assert!(validate_service_command(&b, SingboxAction::Start).is_ok());
    let s = Some("systemctl start sing-box".to_string());
    assert_eq!(
        singbox_command_for_action(SingboxAction::Start, &s, programs(None)).unwrap(),
        texts(&["systemctl", "start", "sing-box"])
    );
    assert!(singbox_command_for_action(SingboxAction::Stop, &s, programs(None)).is_err());
    assert_eq!(brew_program(None, true, true), "/opt/homebrew/bin/brew");
    assert_eq!(brew_program(None, false, true), "/usr/local/bin/brew");
    assert_eq!(brew_program(None, false, false), "brew");
    assert_eq!(brew_program(Some("b".to_string()), true, true), "b");
}

#[test]
fn outcomes_are_told() {
    let a = SingboxAction::Restart;
    let ended = |success: bool, stdout: &str, stderr: &str| CommandOutcome::Ended {
        success,
        stdout: stdout.to_string(),
        stderr: stderr.to_string(),
    };
    assert_eq!(
        manage_singbox(a, &ended(true, "", "")).unwrap(),
        "sing-box restart 命令执行成功"
    );
    let tail = "。如果 sing-box 需要 sudo，请为该命令配置 NOPASSWD，或用 SINGBOX_*_CMD 指定允许的管理命令。";
    assert_eq!(
        manage_singbox(a, &ended(false, "out", " err\n")).unwrap_err(),
        format!("sing-box restart 命令失败: err{}", tail)
    );
    assert_eq!(
        manage_singbox(a, &ended(false, "out\n", " \n")).unwrap_err(),
        format!("sing-box restart 命令失败: out{}", tail)
    );
    assert_eq!(
        manage_singbox(a, &CommandOutcome::TimedOut).unwrap_err(),
        "sing-box restart 命令执行超时"
    );
    assert_eq!(
        manage_singbox(a, &CommandOutcome::NotRun("gone".to_string())).unwrap_err(),
        "无法执行 sing-box restart 命令: gone"
    );
}

#[test]
fn accepted_commands_are_read_back_as_themselves() {
    for (value, action) in [
        ("sudo  brew services restart sing-box ", SingboxAction::Restart),
        ("/usr/bin/sudo -n systemctl stop sing-box.service", SingboxAction::Stop),
        ("launchctl start org.sing-box", SingboxAction::Start),
    ] {
        let parts = parse_configured_command(value, action).unwrap();
        assert_eq!(parse_configured_command(&parts.join(" "), action).unwrap(), parts);
    }
}
