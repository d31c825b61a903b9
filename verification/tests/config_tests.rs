use swarm_join::config::{parse_config, parse_u32, render_config, resolve_role, Config, Role};

#[test]
fn absent_file_resolves_to_master() {
    let role = resolve_role(None);
    assert!(matches!(role, Role::Master));
}

#[test]
fn port_only_file_resolves_to_member_with_port() {
    let cfg = parse_config(b"slave_port=9999");
    assert_eq!(cfg.slave_port, 9999);
    assert!(cfg.master_ip_address.is_empty());
    let role = resolve_role(Some(cfg));
    match role {
        Role::Member { master_ip_address, slave_port } => {
            assert_eq!(slave_port, 9999);
            assert!(master_ip_address.is_empty());
        }
        _ => panic!("expected a member role"),
    }
}

#[test]
fn unparseable_port_defaults() {
    let cfg = parse_config(b"slave_port=abc");
    assert_eq!(cfg.slave_port, 8777);
}

#[test]
fn both_keys_parse() {
    let cfg = parse_config(b"master_ip_address=127.0.0.1\nslave_port=9001");
    assert_eq!(cfg.master_ip_address, b"127.0.0.1".to_vec());
    assert_eq!(cfg.slave_port, 9001);
}

#[test]
fn later_assignment_wins() {
    let cfg = parse_config(b"slave_port=1\nslave_port=2");
    assert_eq!(cfg.slave_port, 2);
}

#[test]
fn unknown_keys_and_blank_lines_are_ignored() {
    let cfg = parse_config(b"color=blue\n\nmaster_ip_address=10.0.0.9\nnoise\n");
    assert_eq!(cfg.master_ip_address, b"10.0.0.9".to_vec());
    assert_eq!(cfg.slave_port, 8777);
}

#[test]
fn crlf_line_endings_are_accepted() {
    let cfg = parse_config(b"master_ip_address=10.1.1.1\r\nslave_port=9005\r\n");
    assert_eq!(cfg.master_ip_address, b"10.1.1.1".to_vec());
    assert_eq!(cfg.slave_port, 9005);
}

#[test]
fn empty_file_gives_defaults() {
    let cfg = parse_config(b"");
    assert!(cfg.master_ip_address.is_empty());
    assert_eq!(cfg.slave_port, 8777);
}

#[test]
fn value_may_contain_equals_sign() {
    let cfg = parse_config(b"master_ip_address=a=b");
    assert_eq!(cfg.master_ip_address, b"a=b".to_vec());
}

#[test]
fn parse_u32_accepts_plain_numbers() {
    assert_eq!(parse_u32(b"0"), Some(0));
    assert_eq!(parse_u32(b"8777"), Some(8777));
    assert_eq!(parse_u32(b"007"), Some(7));
    assert_eq!(parse_u32(b"+123"), Some(123));
    assert_eq!(parse_u32(b"4294967295"), Some(u32::MAX));
}

#[test]
fn parse_u32_rejects_bad_input() {
    assert_eq!(parse_u32(b""), None);
    assert_eq!(parse_u32(b"+"), None);
    assert_eq!(parse_u32(b"abc"), None);
    assert_eq!(parse_u32(b"12a"), None);
    assert_eq!(parse_u32(b"-5"), None);
    assert_eq!(parse_u32(b" 12"), None);
    assert_eq!(parse_u32(b"4294967296"), None);
    assert_eq!(parse_u32(b"99999999999999999999"), None);
}

#[test]
fn parse_u32_matches_std_parsing() {
    let cases: &[&[u8]] = &[
        b"0",
        b"42",
        b"+42",
        b"007",
        b"4294967295",
        b"4294967296",
        b"",
        b"+",
        b"1 2",
        b"0x10",
    ];
    for c in cases {
        let std_result = std::str::from_utf8(c).unwrap().parse::<u32>().ok();
        assert_eq!(parse_u32(c), std_result);
    }
}

/// The key-by-key reading a line-oriented parser does, written with the
/// standard library, as a reference for `parse_config`.
fn reference_parse(content: &str) -> (Vec<u8>, u32) {
    let mut master_ip_address = String::new();
    let mut slave_port: u32 = 8777;
    for line in content.lines() {
        if let Some((key, value)) = line.split_once('=') {
            match key {
                "master_ip_address" => master_ip_address = value.to_string(),
                "slave_port" => {
                    if let Ok(port) = value.parse::<u32>() {
                        slave_port = port;
                    }
                }
                _ => {}
            }
        }
    }
    (master_ip_address.into_bytes(), slave_port)
}

#[test]
fn parse_config_matches_line_by_line_parsing() {
    let cases = [
        "",
        "a=b",
        "master_ip_address=1.2.3.4",
        "slave_port=+77",
        "slave_port=abc\nslave_port=9\n",
        "x\n\n=5\nslave_port=10\r\nmaster_ip_address=\n",
        "slave_port=4294967296",
        "master_ip_address=a=b\nslave_port=0008777",
        "master_ip_address=first\nmaster_ip_address=second",
        "slave_port =9\n slave_port=9",
        "SLAVE_PORT=9",
        "slave_port=9\r",
    ];
    for c in cases {
        let (ip, port) = reference_parse(c);
        let cfg = parse_config(c.as_bytes());
        assert_eq!(cfg.master_ip_address, ip, "address for {:?}", c);
        assert_eq!(cfg.slave_port, port, "port for {:?}", c);
    }
}

#[test]
fn rendered_config_bytes_are_exact() {
    let r = render_config(b"127.0.0.1", 4200);
    assert_eq!(r, b"master_ip_address=127.0.0.1\nslave_port=4200".to_vec());
}

#[test]
fn rendered_config_parses_back() {
    let r = render_config(b"10.2.3.4", 65535);
    let cfg = parse_config(&r);
    assert_eq!(cfg.master_ip_address, b"10.2.3.4".to_vec());
    assert_eq!(cfg.slave_port, 65535);
}

#[test]
fn preferred_ports_follow_the_role() {
    assert_eq!(resolve_role(None).preferred_port(), 8777);
    let member = resolve_role(Some(Config {
        master_ip_address: b"127.0.0.1".to_vec(),
        slave_port: 9999,
    }));
    assert_eq!(member.preferred_port(), 9999);
}
