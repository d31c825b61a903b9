use swarm_join::client::{join_handler, join_request, JoinOutcome};
use swarm_join::config::parse_config;
use swarm_join::protocol::{handle_line, Response};
use swarm_join::registry::Registry;

#[test]
fn join_request_line_is_exact() {
    assert_eq!(join_request(b"secret123"), b"JOIN secret123".to_vec());
}

#[test]
fn already_member_is_a_no_op() {
    let r = join_handler(true, None, b"127.0.0.1", 4000);
    assert!(matches!(r, JoinOutcome::AlreadyMember));
    let r = join_handler(true, Some(b"Swam has been joined!"), b"127.0.0.1", 4000);
    assert!(matches!(r, JoinOutcome::AlreadyMember));
}

#[test]
fn joined_reply_persists_the_local_address() {
    let r = join_handler(false, Some(b"Swam has been joined!"), b"127.0.0.1", 4000);
    match r {
        JoinOutcome::Joined { config } => {
            assert_eq!(config, b"master_ip_address=127.0.0.1\nslave_port=4000".to_vec());
        }
        _ => panic!("expected a joined outcome"),
    }
}

#[test]
fn other_replies_change_nothing() {
    let r = join_handler(false, Some(b"Server already exists!"), b"127.0.0.1", 4000);
    assert!(matches!(r, JoinOutcome::NotJoined));
    let r = join_handler(false, Some(b"Unknown command!"), b"127.0.0.1", 4000);
    assert!(matches!(r, JoinOutcome::NotJoined));
    let r = join_handler(false, None, b"127.0.0.1", 4000);
    assert!(matches!(r, JoinOutcome::NotJoined));
}

#[test]
fn master_and_client_complete_a_join() {
    // A master with MASTER_KEY=secret123 and an empty registry.
    let key = b"secret123";
    let mut reg = Registry::open_in_memory().unwrap();

    // The client connects; the operating system assigns it a local
    // ephemeral address, which the master observes as the peer address.
    let client_ip = b"127.0.0.1";
    let client_port: u16 = 54321;
    let peer_addr = "127.0.0.1:54321";

    // The client sends its request line; the master handles it.
    let mut line = join_request(key);
    line.push(b'\n');
    let resp = handle_line(&mut reg, &line, key, peer_addr).unwrap().unwrap();
    assert_eq!(resp, Response::Joined);
    assert_eq!(resp.text(), "Swam has been joined!");

    // The master's registry now holds one active row for the client.
    assert!(reg.contains(peer_addr).unwrap());

    // The client reads the reply and persists its role configuration.
    let outcome = join_handler(false, Some(resp.text().as_bytes()), client_ip, client_port);
    let config = match outcome {
        JoinOutcome::Joined { config } => config,
        _ => panic!("expected a joined outcome"),
    };
    let cfg = parse_config(&config);
    assert_eq!(cfg.master_ip_address, b"127.0.0.1".to_vec());
    assert_eq!(cfg.slave_port, 54321);

    // A later run that finds the configuration never re-sends a join.
    let again = join_handler(true, None, client_ip, client_port);
    assert!(matches!(again, JoinOutcome::AlreadyMember));
}
