use swarm_join::protocol::Response;
use swarm_join::registry::Registry;
use swarm_join::server::{run_server, Request};

const KEY: &[u8] = b"secret123";

fn join_from(addr: &str) -> Request {
    Request {
        line: b"JOIN secret123\n".to_vec(),
        addr: addr.to_string(),
    }
}

#[test]
fn distinct_addresses_each_join_exactly_once() {
    let mut reg = Registry::open_in_memory().unwrap();
    let n = 10;
    let mut events = Vec::new();
    for i in 0..n {
        events.push(join_from(&format!("10.0.0.{}:5000", i)));
    }
    let resps = run_server(&mut reg, &events, KEY).unwrap();
    assert_eq!(resps.len(), n);
    for r in &resps {
        assert_eq!(*r, Some(Response::Joined));
    }
    for i in 0..n {
        assert!(reg.contains(&format!("10.0.0.{}:5000", i)).unwrap());
    }
}

#[test]
fn repeated_address_in_a_batch_joins_once() {
    let mut reg = Registry::open_in_memory().unwrap();
    let events = vec![
        join_from("10.0.0.1:5000"),
        join_from("10.0.0.1:5000"),
        join_from("10.0.0.2:5000"),
        join_from("10.0.0.1:5000"),
    ];
    let resps = run_server(&mut reg, &events, KEY).unwrap();
    assert_eq!(
        resps,
        vec![
            Some(Response::Joined),
            Some(Response::AlreadyExists),
            Some(Response::Joined),
            Some(Response::AlreadyExists),
        ]
    );
}

#[test]
fn mixed_batch_answers_each_request_in_order() {
    let mut reg = Registry::open_in_memory().unwrap();
    let events = vec![
        Request { line: b"HELLO\n".to_vec(), addr: "10.0.0.1:1".to_string() },
        Request { line: b"JOIN wrong\n".to_vec(), addr: "10.0.0.2:2".to_string() },
        Request { line: b"JOIN secret123\n".to_vec(), addr: "10.0.0.3:3".to_string() },
    ];
    let resps = run_server(&mut reg, &events, KEY).unwrap();
    assert_eq!(
        resps,
        vec![Some(Response::UnknownCommand), None, Some(Response::Joined)]
    );
    assert!(!reg.contains("10.0.0.1:1").unwrap());
    assert!(!reg.contains("10.0.0.2:2").unwrap());
    assert!(reg.contains("10.0.0.3:3").unwrap());
}

#[test]
fn batch_without_authentication_is_answered_whole() {
    let mut reg = Registry::open_in_memory().unwrap();
    let events = vec![
        Request { line: b"LIST\n".to_vec(), addr: "10.0.0.1:1".to_string() },
        Request { line: b"JOIN wrong\n".to_vec(), addr: "10.0.0.2:2".to_string() },
        Request { line: b"JOIN\n".to_vec(), addr: "10.0.0.3:3".to_string() },
    ];
    let resps = run_server(&mut reg, &events, KEY).unwrap();
    assert_eq!(resps, vec![Some(Response::UnknownCommand), None, None]);
}

#[test]
fn empty_batch_answers_nothing() {
    let mut reg = Registry::open_in_memory().unwrap();
    let resps = run_server(&mut reg, &Vec::new(), KEY).unwrap();
    assert!(resps.is_empty());
}
