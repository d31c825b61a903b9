use swarm_join::protocol::{handle_line, Response};
use swarm_join::registry::Registry;

const KEY: &[u8] = b"secret123";

fn fresh_registry() -> Registry {
    Registry::open_in_memory().expect("in-memory registry")
}

#[test]
fn first_join_is_welcomed_and_registered() {
    let mut reg = fresh_registry();
    let r = handle_line(&mut reg, b"JOIN secret123\n", KEY, "127.0.0.1:4000").unwrap();
    assert_eq!(r, Some(Response::Joined));
    assert!(reg.contains("127.0.0.1:4000").unwrap());
}

#[test]
fn second_join_from_same_address_already_exists() {
    let mut reg = fresh_registry();
    let first = handle_line(&mut reg, b"JOIN secret123\n", KEY, "127.0.0.1:4000").unwrap();
    let second = handle_line(&mut reg, b"JOIN secret123\n", KEY, "127.0.0.1:4000").unwrap();
    let third = handle_line(&mut reg, b"JOIN secret123\n", KEY, "127.0.0.1:4000").unwrap();
    assert_eq!(first, Some(Response::Joined));
    assert_eq!(second, Some(Response::AlreadyExists));
    assert_eq!(third, Some(Response::AlreadyExists));
}

#[test]
fn wrong_secret_is_dropped_and_registers_nothing() {
    let mut reg = fresh_registry();
    let r = handle_line(&mut reg, b"JOIN nope\n", KEY, "127.0.0.1:4000").unwrap();
    assert_eq!(r, None);
    assert!(!reg.contains("127.0.0.1:4000").unwrap());
}

#[test]
fn missing_secret_is_dropped() {
    let mut reg = fresh_registry();
    let r = handle_line(&mut reg, b"JOIN\n", KEY, "127.0.0.1:4000").unwrap();
    assert_eq!(r, None);
    assert!(!reg.contains("127.0.0.1:4000").unwrap());
}

#[test]
fn doubled_space_hides_the_secret() {
    let mut reg = fresh_registry();
    let r = handle_line(&mut reg, b"JOIN  secret123\n", KEY, "127.0.0.1:4000").unwrap();
    assert_eq!(r, None);
    assert!(!reg.contains("127.0.0.1:4000").unwrap());
}

#[test]
fn trailing_tokens_after_the_secret_are_ignored() {
    let mut reg = fresh_registry();
    let r = handle_line(&mut reg, b"JOIN secret123 extra\n", KEY, "127.0.0.1:4000").unwrap();
    assert_eq!(r, Some(Response::Joined));
    assert!(reg.contains("127.0.0.1:4000").unwrap());
}

#[test]
fn unknown_verb_is_answered_and_registers_nothing() {
    let mut reg = fresh_registry();
    let r = handle_line(&mut reg, b"LEAVE secret123\n", KEY, "127.0.0.1:4000").unwrap();
    assert_eq!(r, Some(Response::UnknownCommand));
    assert!(!reg.contains("127.0.0.1:4000").unwrap());
}

#[test]
fn lowercase_join_is_unknown() {
    let mut reg = fresh_registry();
    let r = handle_line(&mut reg, b"join secret123\n", KEY, "127.0.0.1:4000").unwrap();
    assert_eq!(r, Some(Response::UnknownCommand));
}

#[test]
fn empty_line_is_unknown() {
    let mut reg = fresh_registry();
    let r = handle_line(&mut reg, b"\n", KEY, "127.0.0.1:4000").unwrap();
    assert_eq!(r, Some(Response::UnknownCommand));
}

#[test]
fn crlf_terminated_join_is_accepted() {
    let mut reg = fresh_registry();
    let r = handle_line(&mut reg, b"JOIN secret123\r\n", KEY, "127.0.0.1:4000").unwrap();
    assert_eq!(r, Some(Response::Joined));
}

#[test]
fn two_addresses_register_independently() {
    let mut reg = fresh_registry();
    let a = handle_line(&mut reg, b"JOIN secret123\n", KEY, "127.0.0.1:4000").unwrap();
    let b = handle_line(&mut reg, b"JOIN secret123\n", KEY, "127.0.0.1:4001").unwrap();
    assert_eq!(a, Some(Response::Joined));
    assert_eq!(b, Some(Response::Joined));
    assert!(reg.contains("127.0.0.1:4000").unwrap());
    assert!(reg.contains("127.0.0.1:4001").unwrap());
    assert!(!reg.contains("127.0.0.1:4002").unwrap());
}

#[test]
fn surrounding_whitespace_is_trimmed() {
    let mut reg = fresh_registry();
    let r = handle_line(&mut reg, b"  JOIN secret123  \r\n", KEY, "127.0.0.1:4000").unwrap();
    assert_eq!(r, Some(Response::Joined));
}

#[test]
fn tab_is_not_a_token_separator() {
    let mut reg = fresh_registry();
    let r = handle_line(&mut reg, b"JOIN\tsecret123\n", KEY, "127.0.0.1:4000").unwrap();
    assert_eq!(r, Some(Response::UnknownCommand));
    assert!(!reg.contains("127.0.0.1:4000").unwrap());
}

#[test]
fn response_lines_are_exact() {
    assert_eq!(Response::Joined.text(), "Swam has been joined!");
    assert_eq!(Response::AlreadyExists.text(), "Server already exists!");
    assert_eq!(Response::UnknownCommand.text(), "Unknown command!");
}
