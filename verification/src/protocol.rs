//! The membership protocol: one request line per connection, tokenized on
//! single spaces after trimming. `JOIN <secret>` from a new address
//! registers it; a repeated address is told it already exists; a wrong or
//! missing secret is dropped without an answer; any other verb is answered
//! `Unknown command!`.

use vstd::prelude::*;
use vstd::multiset::Multiset;

use crate::bytes::{bytes_eq, find, find_byte, lemma_find_byte, trim, trimmed};
use crate::registry::{Registry, StoreError};

verus! {

/// The bytes of the verb `JOIN`.
pub open spec fn join_verb() -> Seq<u8> {
    seq!['J' as u8, 'O' as u8, 'I' as u8, 'N' as u8]
}

pub(crate) fn join_verb_bytes() -> (r: Vec<u8>)
    ensures
        r@ == join_verb(),
{
    let r: Vec<u8> = vec!['J' as u8, 'O' as u8, 'I' as u8, 'N' as u8];
    proof {
        assert(r@ =~= join_verb());
    }
    r
}

/// The first token of a line: everything before the first space.
pub open spec fn token0(t: Seq<u8>) -> Seq<u8> {
    match find_byte(t, 32) {
        None => t,
        Some(i) => t.take(i),
    }
}

/// The second token of a line: what stands between the first space and
/// the next one. A line without any space has no second token.
pub open spec fn token1(t: Seq<u8>) -> Option<Seq<u8>> {
    match find_byte(t, 32) {
        None => None,
        Some(i) => Some(token0(t.skip(i + 1))),
    }
}

/// Whether the trimmed line authenticates: the verb is `JOIN` and the
/// second token equals the shared secret.
pub open spec fn spec_auth(t: Seq<u8>, key: Seq<u8>) -> bool {
    token0(t) == join_verb() && token1(t) == Some(key)
}

/// The three answers the protocol defines.
#[derive(Clone, Copy, PartialEq, Eq, Debug, Structural)]
pub enum Response {
    /// The address was registered by this request.
    Joined,
    /// The address already had a row; nothing changed.
    AlreadyExists,
    /// The first token was not `JOIN`.
    UnknownCommand,
}

impl Response {
    /// The exact line sent back on the wire for this answer.
    pub fn text(&self) -> (r: &'static str)
        ensures
            self is Joined ==> r@ == "Swam has been joined!"@,
            self is AlreadyExists ==> r@ == "Server already exists!"@,
            self is UnknownCommand ==> r@ == "Unknown command!"@,
    {
        match self {
            Response::Joined => "Swam has been joined!",
            Response::AlreadyExists => "Server already exists!",
            Response::UnknownCommand => "Unknown command!",
        }
    }
}

/// The answer sent for the raw request line `line`, given the shared
/// secret and the registry rows: `None` is the silent drop on a failed
/// authentication.
pub open spec fn spec_response(
    rows: Multiset<Seq<char>>,
    line: Seq<u8>,
    key: Seq<u8>,
    addr: Seq<char>,
) -> Option<Response> {
    let t = trimmed(line);
    if token0(t) != join_verb() {
        Some(Response::UnknownCommand)
    } else if token1(t) == Some(key) {
        if rows.contains(addr) {
            Some(Response::AlreadyExists)
        } else {
            Some(Response::Joined)
        }
    } else {
        None
    }
}

/// The registry rows after the request: one new row exactly when an
/// authenticated `JOIN` arrives from an address with no row yet.
pub open spec fn spec_next_rows(
    rows: Multiset<Seq<char>>,
    line: Seq<u8>,
    key: Seq<u8>,
    addr: Seq<char>,
) -> Multiset<Seq<char>> {
    let t = trimmed(line);
    if spec_auth(t, key) && !rows.contains(addr) {
        rows.insert(addr)
    } else {
        rows
    }
}

/// Whether the first token of `t` is the verb `JOIN`.
fn first_token_is_join(t: &[u8]) -> (r: bool)
    ensures
        r == (token0(t@) == join_verb()),
{
    let verb = join_verb_bytes();
    proof {
        lemma_find_byte(t@, 32);
    }
    match find(t, 32) {
        None => bytes_eq(t, verb.as_slice()),
        Some(i) => {
            let head = &t[0..i];
            assert(head@ =~= t@.take(i as int));
            bytes_eq(head, verb.as_slice())
        },
    }
}

/// Whether `t` has a second token and it equals `key`.
fn second_token_matches(t: &[u8], key: &[u8]) -> (r: bool)
    ensures
        r == (token1(t@) == Some(key@)),
{
    proof {
        lemma_find_byte(t@, 32);
    }
    match find(t, 32) {
        None => false,
        Some(i) => {
            let tlen = t.len();
            let rest = &t[i + 1..tlen];
            assert(rest@ =~= t@.skip(i + 1));
            proof {
                lemma_find_byte(rest@, 32);
            }
            match find(rest, 32) {
                None => bytes_eq(rest, key),
                Some(j) => {
                    let second = &rest[0..j];
                    assert(second@ =~= rest@.take(j as int));
                    bytes_eq(second, key)
                },
            }
        },
    }
}

/// Handles the one request line of a connection: trims and tokenizes it,
/// authenticates, and registers the peer's address. Failed authentication
/// is dropped without an answer, as the protocol leaves it. Only the
/// authenticated path touches the registry, so every other line is
/// answered without a store error.
pub fn handle_line(reg: &mut Registry, line: &[u8], key: &[u8], addr: &str) -> (r: Result<
    Option<Response>,
    StoreError,
>)
    ensures
        r matches Ok(resp) ==> resp == spec_response(old(reg)@, line@, key@, addr@)
            && final(reg)@ == spec_next_rows(old(reg)@, line@, key@, addr@),
        r is Err ==> final(reg)@ == old(reg)@,
        !spec_auth(trimmed(line@), key@) ==> r is Ok,
{
    let t = trim(line);
    if !first_token_is_join(t) {
        return Ok(Some(Response::UnknownCommand));
    }
    if !second_token_matches(t, key) {
        return Ok(None);
    }
    match reg.contains(addr) {
        Err(e) => Err(e),
        Ok(true) => Ok(Some(Response::AlreadyExists)),
        Ok(false) => match reg.insert(addr) {
            Ok(()) => Ok(Some(Response::Joined)),
            Err(e) => Err(e),
        },
    }
}

/// The registry invariant: no address has more than one row.
pub open spec fn unique_addresses(rows: Multiset<Seq<char>>) -> bool {
    forall|a: Seq<char>| #[trigger] rows.count(a) <= 1
}

/// One handled request preserves the registry invariant: a row is only
/// ever added after the existence check found none, and the check and the
/// insert are never interleaved with another request's.
pub proof fn lemma_handle_preserves_uniqueness(
    rows: Multiset<Seq<char>>,
    line: Seq<u8>,
    key: Seq<u8>,
    addr: Seq<char>,
)
    requires
        unique_addresses(rows),
    ensures
        unique_addresses(spec_next_rows(rows, line, key, addr)),
{
    broadcast use vstd::multiset::group_multiset_axioms;

    let next = spec_next_rows(rows, line, key, addr);
    assert forall|a: Seq<char>| #[trigger] next.count(a) <= 1 by {
        if next == rows.insert(addr) {
            if a == addr {
                assert(rows.count(addr) == 0);
            } else {
                assert(next.count(a) == rows.count(a));
            }
        }
    }
}

/// A first authenticated `JOIN` from an unregistered address is answered
/// `Swam has been joined!` and adds exactly one row for it; any further
/// authenticated `JOIN` from the same address is answered `Server already
/// exists!` and changes nothing.
pub proof fn lemma_join_twice(
    rows: Multiset<Seq<char>>,
    line1: Seq<u8>,
    line2: Seq<u8>,
    key: Seq<u8>,
    addr: Seq<char>,
)
    requires
        spec_auth(trimmed(line1), key),
        spec_auth(trimmed(line2), key),
        !rows.contains(addr),
    ensures
        spec_response(rows, line1, key, addr) == Some(Response::Joined),
        spec_next_rows(rows, line1, key, addr).count(addr) == rows.count(addr) + 1,
        spec_response(spec_next_rows(rows, line1, key, addr), line2, key, addr) == Some(
            Response::AlreadyExists,
        ),
        spec_next_rows(spec_next_rows(rows, line1, key, addr), line2, key, addr)
            == spec_next_rows(rows, line1, key, addr),
{
    broadcast use vstd::multiset::group_multiset_axioms;

}

/// A request that does not present the shared secret as its second token
/// never creates a registry row and is never answered `Swam has been
/// joined!`.
pub proof fn lemma_wrong_secret_no_row(
    rows: Multiset<Seq<char>>,
    line: Seq<u8>,
    key: Seq<u8>,
    addr: Seq<char>,
)
    requires
        token1(trimmed(line)) != Some(key),
    ensures
        spec_next_rows(rows, line, key, addr) == rows,
        spec_response(rows, line, key, addr) != Some(Response::Joined),
{
}

/// A line whose first token is not `JOIN` is answered `Unknown command!`
/// and mutates nothing.
pub proof fn lemma_unknown_command(
    rows: Multiset<Seq<char>>,
    line: Seq<u8>,
    key: Seq<u8>,
    addr: Seq<char>,
)
    requires
        token0(trimmed(line)) != join_verb(),
    ensures
        spec_response(rows, line, key, addr) == Some(Response::UnknownCommand),
        spec_next_rows(rows, line, key, addr) == rows,
{
}

} // verus!
