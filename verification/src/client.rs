//! The join client's decisions: what to send to the master, and what to
//! persist once its single-line reply is in. The connection itself, the
//! local address the operating system assigns to it, and the file writes
//! stand outside the library.

use vstd::prelude::*;

use crate::bytes::{
    contains_bytes, contains_seq, find_byte, is_ws, lemma_find_byte, lemma_trim_end_at,
    lemma_trim_start_at, trim_start, trimmed,
};
use crate::config::{render_config, spec_render_config};
use crate::protocol::{join_verb, join_verb_bytes, spec_auth, token0, token1};

verus! {

/// The request line the join client sends: `JOIN <secret>` (the caller
/// appends the line terminator when writing).
pub fn join_request(key: &[u8]) -> (r: Vec<u8>)
    ensures
        r@ == join_verb() + seq![32u8] + key@,
{
    let mut r = join_verb_bytes();
    r.push(32);
    r.extend_from_slice(key);
    proof {
        assert(r@ =~= join_verb() + seq![32u8] + key@);
    }
    r
}

/// The substring of the master's reply that signals success.
pub open spec fn joined_marker() -> Seq<u8> {
    seq!['j' as u8, 'o' as u8, 'i' as u8, 'n' as u8, 'e' as u8, 'd' as u8]
}

fn joined_marker_bytes() -> (r: Vec<u8>)
    ensures
        r@ == joined_marker(),
{
    let r: Vec<u8> = vec!['j' as u8, 'o' as u8, 'i' as u8, 'n' as u8, 'e' as u8, 'd' as u8];
    proof {
        assert(r@ =~= joined_marker());
    }
    r
}

/// The line the client sends, terminated by a newline and then trimmed
/// and tokenized exactly as the server does it, authenticates against the
/// same secret — provided the secret is nonempty and holds no ASCII
/// whitespace, since a space would end the token the server compares.
pub proof fn lemma_join_request_authenticates(key: Seq<u8>)
    requires
        key.len() > 0,
        forall|i: int| 0 <= i < key.len() ==> !is_ws(#[trigger] key[i]),
    ensures
        spec_auth(trimmed(join_verb() + seq![32u8] + key + seq![10u8]), key),
{
    let line = join_verb() + seq![32u8] + key + seq![10u8];
    let t = line.take(line.len() - 1);
    assert(line[0] == 'J' as u8);
    lemma_trim_start_at(line, 0);
    assert(trim_start(line) == line.subrange(0, line.len() as int));
    assert(line.subrange(0, line.len() as int) =~= line);
    assert(line[line.len() - 1] == 10);
    assert(line[line.len() - 2] == key[key.len() - 1]);
    lemma_trim_end_at(line, line.len() - 1);
    assert(t =~= line.subrange(0, line.len() - 1));
    assert(trimmed(line) == t);
    assert(t[4] == 32);
    assert(t[0] == 'J' as u8 && t[1] == 'O' as u8 && t[2] == 'I' as u8 && t[3] == 'N' as u8);
    lemma_find_byte(t, 32);
    match find_byte(t, 32) {
        None => {
            assert(false);
        },
        Some(k) => {
            assert(k == 4);
            assert(t.take(4) =~= join_verb());
            assert(t.skip(5) =~= key);
            lemma_find_byte(key, 32);
            match find_byte(key, 32) {
                None => {},
                Some(j) => {
                    assert(is_ws(key[j]));
                },
            }
            assert(token0(key) == key);
            assert(token1(t) == Some(key));
        },
    }
}

/// What one run of the join client decides.
pub enum JoinOutcome {
    /// A role configuration already exists: the process is already part
    /// of a swarm, nothing is sent, and nothing is written.
    AlreadyMember,
    /// The master reported success: persist exactly these bytes as the
    /// role configuration.
    Joined { config: Vec<u8> },
    /// No success was reported: local state stays unchanged.
    NotJoined,
}

/// Decides a join run once any exchange with the master is over. A
/// process already holding a role configuration never re-sends a join and
/// writes nothing, so its registry and configuration files stay exactly
/// as they were. Otherwise a reply holding `joined` yields the
/// configuration to persist, naming the local address and port the
/// outbound connection used; any other reply, or none, changes nothing.
pub fn join_handler(
    config_present: bool,
    response: Option<&[u8]>,
    local_ip: &[u8],
    local_port: u16,
) -> (r: JoinOutcome)
    ensures
        config_present ==> r is AlreadyMember,
        !config_present ==> match response {
            Some(b) => {
                if contains_seq(b@, joined_marker()) {
                    r matches JoinOutcome::Joined { config } && config@ == spec_render_config(
                        local_ip@,
                        local_port as nat,
                    )
                } else {
                    r is NotJoined
                }
            },
            None => r is NotJoined,
        },
{
    if config_present {
        return JoinOutcome::AlreadyMember;
    }
    match response {
        None => JoinOutcome::NotJoined,
        Some(b) => {
            let marker = joined_marker_bytes();
            if contains_bytes(b, marker.as_slice()) {
                JoinOutcome::Joined { config: render_config(local_ip, local_port) }
            } else {
                JoinOutcome::NotJoined
            }
        },
    }
}

} // verus!
