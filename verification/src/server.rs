//! The server's side of the protocol, run over the connections in the
//! order the registry lock admits them. The listening socket, the accept
//! loop and its per-connection threads stand outside the library; the
//! shared lock serializes every existence-check-and-insert, so any
//! concurrent execution equals this serial one for some admission order.

use vstd::prelude::*;
use vstd::multiset::Multiset;

use crate::bytes::trimmed;
use crate::protocol::{
    handle_line, lemma_handle_preserves_uniqueness, spec_auth, spec_next_rows, spec_response,
    unique_addresses, Response,
};
use crate::registry::{Registry, StoreError};

verus! {

/// One accepted connection as the handler sees it: the raw request line
/// and the peer address observed at accept time.
pub struct Request {
    pub line: Vec<u8>,
    pub addr: String,
}

/// The registry rows after the requests have been handled in order.
pub open spec fn spec_run_rows(
    rows: Multiset<Seq<char>>,
    events: Seq<Request>,
    key: Seq<u8>,
) -> Multiset<Seq<char>>
    decreases events.len(),
{
    if events.len() == 0 {
        rows
    } else {
        spec_run_rows(
            spec_next_rows(rows, events[0].line@, key, events[0].addr@),
            events.drop_first(),
            key,
        )
    }
}

/// The answers sent back, one per request, in the same order.
pub open spec fn spec_run_responses(
    rows: Multiset<Seq<char>>,
    events: Seq<Request>,
    key: Seq<u8>,
) -> Seq<Option<Response>>
    decreases events.len(),
{
    if events.len() == 0 {
        Seq::empty()
    } else {
        seq![spec_response(rows, events[0].line@, key, events[0].addr@)] + spec_run_responses(
            spec_next_rows(rows, events[0].line@, key, events[0].addr@),
            events.drop_first(),
            key,
        )
    }
}

/// There is one answer per request.
pub proof fn lemma_run_responses_len(
    rows: Multiset<Seq<char>>,
    events: Seq<Request>,
    key: Seq<u8>,
)
    ensures
        spec_run_responses(rows, events, key).len() == events.len(),
    decreases events.len(),
{
    if events.len() > 0 {
        lemma_run_responses_len(
            spec_next_rows(rows, events[0].line@, key, events[0].addr@),
            events.drop_first(),
            key,
        );
    }
}

proof fn lemma_run_snoc(rows: Multiset<Seq<char>>, events: Seq<Request>, key: Seq<u8>, e: Request)
    ensures
        spec_run_rows(rows, events.push(e), key) == spec_next_rows(
            spec_run_rows(rows, events, key),
            e.line@,
            key,
            e.addr@,
        ),
        spec_run_responses(rows, events.push(e), key) == spec_run_responses(
            rows,
            events,
            key,
        ).push(spec_response(spec_run_rows(rows, events, key), e.line@, key, e.addr@)),
    decreases events.len(),
{
    let one = events.push(e);
    if events.len() == 0 {
        let rows1 = spec_next_rows(rows, e.line@, key, e.addr@);
        assert(one[0] == e);
        assert(one.drop_first() =~= Seq::<Request>::empty());
        assert(spec_run_rows(rows, events, key) == rows);
        assert(spec_run_responses(rows, events, key) == Seq::<Option<Response>>::empty());
        assert(spec_run_rows(rows1, one.drop_first(), key) == rows1);
        assert(spec_run_responses(rows1, one.drop_first(), key) == Seq::<
            Option<Response>,
        >::empty());
        assert(spec_run_rows(rows, one, key) == spec_run_rows(rows1, one.drop_first(), key));
        assert(spec_run_responses(rows, one, key) == seq![
            spec_response(rows, e.line@, key, e.addr@),
        ] + spec_run_responses(rows1, one.drop_first(), key));
        assert(spec_run_responses(rows, one, key) =~= spec_run_responses(rows, events, key).push(
            spec_response(spec_run_rows(rows, events, key), e.line@, key, e.addr@),
        ));
    } else {
        let e0 = events[0];
        let rows1 = spec_next_rows(rows, e0.line@, key, e0.addr@);
        lemma_run_snoc(rows1, events.drop_first(), key, e);
        assert(one[0] == e0);
        assert(one.drop_first() =~= events.drop_first().push(e));
        assert(spec_run_rows(rows, one, key) == spec_run_rows(rows1, one.drop_first(), key));
        assert(spec_run_responses(rows, one, key) == seq![
            spec_response(rows, e0.line@, key, e0.addr@),
        ] + spec_run_responses(rows1, one.drop_first(), key));
        assert(spec_run_rows(rows, events, key) == spec_run_rows(
            rows1,
            events.drop_first(),
            key,
        ));
        assert(spec_run_responses(rows, events, key) == seq![
            spec_response(rows, e0.line@, key, e0.addr@),
        ] + spec_run_responses(rows1, events.drop_first(), key));
        assert(spec_run_responses(rows, one, key) =~= spec_run_responses(rows, events, key).push(
            spec_response(spec_run_rows(rows, events, key), e.line@, key, e.addr@),
        ));
    }
}

/// Handles a batch of requests in admission order against the registry,
/// returning the answer for each. A store failure ends the batch early:
/// the registry is then exactly as if only some prefix had been handled,
/// since a failed statement changes nothing. Only an authenticated `JOIN`
/// touches the store at all, so a batch in which no line authenticates is
/// answered whole.
pub fn run_server(reg: &mut Registry, events: &Vec<Request>, key: &[u8]) -> (r: Result<
    Vec<Option<Response>>,
    StoreError,
>)
    ensures
        r matches Ok(resps) ==> resps@ == spec_run_responses(old(reg)@, events@, key@)
            && final(reg)@ == spec_run_rows(old(reg)@, events@, key@),
        r is Err ==> exists|k: int|
            0 <= k <= events@.len() && final(reg)@ == spec_run_rows(
                old(reg)@,
                #[trigger] events@.take(k),
                key@,
            ),
        (forall|i: int|
            0 <= i < events@.len() ==> !spec_auth(trimmed(#[trigger] events@[i].line@), key@))
            ==> r is Ok,
{
    let mut resps: Vec<Option<Response>> = Vec::new();
    let n = events.len();
    let mut i: usize = 0;
    proof {
        assert(events@.take(0) =~= Seq::<Request>::empty());
        assert(resps@ =~= spec_run_responses(old(reg)@, events@.take(0), key@));
    }
    while i < n
        invariant
            0 <= i <= n,
            n == events@.len(),
            reg@ == spec_run_rows(old(reg)@, events@.take(i as int), key@),
            resps@ == spec_run_responses(old(reg)@, events@.take(i as int), key@),
        decreases n - i,
    {
        let e = &events[i];
        let res = handle_line(reg, e.line.as_slice(), key, e.addr.as_str());
        proof {
            assert(events@.take(i + 1) =~= events@.take(i as int).push(events@[i as int]));
            lemma_run_snoc(old(reg)@, events@.take(i as int), key@, events@[i as int]);
        }
        match res {
            Ok(resp) => {
                resps.push(resp);
                i = i + 1;
            },
            Err(_) => {
                assert(reg@ == spec_run_rows(old(reg)@, events@.take(i as int), key@));
                assert(spec_auth(trimmed(events@[i as int].line@), key@));
                return Err(StoreError);
            },
        }
    }
    proof {
        assert(events@.take(n as int) =~= events@);
    }
    Ok(resps)
}

/// A whole batch of requests, in whatever order the lock admits them,
/// preserves the registry invariant that no address has two rows.
pub proof fn lemma_run_preserves_uniqueness(
    rows: Multiset<Seq<char>>,
    events: Seq<Request>,
    key: Seq<u8>,
)
    requires
        unique_addresses(rows),
    ensures
        unique_addresses(spec_run_rows(rows, events, key)),
    decreases events.len(),
{
    if events.len() > 0 {
        let rows1 = spec_next_rows(rows, events[0].line@, key, events[0].addr@);
        lemma_handle_preserves_uniqueness(rows, events[0].line@, key, events[0].addr@);
        lemma_run_preserves_uniqueness(rows1, events.drop_first(), key);
    }
}

/// Authenticated `JOIN` requests from an address that already has a row
/// are all answered `Server already exists!` and leave the registry
/// exactly as it was, however many arrive.
pub proof fn lemma_known_address_stays(
    rows: Multiset<Seq<char>>,
    events: Seq<Request>,
    key: Seq<u8>,
    addr: Seq<char>,
)
    requires
        forall|i: int|
            0 <= i < events.len() ==> spec_auth(trimmed(#[trigger] events[i].line@), key),
        forall|i: int| 0 <= i < events.len() ==> #[trigger] events[i].addr@ == addr,
        rows.contains(addr),
    ensures
        spec_run_rows(rows, events, key) == rows,
        forall|i: int|
            0 <= i < events.len() ==> #[trigger] spec_run_responses(rows, events, key)[i]
                == Some(Response::AlreadyExists),
    decreases events.len(),
{
    if events.len() > 0 {
        let e0 = events[0];
        let tail = events.drop_first();
        assert(spec_next_rows(rows, e0.line@, key, e0.addr@) == rows);
        assert(spec_response(rows, e0.line@, key, e0.addr@) == Some(Response::AlreadyExists));
        assert(forall|i: int| 0 <= i < tail.len() ==> tail[i] == events[i + 1]);
        lemma_known_address_stays(rows, tail, key, addr);
        lemma_run_responses_len(rows, tail, key);
        assert(spec_run_responses(rows, events, key) == seq![
            spec_response(rows, e0.line@, key, e0.addr@),
        ] + spec_run_responses(spec_next_rows(rows, e0.line@, key, e0.addr@), tail, key));
        assert forall|i: int|
            0 <= i < events.len() implies #[trigger] spec_run_responses(rows, events, key)[i]
            == Some(Response::AlreadyExists) by {
            if i > 0 {
                assert(spec_run_responses(rows, tail, key)[i - 1] == Some(
                    Response::AlreadyExists,
                ));
            }
        }
    }
}

/// However many authenticated `JOIN` requests one new address sends
/// concurrently, the lock admits them in some order; the first is
/// answered `Swam has been joined!`, every later one `Server already
/// exists!`, and the registry ends with exactly one more row for the
/// address.
pub proof fn lemma_same_address_joins_once(
    rows: Multiset<Seq<char>>,
    events: Seq<Request>,
    key: Seq<u8>,
    addr: Seq<char>,
)
    requires
        events.len() > 0,
        forall|i: int|
            0 <= i < events.len() ==> spec_auth(trimmed(#[trigger] events[i].line@), key),
        forall|i: int| 0 <= i < events.len() ==> #[trigger] events[i].addr@ == addr,
        !rows.contains(addr),
    ensures
        spec_run_rows(rows, events, key) == rows.insert(addr),
        spec_run_rows(rows, events, key).count(addr) == rows.count(addr) + 1,
        spec_run_responses(rows, events, key)[0] == Some(Response::Joined),
        forall|i: int|
            1 <= i < events.len() ==> #[trigger] spec_run_responses(rows, events, key)[i]
                == Some(Response::AlreadyExists),
{
    broadcast use vstd::multiset::group_multiset_axioms;

    let e0 = events[0];
    let tail = events.drop_first();
    let rows1 = rows.insert(addr);
    assert(spec_response(rows, e0.line@, key, e0.addr@) == Some(Response::Joined));
    assert(spec_next_rows(rows, e0.line@, key, e0.addr@) == rows1);
    assert(forall|i: int| 0 <= i < tail.len() ==> tail[i] == events[i + 1]);
    assert(rows1.contains(addr));
    lemma_known_address_stays(rows1, tail, key, addr);
    lemma_run_responses_len(rows1, tail, key);
    assert(spec_run_responses(rows, events, key) == seq![
        spec_response(rows, e0.line@, key, e0.addr@),
    ] + spec_run_responses(spec_next_rows(rows, e0.line@, key, e0.addr@), tail, key));
    assert forall|i: int|
        1 <= i < events.len() implies #[trigger] spec_run_responses(rows, events, key)[i]
        == Some(Response::AlreadyExists) by {
        assert(spec_run_responses(rows1, tail, key)[i - 1] == Some(Response::AlreadyExists));
    }
}

/// N authenticated `JOIN` requests from N distinct addresses, none yet
/// registered, each succeed exactly once whatever order the lock admits
/// them in: every answer is `Swam has been joined!`, every address ends
/// with exactly one more row, an address not among them keeps its rows,
/// and the registry grows by exactly N rows.
pub proof fn lemma_fresh_joins_all_succeed(
    rows: Multiset<Seq<char>>,
    events: Seq<Request>,
    key: Seq<u8>,
)
    requires
        forall|i: int|
            0 <= i < events.len() ==> spec_auth(trimmed(#[trigger] events[i].line@), key),
        forall|i: int, j: int|
            0 <= i < j < events.len() ==> events[i].addr@ != events[j].addr@,
        forall|i: int| 0 <= i < events.len() ==> !rows.contains(#[trigger] events[i].addr@),
    ensures
        spec_run_responses(rows, events, key).len() == events.len(),
        forall|i: int|
            0 <= i < events.len() ==> #[trigger] spec_run_responses(rows, events, key)[i]
                == Some(Response::Joined),
        forall|i: int|
            0 <= i < events.len() ==> #[trigger] spec_run_rows(rows, events, key).count(
                events[i].addr@,
            ) == rows.count(events[i].addr@) + 1,
        forall|a: Seq<char>|
            (forall|i: int| 0 <= i < events.len() ==> events[i].addr@ != a)
                ==> #[trigger] spec_run_rows(rows, events, key).count(a) == rows.count(a),
        spec_run_rows(rows, events, key).len() == rows.len() + events.len(),
    decreases events.len(),
{
    broadcast use vstd::multiset::group_multiset_axioms;

    lemma_run_responses_len(rows, events, key);
    if events.len() > 0 {
        let e0 = events[0];
        let tail = events.drop_first();
        let rows1 = spec_next_rows(rows, e0.line@, key, e0.addr@);
        assert(spec_response(rows, e0.line@, key, e0.addr@) == Some(Response::Joined));
        assert(rows1 == rows.insert(e0.addr@));
        assert(forall|i: int|
            0 <= i < tail.len() ==> tail[i] == events[i + 1]);
        assert forall|i: int| 0 <= i < tail.len() implies !rows1.contains(
            #[trigger] tail[i].addr@,
        ) by {
            assert(tail[i].addr@ != e0.addr@);
            assert(rows1.count(tail[i].addr@) == rows.count(tail[i].addr@));
        }
        lemma_fresh_joins_all_succeed(rows1, tail, key);
        assert forall|i: int|
            0 <= i < events.len() implies #[trigger] spec_run_responses(rows, events, key)[i]
            == Some(Response::Joined) by {
            if i > 0 {
                assert(spec_run_responses(rows1, tail, key)[i - 1] == Some(Response::Joined));
            }
        }
        assert forall|i: int|
            0 <= i < events.len() implies #[trigger] spec_run_rows(rows, events, key).count(
            events[i].addr@,
        ) == rows.count(events[i].addr@) + 1 by {
            if i == 0 {
                assert(forall|j: int| 0 <= j < tail.len() ==> tail[j].addr@ != e0.addr@);
                assert(spec_run_rows(rows1, tail, key).count(e0.addr@) == rows1.count(
                    e0.addr@,
                ));
            } else {
                assert(rows1.count(events[i].addr@) == rows.count(events[i].addr@));
                assert(spec_run_rows(rows1, tail, key).count(tail[i - 1].addr@) == rows1.count(
                    tail[i - 1].addr@,
                ) + 1);
            }
        }
        assert forall|a: Seq<char>|
            (forall|i: int| 0 <= i < events.len() ==> events[i].addr@ != a)
                implies #[trigger] spec_run_rows(rows, events, key).count(a) == rows.count(a) by {
            assert(e0.addr@ != a);
            assert(forall|i: int| 0 <= i < tail.len() ==> tail[i].addr@ != a);
            assert(spec_run_rows(rows1, tail, key).count(a) == rows1.count(a));
            assert(rows1.count(a) == rows.count(a));
        }
    }
}

} // verus!

