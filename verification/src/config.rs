//! The persisted role configuration: a plain-text file of `key=value` lines
//! with the keys `master_ip_address` and `slave_port`. A process that finds
//! the file starts as a member; a process that does not becomes the master.

use vstd::prelude::*;

use crate::bytes::{find, find_byte, bytes_eq, lemma_find_byte};

verus! {

/// The port a member listens on when the configuration names none that
/// parses.
pub const DEFAULT_SLAVE_PORT: u32 = 8777;

/// The well-known port a master binds first.
pub const MASTER_PORT: u32 = 8777;

/// An ASCII decimal digit.
pub open spec fn is_digit(b: u8) -> bool {
    48 <= b <= 57
}

pub open spec fn all_digits(s: Seq<u8>) -> bool {
    forall|i: int| 0 <= i < s.len() ==> is_digit(#[trigger] s[i])
}

/// The number written by a sequence of decimal digits, most significant
/// first.
pub open spec fn digits_val(s: Seq<u8>) -> nat
    decreases s.len(),
{
    if s.len() == 0 {
        0
    } else {
        digits_val(s.drop_last()) * 10 + (s.last() - 48) as nat
    }
}

/// The digits of a number's notation, after any single leading `+`.
pub open spec fn digits_part(s: Seq<u8>) -> Seq<u8> {
    if s.len() > 0 && s[0] == 43 {
        s.drop_first()
    } else {
        s
    }
}

/// The unsigned decimal number a byte string denotes, exactly as `u32`
/// parsing accepts it: an optional leading `+`, then one or more digits,
/// and a value that fits in 32 bits.
pub open spec fn spec_parse_u32(s: Seq<u8>) -> Option<u32> {
    let d = digits_part(s);
    if d.len() > 0 && all_digits(d) && digits_val(d) <= u32::MAX {
        Some(digits_val(d) as u32)
    } else {
        None
    }
}

proof fn lemma_digits_val_take_le(d: Seq<u8>, k: int)
    requires
        0 <= k <= d.len(),
    ensures
        digits_val(d.take(k)) <= digits_val(d),
    decreases d.len() - k,
{
    if k < d.len() {
        lemma_digits_val_take_le(d, k + 1);
        assert(d.take(k + 1).drop_last() =~= d.take(k));
        assert(digits_val(d.take(k + 1)) == digits_val(d.take(k)) * 10 + (d[k] - 48) as nat);
    } else {
        assert(d.take(k) =~= d);
    }
}

/// Parses a `u32` from its decimal notation; `None` on any other input.
pub fn parse_u32(s: &[u8]) -> (r: Option<u32>)
    ensures
        r == spec_parse_u32(s@),
{
    let mut start: usize = 0;
    if s.len() > 0 && s[0] == 43 {
        start = 1;
    }
    let n = s.len();
    if start == n {
        return None;
    }
    let ghost d = digits_part(s@);
    proof {
        assert(d =~= s@.subrange(start as int, n as int));
    }
    let mut val: u64 = 0;
    let mut i: usize = start;
    while i < n
        invariant
            start <= i <= n,
            n == s@.len(),
            start < n,
            d == digits_part(s@),
            d == s@.subrange(start as int, n as int),
            val == digits_val(d.take(i - start)),
            val <= u32::MAX,
            all_digits(d.take(i - start)),
        decreases n - i,
    {
        let b = s[i];
        if b < 48 || b > 57 {
            assert(!is_digit(d[i - start]));
            return None;
        }
        let next: u64 = val * 10 + (b - 48) as u64;
        proof {
            assert(d.take(i - start + 1).drop_last() =~= d.take(i - start));
            assert(d.take(i - start + 1).last() == d[i - start]);
            assert(next == digits_val(d.take(i - start + 1)));
        }
        if next > u32::MAX as u64 {
            proof {
                lemma_digits_val_take_le(d, i - start + 1);
            }
            return None;
        }
        val = next;
        i = i + 1;
    }
    proof {
        assert(d.take(n - start) =~= d);
    }
    Some(val as u32)
}

/// The decimal notation of `n`, most significant digit first.
pub open spec fn dec_digits(n: nat) -> Seq<u8>
    decreases n,
{
    if n < 10 {
        seq![(48 + n) as u8]
    } else {
        dec_digits(n / 10).push((48 + n % 10) as u8)
    }
}

/// Appends the decimal notation of `n` to `out`.
pub fn push_dec(n: u32, out: &mut Vec<u8>)
    ensures
        final(out)@ == old(out)@ + dec_digits(n as nat),
    decreases n,
{
    if n < 10 {
        out.push(48 + n as u8);
        assert(out@ =~= old(out)@ + dec_digits(n as nat));
    } else {
        push_dec(n / 10, out);
        out.push(48 + (n % 10) as u8);
        assert(out@ =~= old(out)@ + dec_digits(n as nat));
    }
}

proof fn lemma_dec_digits_wf(n: nat)
    ensures
        dec_digits(n).len() > 0,
        all_digits(dec_digits(n)),
    decreases n,
{
    if n < 10 {
        assert(is_digit(dec_digits(n)[0]));
    } else {
        lemma_dec_digits_wf(n / 10);
        let d = dec_digits(n / 10);
        let whole = d.push((48 + n % 10) as u8);
        assert forall|i: int| 0 <= i < whole.len() implies is_digit(#[trigger] whole[i]) by {
            if i < d.len() {
                assert(is_digit(d[i]));
            }
        }
    }
}

proof fn lemma_dec_digits_val(n: nat)
    ensures
        digits_val(dec_digits(n)) == n,
    decreases n,
{
    if n < 10 {
        assert(dec_digits(n).drop_last() =~= Seq::<u8>::empty());
        assert(dec_digits(n).last() == (48 + n) as u8);
        assert(digits_val(Seq::<u8>::empty()) == 0);
    } else {
        lemma_dec_digits_val(n / 10);
        let d = dec_digits(n / 10);
        let whole = d.push((48 + n % 10) as u8);
        assert(whole.drop_last() =~= d);
        assert(digits_val(whole) == digits_val(d) * 10 + (whole.last() - 48) as nat);
    }
}

/// A line with a carriage return left by a `\r\n` ending loses it.
pub open spec fn strip_cr(l: Seq<u8>) -> Seq<u8> {
    if l.len() > 0 && l.last() == 13 {
        l.drop_last()
    } else {
        l
    }
}

/// The lines of `s`: split at `\n`, each losing one trailing `\r`, with no
/// empty line produced by a final terminator.
pub open spec fn spec_lines(s: Seq<u8>) -> Seq<Seq<u8>>
    decreases s.len(),
    via spec_lines_dec
{
    if s.len() == 0 {
        Seq::empty()
    } else {
        match find_byte(s, 10) {
            None => seq![s],
            Some(i) => seq![strip_cr(s.take(i))] + spec_lines(s.skip(i + 1)),
        }
    }
}

#[via_fn]
proof fn spec_lines_dec(s: Seq<u8>) {
    lemma_find_byte(s, 10);
}

/// The bytes of the key `master_ip_address`.
pub open spec fn key_master_ip() -> Seq<u8> {
    seq![
        'm' as u8, 'a' as u8, 's' as u8, 't' as u8, 'e' as u8, 'r' as u8, '_' as u8,
        'i' as u8, 'p' as u8, '_' as u8, 'a' as u8, 'd' as u8, 'd' as u8, 'r' as u8,
        'e' as u8, 's' as u8, 's' as u8,
    ]
}

/// The bytes of the key `slave_port`.
pub open spec fn key_slave_port() -> Seq<u8> {
    seq![
        's' as u8, 'l' as u8, 'a' as u8, 'v' as u8, 'e' as u8, '_' as u8, 'p' as u8,
        'o' as u8, 'r' as u8, 't' as u8,
    ]
}

fn key_master_ip_bytes() -> (r: Vec<u8>)
    ensures
        r@ == key_master_ip(),
{
    let r: Vec<u8> = vec![
        'm' as u8, 'a' as u8, 's' as u8, 't' as u8, 'e' as u8, 'r' as u8, '_' as u8,
        'i' as u8, 'p' as u8, '_' as u8, 'a' as u8, 'd' as u8, 'd' as u8, 'r' as u8,
        'e' as u8, 's' as u8, 's' as u8,
    ];
    proof {
        assert(r@ =~= key_master_ip());
    }
    r
}

fn key_slave_port_bytes() -> (r: Vec<u8>)
    ensures
        r@ == key_slave_port(),
{
    let r: Vec<u8> = vec![
        's' as u8, 'l' as u8, 'a' as u8, 'v' as u8, 'e' as u8, '_' as u8, 'p' as u8,
        'o' as u8, 'r' as u8, 't' as u8,
    ];
    proof {
        assert(r@ =~= key_slave_port());
    }
    r
}

/// One configuration line folded into the accumulated `(address, port)`
/// pair: the part before the first `=` selects the key, the part after it
/// is the value, and a line without `=` or with an unknown key changes
/// nothing.
pub open spec fn spec_apply_line(acc: (Seq<u8>, u32), l: Seq<u8>) -> (Seq<u8>, u32) {
    match find_byte(l, 61) {
        None => acc,
        Some(i) => {
            let key = l.take(i);
            let val = l.skip(i + 1);
            if key == key_master_ip() {
                (val, acc.1)
            } else if key == key_slave_port() {
                match spec_parse_u32(val) {
                    Some(p) => (acc.0, p),
                    None => acc,
                }
            } else {
                acc
            }
        },
    }
}

pub open spec fn spec_fold_config(acc: (Seq<u8>, u32), ls: Seq<Seq<u8>>) -> (Seq<u8>, u32)
    decreases ls.len(),
{
    if ls.len() == 0 {
        acc
    } else {
        spec_fold_config(spec_apply_line(acc, ls[0]), ls.drop_first())
    }
}

proof fn lemma_fold_cons(acc: (Seq<u8>, u32), ls: Seq<Seq<u8>>)
    requires
        ls.len() > 0,
    ensures
        spec_fold_config(acc, ls) == spec_fold_config(spec_apply_line(acc, ls[0]), ls.drop_first()),
{
}

proof fn lemma_fold_empty(acc: (Seq<u8>, u32))
    ensures
        spec_fold_config(acc, Seq::<Seq<u8>>::empty()) == acc,
{
}

/// What a configuration file's bytes denote: the last `master_ip_address`
/// value (empty when none), and the last `slave_port` value that parses
/// (8777 when none does or none is given).
pub open spec fn spec_parse_config(s: Seq<u8>) -> (Seq<u8>, u32) {
    spec_fold_config((Seq::empty(), DEFAULT_SLAVE_PORT), spec_lines(s))
}

/// The persisted role configuration of a member.
pub struct Config {
    /// The master's address as recorded at join time.
    pub master_ip_address: Vec<u8>,
    /// The port this member prefers to listen on.
    pub slave_port: u32,
}

/// Folds one line into the accumulator held in `ip` and `port`.
fn apply_line(ip: &mut Vec<u8>, port: &mut u32, l: &[u8])
    ensures
        (final(ip)@, *final(port)) == spec_apply_line((old(ip)@, *old(port)), l@),
{
    let eq_pos = find(l, 61);
    proof {
        lemma_find_byte(l@, 61);
    }
    match eq_pos {
        None => {},
        Some(i) => {
            let llen = l.len();
            let key = &l[0..i];
            let val = &l[i + 1..llen];
            assert(key@ =~= l@.take(i as int));
            assert(val@ =~= l@.skip(i + 1));
            let mip = key_master_ip_bytes();
            let spt = key_slave_port_bytes();
            if bytes_eq(key, mip.as_slice()) {
                let mut v: Vec<u8> = Vec::new();
                v.extend_from_slice(val);
                assert(v@ =~= val@);
                *ip = v;
            } else if bytes_eq(key, spt.as_slice()) {
                match parse_u32(val) {
                    Some(p) => {
                        *port = p;
                    },
                    None => {},
                }
            }
        },
    }
}

/// Reads a configuration out of the file's bytes. Every line is folded in
/// order, so a later assignment to a key wins; absent or unparseable
/// values take their documented defaults.
pub fn parse_config(content: &[u8]) -> (c: Config)
    ensures
        (c.master_ip_address@, c.slave_port) == spec_parse_config(content@),
{
    let mut ip: Vec<u8> = Vec::new();
    let mut port: u32 = DEFAULT_SLAVE_PORT;
    let n = content.len();
    let mut p: usize = 0;
    proof {
        assert(content@.skip(0) =~= content@);
    }
    while p < n
        invariant
            0 <= p <= n,
            n == content@.len(),
            spec_fold_config((ip@, port), spec_lines(content@.skip(p as int)))
                == spec_parse_config(content@),
        decreases n - p,
    {
        let rest = &content[p..n];
        proof {
            assert(rest@ =~= content@.skip(p as int));
            lemma_find_byte(rest@, 10);
        }
        match find(rest, 10) {
            None => {
                proof {
                    let acc = (ip@, port);
                    let ls = spec_lines(rest@);
                    assert(ls == seq![rest@]);
                    assert(ls[0] == rest@);
                    assert(ls.drop_first() =~= Seq::<Seq<u8>>::empty());
                    lemma_fold_cons(acc, ls);
                    lemma_fold_empty(spec_apply_line(acc, rest@));
                }
                apply_line(&mut ip, &mut port, rest);
                return Config { master_ip_address: ip, slave_port: port };
            },
            Some(k) => {
                let mut end = p + k;
                if k > 0 && rest[k - 1] == 13 {
                    end = end - 1;
                }
                let line = &content[p..end];
                proof {
                    assert(rest@.take(k as int) =~= content@.subrange(
                        p as int,
                        (p + k) as int,
                    ));
                    assert(line@ =~= strip_cr(rest@.take(k as int)));
                    assert(rest@.skip(k + 1) =~= content@.skip((p + k + 1) as int));
                    let ls = spec_lines(rest@);
                    assert(ls == seq![line@] + spec_lines(content@.skip((p + k + 1) as int)));
                    assert(ls[0] == line@);
                    assert(ls.drop_first() =~= spec_lines(content@.skip((p + k + 1) as int)));
                    lemma_fold_cons((ip@, port), ls);
                }
                apply_line(&mut ip, &mut port, line);
                p = p + k + 1;
            },
        }
    }
    proof {
        assert(content@.skip(p as int) =~= Seq::<u8>::empty());
        lemma_fold_empty((ip@, port));
    }
    Config { master_ip_address: ip, slave_port: port }
}

/// The bytes a fresh configuration file holds for a member at `ip` and
/// `port`: one line per key, joined by a single newline.
pub open spec fn spec_render_config(ip: Seq<u8>, port: nat) -> Seq<u8> {
    key_master_ip() + seq![61u8] + ip + seq![10u8] + key_slave_port() + seq![61u8]
        + dec_digits(port)
}

/// Renders the configuration file a member persists after joining.
pub fn render_config(ip: &[u8], port: u16) -> (r: Vec<u8>)
    ensures
        r@ == spec_render_config(ip@, port as nat),
{
    let mut out = key_master_ip_bytes();
    out.push(61);
    out.extend_from_slice(ip);
    out.push(10);
    let tail = key_slave_port_bytes();
    out.extend_from_slice(tail.as_slice());
    out.push(61);
    push_dec(port as u32, &mut out);
    proof {
        assert(out@ =~= spec_render_config(ip@, port as nat));
    }
    out
}

/// The configuration the join client persists reads back as exactly the
/// member it recorded: rendering an address and port and parsing the
/// result returns them unchanged, provided the address holds no line
/// terminator.
pub proof fn lemma_config_round_trip(ip: Seq<u8>, port: nat)
    requires
        port <= u32::MAX,
        forall|i: int| 0 <= i < ip.len() ==> (#[trigger] ip[i]) != 10 && ip[i] != 13,
    ensures
        spec_parse_config(spec_render_config(ip, port)) == (ip, port as u32),
{
    let r = spec_render_config(ip, port);
    let digits = dec_digits(port);
    lemma_dec_digits_wf(port);
    lemma_dec_digits_val(port);
    let line1 = key_master_ip() + seq![61u8] + ip;
    let line2 = key_slave_port() + seq![61u8] + digits;
    assert(r =~= line1 + seq![10u8] + line2);
    assert(key_master_ip().len() == 17);
    assert(key_slave_port().len() == 10);
    let nl = line1.len() as int;
    assert(line1.len() == 18 + ip.len());
    assert(line2.len() == 11 + digits.len());
    assert(r[nl] == 10);
    assert(forall|j: int| 0 <= j < nl ==> r[j] == line1[j]);
    assert(forall|j: int| 0 <= j < 17 ==> line1[j] == key_master_ip()[j]);
    assert(line1[17] == 61);
    assert(forall|j: int| 18 <= j < nl ==> line1[j] == ip[j - 18]);
    assert(forall|j: int| 0 <= j < 10 ==> line2[j] == key_slave_port()[j]);
    assert(line2[10] == 61);
    assert(forall|j: int| 11 <= j < line2.len() ==> line2[j] == digits[j - 11]);
    assert(forall|j: int| 0 <= j < 17 ==> key_master_ip()[j] != 10);
    assert(forall|j: int| 0 <= j < 10 ==> key_slave_port()[j] != 10);
    lemma_find_byte(r, 10);
    match find_byte(r, 10) {
        None => {
            assert(false);
        },
        Some(k) => {
            assert(forall|j: int| 0 <= j < nl ==> r[j] != 10);
            assert(k == nl);
            assert(r.take(nl) =~= line1);
            assert(line1.len() > 0 && line1.last() != 13);
            assert(strip_cr(line1) == line1);
            assert(r.skip(nl + 1) =~= line2);
            lemma_find_byte(line2, 10);
            match find_byte(line2, 10) {
                Some(m) => {
                    assert(line2[m] == 10);
                    if m >= 11 {
                        assert(is_digit(digits[m - 11]));
                    }
                    assert(false);
                },
                None => {},
            }
            assert(spec_lines(line2) == seq![line2]);
            let ls = spec_lines(r);
            assert(ls == seq![line1] + seq![line2]);
            assert(ls[0] == line1 && ls[1] == line2);

            let acc0 = (Seq::<u8>::empty(), DEFAULT_SLAVE_PORT);
            lemma_find_byte(line1, 61);
            match find_byte(line1, 61) {
                None => {
                    assert(line1[17] == 61);
                    assert(false);
                },
                Some(k1) => {
                    assert(forall|j: int| 0 <= j < 17 ==> key_master_ip()[j] != 61);
                    assert(k1 == 17);
                    assert(line1.take(17) =~= key_master_ip());
                    assert(line1.skip(18) =~= ip);
                },
            }
            let acc1 = spec_apply_line(acc0, line1);
            assert(acc1 == (ip, DEFAULT_SLAVE_PORT));

            lemma_find_byte(line2, 61);
            match find_byte(line2, 61) {
                None => {
                    assert(line2[10] == 61);
                    assert(false);
                },
                Some(k2) => {
                    assert(forall|j: int| 0 <= j < 10 ==> key_slave_port()[j] != 61);
                    assert(k2 == 10);
                    assert(line2.take(10) =~= key_slave_port());
                    assert(line2.skip(11) =~= digits);
                },
            }
            assert(key_slave_port() != key_master_ip()) by {
                assert(key_slave_port().len() != key_master_ip().len());
            }
            assert(is_digit(digits[0]));
            assert(digits_part(digits) == digits);
            assert(spec_parse_u32(digits) == Some(port as u32));
            let acc2 = spec_apply_line(acc1, line2);
            assert(acc2 == (ip, port as u32));

            lemma_fold_cons(acc0, ls);
            assert(ls.drop_first() =~= seq![line2]);
            lemma_fold_cons(acc1, seq![line2]);
            assert(seq![line2].drop_first() =~= Seq::<Seq<u8>>::empty());
            lemma_fold_empty(acc2);
        },
    }
}

/// The two ways a process may start.
pub enum Role {
    /// No configuration was found: own the registry and accept joins.
    Master,
    /// A configuration was found: start as the member it records.
    Member { master_ip_address: Vec<u8>, slave_port: u32 },
}

/// Decides the starting role from the configuration file's presence: any
/// readable file, whatever it holds, makes the process a member; only its
/// absence makes it the master.
pub fn resolve_role(config: Option<Config>) -> (r: Role)
    ensures
        match config {
            None => r is Master,
            Some(c) => r matches Role::Member { master_ip_address, slave_port }
                && master_ip_address == c.master_ip_address && slave_port == c.slave_port,
        },
{
    match config {
        None => Role::Master,
        Some(c) => Role::Member {
            master_ip_address: c.master_ip_address,
            slave_port: c.slave_port,
        },
    }
}

impl Role {
    /// The port this role's listener binds first: the well-known master
    /// port for a master, the configured port for a member. A caller
    /// whose bind fails falls back to an ephemeral port rather than
    /// refusing to start.
    pub fn preferred_port(&self) -> (p: u32)
        ensures
            self is Master ==> p == MASTER_PORT,
            self matches Role::Member { master_ip_address, slave_port } ==> p == slave_port,
    {
        match self {
            Role::Master => MASTER_PORT,
            Role::Member { master_ip_address: _, slave_port } => *slave_port,
        }
    }
}

} // verus!
