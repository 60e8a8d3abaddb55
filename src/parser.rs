//! Decoding one line of the connection-tracking table.

use vstd::prelude::*;
use crate::connection::{Address, ConnState, Connection, Protocol};
use crate::text::{chars_of, has_prefix, is_lit, split_chars, split_on, split_words, strip_key, views, words};

verus! {

/// The address that `std`'s `Ipv6Addr` parser reads from `s`, as its 128-bit
/// value, or `None` where it rejects the text.
pub uninterp spec fn ipv6_of(s: Seq<char>) -> Option<u128>;

/// Relies on `<Ipv6Addr as FromStr>::from_str`: the outcome depends on the
/// text alone.
#[verifier::external_body]
fn parse_ipv6(text: &Vec<char>) -> (r: Option<u128>)
    ensures
        r == ipv6_of(text@),
{
    let s: String = text.iter().collect();
    s.parse::<core::net::Ipv6Addr>().ok().map(u128::from)
}

/// One octet of a dotted IPv4 address: one to three decimal digits, without a
/// leading zero unless the octet is `0`, of value at most 255.
pub open spec fn octet_of(g: Seq<char>) -> Option<u8> {
    if 1 <= g.len() <= 3 && (forall|i: int| 0 <= i < g.len() ==> is_digit(#[trigger] g[i])) && !(
    g.len() > 1 && g[0] == '0') && decimal(g) <= 255 {
        Some(decimal(g) as u8)
    } else {
        None
    }
}

/// A dotted IPv4 address: exactly four octets separated by `.`, read as a
/// 32-bit value with the first octet highest.
pub open spec fn ipv4_of(s: Seq<char>) -> Option<u32> {
    let gs = split_on(s, '.');
    if gs.len() == 4 && octet_of(gs[0]) is Some && octet_of(gs[1]) is Some && octet_of(gs[2]) is Some
        && octet_of(gs[3]) is Some {
        Some(
            (octet_of(gs[0])->0 as nat * 16777216 + octet_of(gs[1])->0 as nat * 65536 + octet_of(
                gs[2],
            )->0 as nat * 256 + octet_of(gs[3])->0 as nat) as u32,
        )
    } else {
        None
    }
}

/// What `std`'s `IpAddr` parser reads: a dotted IPv4 address where the text is
/// one, else an IPv6 address.
pub open spec fn ip_of(s: Seq<char>) -> Option<Address> {
    match ipv4_of(s) {
        Some(a) => Some(Address::V4(a)),
        None => match ipv6_of(s) {
            Some(b) => Some(Address::V6(b)),
            None => None,
        },
    }
}

fn parse_octet(g: &Vec<char>) -> (r: Option<u8>)
    ensures
        r == octet_of(g@),
{
    if g.len() == 0 || g.len() > 3 || (g.len() > 1 && g[0] == '0') {
        return None;
    }
    let mut v: u32 = 0;
    let mut i: usize = 0;
    while i < g.len()
        invariant
            g@.len() <= 3,
            i <= g@.len(),
            v == decimal(g@.take(i as int)),
            i == 0 ==> v == 0,
            i == 1 ==> v <= 9,
            i == 2 ==> v <= 99,
            v <= 999,
            forall|k: int| 0 <= k < i ==> is_digit(#[trigger] g@[k]),
        decreases g@.len() - i,
    {
        let c = g[i];
        if !('0' <= c && c <= '9') {
            assert(!is_digit(g@[i as int]));
            return None;
        }
        assert(g@.take(i + 1).drop_last() =~= g@.take(i as int));
        v = v * 10 + (c as u32 - '0' as u32);
        i = i + 1;
    }
    assert(g@.take(i as int) =~= g@);
    if v > 255 {
        None
    } else {
        Some(v as u8)
    }
}

/// Reads a dotted IPv4 address.
pub fn parse_ipv4(t: &Vec<char>) -> (r: Option<u32>)
    ensures
        r == ipv4_of(t@),
{
    let gs = split_chars(t, '.');
    let ghost v = views(gs@);
    if gs.len() != 4 {
        return None;
    }
    assert(v[0] == gs@[0]@ && v[1] == gs@[1]@ && v[2] == gs@[2]@ && v[3] == gs@[3]@);
    match (parse_octet(&gs[0]), parse_octet(&gs[1]), parse_octet(&gs[2]), parse_octet(&gs[3])) {
        (Some(a), Some(b), Some(c), Some(d)) => {
            let x = (a as u32) * 16777216 + (b as u32) * 65536 + (c as u32) * 256 + (d as u32);
            Some(x)
        },
        _ => None,
    }
}

/// Reads an IP address the way `std`'s `IpAddr` parser does.
pub fn parse_ip(text: &Vec<char>) -> (r: Option<Address>)
    ensures
        r == ip_of(text@),
{
    match parse_ipv4(text) {
        Some(a) => Some(Address::V4(a)),
        None => match parse_ipv6(text) {
            Some(b) => Some(Address::V6(b)),
            None => None,
        },
    }
}

pub open spec fn is_digit(c: char) -> bool {
    '0' <= c && c <= '9'
}

pub open spec fn digit_value(c: char) -> nat {
    (c as u32 - '0' as u32) as nat
}

/// The decimal number written by the digits `s`.
pub open spec fn decimal(s: Seq<char>) -> nat
    decreases s.len(),
{
    if s.len() == 0 {
        0
    } else {
        decimal(s.drop_last()) * 10 + digit_value(s.last())
    }
}

/// The text of an unsigned number without its optional leading `+`.
pub open spec fn unsigned_digits(s: Seq<char>) -> Seq<char> {
    if s.len() > 0 && s[0] == '+' {
        s.drop_first()
    } else {
        s
    }
}

/// A port as `u16`'s `FromStr` reads it: an optional `+`, then one or more
/// decimal digits whose value fits in 16 bits.
pub open spec fn port_of(s: Seq<char>) -> Option<u16> {
    let d = unsigned_digits(s);
    if d.len() > 0 && (forall|i: int| 0 <= i < d.len() ==> is_digit(#[trigger] d[i])) && decimal(d)
        <= 65535 {
        Some(decimal(d) as u16)
    } else {
        None
    }
}

proof fn lemma_decimal_grows(s: Seq<char>, i: int)
    requires
        0 <= i <= s.len(),
        forall|k: int| 0 <= k < s.len() ==> is_digit(#[trigger] s[k]),
    ensures
        decimal(s.take(i)) <= decimal(s),
    decreases s.len(),
{
    if i < s.len() {
        assert(s.drop_last().take(i) =~= s.take(i));
        lemma_decimal_grows(s.drop_last(), i);
    } else {
        assert(s.take(i) =~= s);
    }
}

/// Reads a port number.
pub fn parse_port(s: &Vec<char>) -> (r: Option<u16>)
    ensures
        r == port_of(s@),
{
    let start: usize = if s.len() > 0 && s[0] == '+' {
        1
    } else {
        0
    };
    let ghost d = unsigned_digits(s@);
    assert(d =~= s@.skip(start as int));
    if start >= s.len() {
        return None;
    }
    let mut v: u32 = 0;
    let mut i: usize = start;
    while i < s.len()
        invariant
            start <= i <= s@.len(),
            d == s@.skip(start as int),
            d == unsigned_digits(s@),
            v == decimal(d.take(i - start)),
            v <= 65535,
            forall|k: int| 0 <= k < i - start ==> is_digit(#[trigger] d[k]),
        decreases s@.len() - i,
    {
        let c = s[i];
        assert(d[i - start] == c);
        if !('0' <= c && c <= '9') {
            assert(!is_digit(d[i - start]));
            assert(!(forall|k: int| 0 <= k < d.len() ==> is_digit(#[trigger] d[k])));
            assert(port_of(s@) is None);
            return None;
        }
        let ghost pre = d.take(i - start);
        assert(d.take(i - start + 1).drop_last() =~= pre);
        assert(d.take(i - start + 1).last() == c);
        assert(decimal(d.take(i - start + 1)) == decimal(pre) * 10 + digit_value(c));
        v = v * 10 + (c as u32 - '0' as u32);
        i = i + 1;
        if v > 65535 {
            proof {
                lemma_decimal_grows_if_digits(d, i - start);
                assert(decimal(d.take(i - start)) > 65535);
                assert(port_of(s@) is None);
            }
            return None;
        }
    }
    assert(d.take(i - start) =~= d);
    Some(v as u16)
}

proof fn lemma_decimal_grows_if_digits(d: Seq<char>, i: int)
    requires
        0 <= i <= d.len(),
        forall|k: int| 0 <= k < i ==> is_digit(#[trigger] d[k]),
    ensures
        (forall|k: int| 0 <= k < d.len() ==> is_digit(#[trigger] d[k])) ==> decimal(d.take(i))
            <= decimal(d),
{
    if forall|k: int| 0 <= k < d.len() ==> is_digit(#[trigger] d[k]) {
        lemma_decimal_grows(d, i);
    }
}

/// The protocol a bare token names.
pub open spec fn proto_token(t: Seq<char>) -> Option<Protocol> {
    if t == "tcp"@ {
        Some(Protocol::Tcp)
    } else if t == "udp"@ {
        Some(Protocol::Udp)
    } else {
        None
    }
}

/// The state a bare token names; only the five recognized names count.
pub open spec fn state_token(t: Seq<char>) -> Option<ConnState> {
    if t == "ESTABLISHED"@ {
        Some(ConnState::Established)
    } else if t == "SYN_SENT"@ {
        Some(ConnState::SynSent)
    } else if t == "SYN_RECV"@ {
        Some(ConnState::SynRecv)
    } else if t == "FIN_WAIT"@ {
        Some(ConnState::FinWait)
    } else if t == "TIME_WAIT"@ {
        Some(ConnState::TimeWait)
    } else {
        None
    }
}

/// The address of a `key=<addr>` token whose address parses.
pub open spec fn addr_token(t: Seq<char>, key: Seq<char>) -> Option<Address> {
    if has_prefix(t, key) {
        ip_of(t.skip(key.len() as int))
    } else {
        None
    }
}

/// The port of a `key=<port>` token whose port parses.
pub open spec fn port_token(t: Seq<char>, key: Seq<char>) -> Option<u16> {
    if has_prefix(t, key) {
        port_of(t.skip(key.len() as int))
    } else {
        None
    }
}

/// What the first token of `ts` that `f` accepts gives.
pub open spec fn first_match<A>(ts: Seq<Seq<char>>, f: spec_fn(Seq<char>) -> Option<A>) -> Option<A>
    decreases ts.len(),
{
    if ts.len() == 0 {
        None
    } else {
        match first_match(ts.drop_last(), f) {
            Some(x) => Some(x),
            None => f(ts.last()),
        }
    }
}

/// The connection that the tokens `ts` describe: each field is taken from the
/// first token of its shape that yields a value; the five required fields
/// must all be found, and the state falls back to `Unknown`.
pub open spec fn connection_of(ts: Seq<Seq<char>>) -> Option<Connection> {
    let proto = first_match(ts, |t| proto_token(t));
    let src = first_match(ts, |t| addr_token(t, "src="@));
    let dst = first_match(ts, |t| addr_token(t, "dst="@));
    let sport = first_match(ts, |t| port_token(t, "sport="@));
    let dport = first_match(ts, |t| port_token(t, "dport="@));
    let state = first_match(ts, |t| state_token(t));
    if proto is Some && src is Some && dst is Some && sport is Some && dport is Some {
        Some(
            Connection {
                proto: proto->0,
                src_ip: src->0,
                src_port: sport->0,
                dst_ip: dst->0,
                dst_port: dport->0,
                state: match state {
                    Some(s) => s,
                    None => ConnState::Unknown,
                },
            },
        )
    } else {
        None
    }
}

/// What one table line decodes to: nothing for a line of fewer than five
/// words, else the connection its words describe.
pub open spec fn parse_line_spec(line: Seq<char>) -> Option<Connection> {
    let ts = words(line);
    if ts.len() < 5 {
        None
    } else {
        connection_of(ts)
    }
}

fn token_proto(t: &Vec<char>) -> (r: Option<Protocol>)
    ensures
        r == proto_token(t@),
{
    if is_lit(t, "tcp") {
        Some(Protocol::Tcp)
    } else if is_lit(t, "udp") {
        Some(Protocol::Udp)
    } else {
        None
    }
}

fn token_state(t: &Vec<char>) -> (r: Option<ConnState>)
    ensures
        r == state_token(t@),
{
    if is_lit(t, "ESTABLISHED") {
        Some(ConnState::Established)
    } else if is_lit(t, "SYN_SENT") {
        Some(ConnState::SynSent)
    } else if is_lit(t, "SYN_RECV") {
        Some(ConnState::SynRecv)
    } else if is_lit(t, "FIN_WAIT") {
        Some(ConnState::FinWait)
    } else if is_lit(t, "TIME_WAIT") {
        Some(ConnState::TimeWait)
    } else {
        None
    }
}

fn token_addr(t: &Vec<char>, key: &str) -> (r: Option<Address>)
    ensures
        r == addr_token(t@, key@),
{
    match strip_key(t, key) {
        Some(rest) => parse_ip(&rest),
        None => None,
    }
}

fn token_port(t: &Vec<char>, key: &str) -> (r: Option<u16>)
    ensures
        r == port_token(t@, key@),
{
    match strip_key(t, key) {
        Some(rest) => parse_port(&rest),
        None => None,
    }
}

/// Decodes one line of the table, or gives `None` where a required field is
/// missing or the line has fewer than five words.
pub fn parse_conntrack_line(line: &str) -> (r: Option<Connection>)
    ensures
        r == parse_line_spec(line@),
{
    let chars = chars_of(line);
    let parts = split_words(&chars);
    if parts.len() < 5 {
        return None;
    }
    let ghost ts = views(parts@);
    let mut proto: Option<Protocol> = None;
    let mut src: Option<Address> = None;
    let mut dst: Option<Address> = None;
    let mut sport: Option<u16> = None;
    let mut dport: Option<u16> = None;
    let mut state: Option<ConnState> = None;
    let mut i: usize = 0;
    while i < parts.len()
        invariant
            i <= parts@.len(),
            ts == views(parts@),
            ts.len() == parts@.len(),
            proto == first_match(ts.take(i as int), |t| proto_token(t)),
            src == first_match(ts.take(i as int), |t| addr_token(t, "src="@)),
            dst == first_match(ts.take(i as int), |t| addr_token(t, "dst="@)),
            sport == first_match(ts.take(i as int), |t| port_token(t, "sport="@)),
            dport == first_match(ts.take(i as int), |t| port_token(t, "dport="@)),
            state == first_match(ts.take(i as int), |t| state_token(t)),
        decreases parts@.len() - i,
    {
        let p = &parts[i];
        assert(ts.take(i + 1).drop_last() =~= ts.take(i as int));
        assert(ts.take(i + 1).last() == p@);
        if proto.is_none() {
            proto = token_proto(p);
        }
        if src.is_none() {
            src = token_addr(p, "src=");
        }
        if dst.is_none() {
            dst = token_addr(p, "dst=");
        }
        if sport.is_none() {
            sport = token_port(p, "sport=");
        }
        if dport.is_none() {
            dport = token_port(p, "dport=");
        }
        if state.is_none() {
            state = token_state(p);
        }
        i = i + 1;
    }
    assert(ts.take(i as int) =~= ts);
    match (proto, src, dst, sport, dport) {
        (Some(proto), Some(src_ip), Some(dst_ip), Some(src_port), Some(dst_port)) => Some(
            Connection {
                proto,
                src_ip,
                src_port,
                dst_ip,
                dst_port,
                state: match state {
                    Some(s) => s,
                    None => ConnState::Unknown,
                },
            },
        ),
        _ => None,
    }
}

/// A token that none of the six recognized shapes accepts.
pub open spec fn unrecognized(t: Seq<char>) -> bool {
    &&& proto_token(t) is None
    &&& addr_token(t, "src="@) is None
    &&& addr_token(t, "dst="@) is None
    &&& port_token(t, "sport="@) is None
    &&& port_token(t, "dport="@) is None
    &&& state_token(t) is None
}

proof fn lemma_first_match_none<A>(ts: Seq<Seq<char>>, f: spec_fn(Seq<char>) -> Option<A>)
    requires
        forall|i: int| 0 <= i < ts.len() ==> f(#[trigger] ts[i]) is None,
    ensures
        first_match(ts, f) is None,
    decreases ts.len(),
{
    if ts.len() > 0 {
        lemma_first_match_none(ts.drop_last(), f);
    }
}

proof fn lemma_first_match_single<A>(ts: Seq<Seq<char>>, f: spec_fn(Seq<char>) -> Option<A>, k: int)
    requires
        0 <= k < ts.len(),
        forall|i: int| 0 <= i < ts.len() && i != k ==> f(#[trigger] ts[i]) is None,
    ensures
        first_match(ts, f) == f(ts[k]),
    decreases ts.len(),
{
    if k == ts.len() - 1 {
        lemma_first_match_none(ts.drop_last(), f);
    } else {
        lemma_first_match_single(ts.drop_last(), f, k);
    }
}

/// A token yields at most one of the six fields.
proof fn lemma_shapes_disjoint(t: Seq<char>)
    ensures
        proto_token(t) is Some ==> (addr_token(t, "src="@) is None && addr_token(t, "dst="@) is None
            && port_token(t, "sport="@) is None && port_token(t, "dport="@) is None
            && state_token(t) is None),
        addr_token(t, "src="@) is Some ==> (addr_token(t, "dst="@) is None && port_token(t, "sport="@) is None
            && port_token(t, "dport="@) is None && state_token(t) is None),
        addr_token(t, "dst="@) is Some ==> (port_token(t, "sport="@) is None
            && port_token(t, "dport="@) is None && state_token(t) is None),
        port_token(t, "sport="@) is Some ==> (port_token(t, "dport="@) is None
            && state_token(t) is None),
        port_token(t, "dport="@) is Some ==> state_token(t) is None,
{
    reveal_strlit("tcp");
    reveal_strlit("udp");
    reveal_strlit("src=");
    reveal_strlit("dst=");
    reveal_strlit("sport=");
    reveal_strlit("dport=");
    reveal_strlit("ESTABLISHED");
    reveal_strlit("SYN_SENT");
    reveal_strlit("SYN_RECV");
    reveal_strlit("FIN_WAIT");
    reveal_strlit("TIME_WAIT");
    if has_prefix(t, "src="@) {
        assert(t[0] == "src="@.take(4)[0]);
        assert(t[1] == "src="@.take(4)[1]);
    }
    if has_prefix(t, "dst="@) {
        assert(t[0] == "dst="@.take(4)[0]);
        assert(t[1] == "dst="@.take(4)[1]);
    }
    if has_prefix(t, "sport="@) {
        assert(t[0] == "sport="@.take(6)[0]);
        assert(t[1] == "sport="@.take(6)[1]);
    }
    if has_prefix(t, "dport="@) {
        assert(t[0] == "dport="@.take(6)[0]);
        assert(t[1] == "dport="@.take(6)[1]);
    }
}

/// Where one of the five required fields is found in no word of the line,
/// the line decodes to nothing.
pub proof fn lemma_missing_field_rejected(line: Seq<char>)
    requires
        (forall|i: int| 0 <= i < words(line).len() ==> proto_token(#[trigger] words(line)[i]) is None)
        || (forall|i: int| 0 <= i < words(line).len() ==> addr_token(#[trigger] words(line)[i], "src="@) is None)
        || (forall|i: int| 0 <= i < words(line).len() ==> addr_token(#[trigger] words(line)[i], "dst="@) is None)
        || (forall|i: int| 0 <= i < words(line).len() ==> port_token(#[trigger] words(line)[i], "sport="@) is None)
        || (forall|i: int| 0 <= i < words(line).len() ==> port_token(#[trigger] words(line)[i], "dport="@) is None),
    ensures
        parse_line_spec(line) is None,
{
    let ts = words(line);
    if forall|i: int| 0 <= i < ts.len() ==> proto_token(#[trigger] ts[i]) is None {
        lemma_first_match_none(ts, |t| proto_token(t));
    } else if forall|i: int| 0 <= i < ts.len() ==> addr_token(#[trigger] ts[i], "src="@) is None {
        lemma_first_match_none(ts, |t| addr_token(t, "src="@));
    } else if forall|i: int| 0 <= i < ts.len() ==> addr_token(#[trigger] ts[i], "dst="@) is None {
        lemma_first_match_none(ts, |t| addr_token(t, "dst="@));
    } else if forall|i: int| 0 <= i < ts.len() ==> port_token(#[trigger] ts[i], "sport="@) is None {
        lemma_first_match_none(ts, |t| port_token(t, "sport="@));
    } else {
        lemma_first_match_none(ts, |t| port_token(t, "dport="@));
    }
}

/// Where no word of the line names one of the five recognized states, a
/// decoded connection has the state `Unknown`.
pub proof fn lemma_state_defaults_to_unknown(line: Seq<char>)
    requires
        forall|i: int| 0 <= i < words(line).len() ==> state_token(#[trigger] words(line)[i]) is None,
    ensures
        parse_line_spec(line) is Some ==> parse_line_spec(line)->0.state == ConnState::Unknown,
{
    lemma_first_match_none(words(line), |t| state_token(t));
}

/// A line whose words are the five required tokens `p`, `s`, `d`, `sp`, `dp`,
/// each once, in any order, among any number of unrecognized tokens, decodes
/// to the same connection as the line made of exactly those five tokens in
/// canonical order.
pub proof fn lemma_token_order_irrelevant(
    line: Seq<char>,
    canonical: Seq<char>,
    p: Seq<char>,
    s: Seq<char>,
    d: Seq<char>,
    sp: Seq<char>,
    dp: Seq<char>,
    ip: int,
    is: int,
    id: int,
    isp: int,
    idp: int,
)
    requires
        proto_token(p) is Some,
        addr_token(s, "src="@) is Some,
        addr_token(d, "dst="@) is Some,
        port_token(sp, "sport="@) is Some,
        port_token(dp, "dport="@) is Some,
        0 <= ip < words(line).len() && words(line)[ip] == p,
        0 <= is < words(line).len() && words(line)[is] == s,
        0 <= id < words(line).len() && words(line)[id] == d,
        0 <= isp < words(line).len() && words(line)[isp] == sp,
        0 <= idp < words(line).len() && words(line)[idp] == dp,
        forall|i: int|
            0 <= i < words(line).len() && i != ip && i != is && i != id && i != isp && i != idp
                ==> unrecognized(#[trigger] words(line)[i]),
        words(canonical) == seq![p, s, d, sp, dp],
    ensures
        parse_line_spec(line) == parse_line_spec(canonical),
{
    let ts = words(line);
    let c = seq![p, s, d, sp, dp];
    lemma_shapes_disjoint(p);
    lemma_shapes_disjoint(s);
    lemma_shapes_disjoint(d);
    lemma_shapes_disjoint(sp);
    lemma_shapes_disjoint(dp);
    assert(ts.len() >= 5);
    lemma_first_match_single(ts, |t| proto_token(t), ip);
    lemma_first_match_single(ts, |t| addr_token(t, "src="@), is);
    lemma_first_match_single(ts, |t| addr_token(t, "dst="@), id);
    lemma_first_match_single(ts, |t| port_token(t, "sport="@), isp);
    lemma_first_match_single(ts, |t| port_token(t, "dport="@), idp);
    lemma_first_match_none(ts, |t| state_token(t));
    lemma_first_match_single(c, |t| proto_token(t), 0);
    lemma_first_match_single(c, |t| addr_token(t, "src="@), 1);
    lemma_first_match_single(c, |t| addr_token(t, "dst="@), 2);
    lemma_first_match_single(c, |t| port_token(t, "sport="@), 3);
    lemma_first_match_single(c, |t| port_token(t, "dport="@), 4);
    lemma_first_match_none(c, |t| state_token(t));
}

/// A token that one of the six recognized shapes accepts.
pub open spec fn recognized(t: Seq<char>) -> bool {
    !unrecognized(t)
}

/// The recognized tokens of `ts`, in order.
pub open spec fn recognized_only(ts: Seq<Seq<char>>) -> Seq<Seq<char>>
    decreases ts.len(),
{
    if ts.len() == 0 {
        ts
    } else {
        let r = recognized_only(ts.drop_last());
        if recognized(ts.last()) {
            r.push(ts.last())
        } else {
            r
        }
    }
}

proof fn lemma_recognized_only_len(ts: Seq<Seq<char>>)
    ensures
        recognized_only(ts).len() <= ts.len(),
    decreases ts.len(),
{
    if ts.len() > 0 {
        lemma_recognized_only_len(ts.drop_last());
    }
}

proof fn lemma_first_match_recognized<A>(ts: Seq<Seq<char>>, f: spec_fn(Seq<char>) -> Option<A>)
    requires
        forall|t: Seq<char>| unrecognized(t) ==> #[trigger] f(t) is None,
    ensures
        first_match(ts, f) == first_match(recognized_only(ts), f),
    decreases ts.len(),
{
    if ts.len() > 0 {
        lemma_first_match_recognized(ts.drop_last(), f);
        if recognized(ts.last()) {
            assert(recognized_only(ts).drop_last() =~= recognized_only(ts.drop_last()));
        }
    }
}

proof fn lemma_connection_of_recognized(ts: Seq<Seq<char>>)
    ensures
        connection_of(ts) == connection_of(recognized_only(ts)),
{
    lemma_first_match_recognized(ts, |t| proto_token(t));
    lemma_first_match_recognized(ts, |t| addr_token(t, "src="@));
    lemma_first_match_recognized(ts, |t| addr_token(t, "dst="@));
    lemma_first_match_recognized(ts, |t| port_token(t, "sport="@));
    lemma_first_match_recognized(ts, |t| port_token(t, "dport="@));
    lemma_first_match_recognized(ts, |t| state_token(t));
}

proof fn lemma_first_match_witness<A>(ts: Seq<Seq<char>>, f: spec_fn(Seq<char>) -> Option<A>) -> (i: int)
    requires
        first_match(ts, f) is Some,
    ensures
        0 <= i < ts.len(),
        f(ts[i]) is Some,
    decreases ts.len(),
{
    if first_match(ts.drop_last(), f) is Some {
        lemma_first_match_witness(ts.drop_last(), f)
    } else {
        ts.len() - 1
    }
}

/// A sequence of tokens that describes a connection has at least five tokens.
proof fn lemma_connection_needs_five(ts: Seq<Seq<char>>)
    requires
        connection_of(ts) is Some,
    ensures
        ts.len() >= 5,
{
    let a = lemma_first_match_witness(ts, |t| proto_token(t));
    let b = lemma_first_match_witness(ts, |t| addr_token(t, "src="@));
    let c = lemma_first_match_witness(ts, |t| addr_token(t, "dst="@));
    let d = lemma_first_match_witness(ts, |t| port_token(t, "sport="@));
    let e = lemma_first_match_witness(ts, |t| port_token(t, "dport="@));
    lemma_shapes_disjoint(ts[a]);
    lemma_shapes_disjoint(ts[b]);
    lemma_shapes_disjoint(ts[c]);
    lemma_shapes_disjoint(ts[d]);
    lemma_shapes_disjoint(ts[e]);
}

/// Unrecognized tokens play no part: two lines whose recognized words are the
/// same, in the same order, decode to the same result, whatever unrecognized
/// words either holds and wherever they stand.
pub proof fn lemma_unrecognized_tokens_ignored(line: Seq<char>, other: Seq<char>)
    requires
        recognized_only(words(line)) == recognized_only(words(other)),
    ensures
        parse_line_spec(line) == parse_line_spec(other),
{
    let r = recognized_only(words(line));
    lemma_connection_of_recognized(words(line));
    lemma_connection_of_recognized(words(other));
    if connection_of(r) is Some {
        lemma_connection_needs_five(r);
        lemma_recognized_only_len(words(line));
        lemma_recognized_only_len(words(other));
    }
}

/// As `lemma_token_order_irrelevant`, for a line that also holds one of the
/// five state names once: it decodes like the canonical line of the five
/// required tokens followed by that state name.
pub proof fn lemma_token_order_irrelevant_with_state(
    line: Seq<char>,
    canonical: Seq<char>,
    p: Seq<char>,
    s: Seq<char>,
    d: Seq<char>,
    sp: Seq<char>,
    dp: Seq<char>,
    st: Seq<char>,
    ip: int,
    is: int,
    id: int,
    isp: int,
    idp: int,
    ist: int,
)
    requires
        proto_token(p) is Some,
        addr_token(s, "src="@) is Some,
        addr_token(d, "dst="@) is Some,
        port_token(sp, "sport="@) is Some,
        port_token(dp, "dport="@) is Some,
        state_token(st) is Some,
        0 <= ip < words(line).len() && words(line)[ip] == p,
        0 <= is < words(line).len() && words(line)[is] == s,
        0 <= id < words(line).len() && words(line)[id] == d,
        0 <= isp < words(line).len() && words(line)[isp] == sp,
        0 <= idp < words(line).len() && words(line)[idp] == dp,
        0 <= ist < words(line).len() && words(line)[ist] == st,
        forall|i: int|
            0 <= i < words(line).len() && i != ip && i != is && i != id && i != isp && i != idp
                && i != ist ==> unrecognized(#[trigger] words(line)[i]),
        words(canonical) == seq![p, s, d, sp, dp, st],
    ensures
        parse_line_spec(line) == parse_line_spec(canonical),
{
    let ts = words(line);
    let c = seq![p, s, d, sp, dp, st];
    lemma_shapes_disjoint(p);
    lemma_shapes_disjoint(s);
    lemma_shapes_disjoint(d);
    lemma_shapes_disjoint(sp);
    lemma_shapes_disjoint(dp);
    lemma_shapes_disjoint(st);
    assert(ts.len() >= 5);
    lemma_first_match_single(ts, |t| proto_token(t), ip);
    lemma_first_match_single(ts, |t| addr_token(t, "src="@), is);
    lemma_first_match_single(ts, |t| addr_token(t, "dst="@), id);
    lemma_first_match_single(ts, |t| port_token(t, "sport="@), isp);
    lemma_first_match_single(ts, |t| port_token(t, "dport="@), idp);
    lemma_first_match_single(ts, |t| state_token(t), ist);
    lemma_first_match_single(c, |t| proto_token(t), 0);
    lemma_first_match_single(c, |t| addr_token(t, "src="@), 1);
    lemma_first_match_single(c, |t| addr_token(t, "dst="@), 2);
    lemma_first_match_single(c, |t| port_token(t, "sport="@), 3);
    lemma_first_match_single(c, |t| port_token(t, "dport="@), 4);
    lemma_first_match_single(c, |t| state_token(t), 5);
}

} // verus!
