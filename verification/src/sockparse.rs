//! Parsing of the listen addresses and ports that a user types: IPv4 ranges,
//! CIDR blocks and wildcard patterns, and port ranges and lists.

use vstd::prelude::*;
use crate::text::{
    lemma_decimal_text, lemma_decimal_text_without, lemma_decimal_text_short, lemma_split_concat,
    lemma_split_without_sep, all_digits, chars_of, contains_chars, contains_text, decimal_text, decimal_value, has_char, parse_unsigned,
    parse_unsigned_chars, push_decimal, split_chars, split_on, trim, trim_chars,
};

verus! {

// ---------------------------------------------------------------------------
// Ports
// ---------------------------------------------------------------------------

/// A port number as `str::parse::<u16>` reads it.
pub open spec fn parse_port(s: Seq<char>) -> Option<nat> {
    parse_unsigned(s, 65535)
}

/// The ports `start` to `end`, both included, in ascending order; empty when
/// `start > end`.
pub open spec fn port_range(start: nat, end: nat) -> Seq<u16> {
    Seq::new(
        if start <= end {
            (end - start + 1) as nat
        } else {
            0
        },
        |i: int| (start + i) as u16,
    )
}

/// The inputs on which port parsing succeeds: in a range, both ends are
/// ports; in a comma-separated list, every trimmed item is a port; otherwise
/// the whole input is a port. A dash with other than two pieces around it
/// yields no ports and is no error.
pub open spec fn port_input_accepted(s: Seq<char>) -> bool {
    if s.contains('-') {
        let parts = split_on(s, '-');
        parts.len() == 2 ==> (parse_port(parts[0]) is Some && parse_port(parts[1]) is Some)
    } else if s.contains(',') {
        let items = split_on(s, ',');
        forall|k: int| 0 <= k < items.len() ==> (#[trigger] parse_port(trim(items[k]))) is Some
    } else {
        parse_port(s) is Some
    }
}

/// The ports that an accepted input denotes.
pub open spec fn port_input_ports(s: Seq<char>) -> Seq<u16> {
    if s.contains('-') {
        let parts = split_on(s, '-');
        if parts.len() == 2 {
            port_range(parse_port(parts[0]).unwrap(), parse_port(parts[1]).unwrap())
        } else {
            Seq::empty()
        }
    } else if s.contains(',') {
        split_on(s, ',').map_values(|p: Seq<char>| parse_port(trim(p)).unwrap() as u16)
    } else {
        seq![parse_port(s).unwrap() as u16]
    }
}

fn parse_port_chars(s: &Vec<char>) -> (r: Option<u16>)
    ensures
        match parse_port(s@) {
            Some(v) => r == Some(v as u16),
            None => r is None,
        },
{
    match parse_unsigned_chars(s, 65535) {
        Some(v) => Some(v as u16),
        None => None,
    }
}

/// The ports `start` to `end`, both included.
fn ports_between(start: u16, end: u16) -> (r: Vec<u16>)
    ensures
        r@ == port_range(start as nat, end as nat),
        start <= end ==> r@.len() == end - start + 1,
        start > end ==> r@.len() == 0,
        forall|k: int| 0 <= k < r@.len() ==> r@[k] == start + k,
{
    let mut r: Vec<u16> = Vec::new();
    if start > end {
        assert(r@ =~= port_range(start as nat, end as nat));
        return r;
    }
    let mut p: u32 = start as u32;
    while p <= end as u32
        invariant
            start <= p <= end as u32 + 1,
            start <= end,
            r@ =~= Seq::new((p - start) as nat, |i: int| (start + i) as u16),
        decreases end as u32 + 1 - p,
    {
        r.push(p as u16);
        p = p + 1;
    }
    r
}

/// Port parsing that reports, as `None`, the inputs on which
/// `parse_port_input` has no result.
pub fn try_parse_port_input(input: &str) -> (r: Option<Vec<u16>>)
    ensures
        r is Some <==> port_input_accepted(input@),
        r matches Some(v) ==> v@ == port_input_ports(input@),
{
    let s = chars_of(input);
    if has_char(&s, '-') {
        let parts = split_chars(&s, '-');
        if parts.len() == 2 {
            let start = parse_port_chars(&parts[0]);
            let end = parse_port_chars(&parts[1]);
            match (start, end) {
                (Some(a), Some(b)) => Some(ports_between(a, b)),
                _ => None,
            }
        } else {
            Some(Vec::new())
        }
    } else if has_char(&s, ',') {
        let items = split_chars(&s, ',');
        let ghost spec_items = split_on(s@, ',');
        let mut ports: Vec<u16> = Vec::new();
        let mut k: usize = 0;
        while k < items.len()
            invariant
                k <= items@.len(),
                spec_items == split_on(input@, ','),
                !input@.contains('-'),
                input@.contains(','),
                items@.len() == spec_items.len(),
                forall|m: int| 0 <= m < items@.len() ==> #[trigger] items@[m]@ == spec_items[m],
                forall|m: int| 0 <= m < k ==> (#[trigger] parse_port(trim(spec_items[m]))) is Some,
                ports@ =~= spec_items.take(k as int).map_values(
                    |p: Seq<char>| parse_port(trim(p)).unwrap() as u16,
                ),
            decreases items.len() - k,
        {
            let item = trim_chars(&items[k]);
            assert(items@[k as int]@ == spec_items[k as int]);
            assert(item@ == trim(spec_items[k as int]));
            match parse_port_chars(&item) {
                Some(v) => {
                    ports.push(v);
                },
                None => {
                    assert(parse_port(trim(spec_items[k as int])) is None);
                    assert(!port_input_accepted(input@));
                    return None;
                },
            }
            k = k + 1;
        }
        assert(spec_items.take(k as int) =~= spec_items);
        Some(ports)
    } else {
        match parse_port_chars(&s) {
            Some(v) => {
                let mut ports: Vec<u16> = Vec::new();
                ports.push(v);
                assert(ports@ =~= seq![v]);
                Some(ports)
            },
            None => None,
        }
    }
}

/// Parses port input into a list of ports: a range `"8000-8010"`, a
/// comma-separated list `"80, 443, 8080"`, or a single port `"8080"`.
pub fn parse_port_input(input: &str) -> (r: Vec<u16>)
    requires
        port_input_accepted(input@),
    ensures
        r@ == port_input_ports(input@),
{
    match try_parse_port_input(input) {
        Some(v) => v,
        None => {
            proof {
                assert(false);
            }
            Vec::new()
        },
    }
}


/// A range of ports holds every port from its first through its last once,
/// in ascending order: `end - start + 1` ports, the `k`-th being
/// `start + k`, the last being `end`; none when `start > end`.
pub proof fn law_port_range_exact(start: u16, end: u16)
    ensures
        start <= end ==> port_range(start as nat, end as nat).len() == end - start + 1,
        start > end ==> port_range(start as nat, end as nat).len() == 0,
        forall|k: int|
            0 <= k < port_range(start as nat, end as nat).len() ==> #[trigger] port_range(
                start as nat,
                end as nat,
            )[k] == start + k,
        forall|p: u16| start <= p <= end ==> #[trigger] port_range(start as nat, end as nat).contains(p),
{
    let r = port_range(start as nat, end as nat);
    assert forall|p: u16| start <= p <= end implies #[trigger] r.contains(p) by {
        assert(r[p - start] == p);
    }
}

/// The decimal text of a port reads back as that single port.
pub proof fn law_port_text_roundtrip(p: u16)
    ensures
        port_input_accepted(decimal_text(p as nat)),
        port_input_ports(decimal_text(p as nat)) == seq![p],
{
    let t = decimal_text(p as nat);
    lemma_decimal_text(p as nat);
    lemma_decimal_text_without(p as nat, '-');
    lemma_decimal_text_without(p as nat, ',');
    assert(t[0] != '+');
    assert(parse_port(t) == Some(p as nat));
}

/// Two ports written as decimal text and joined by a dash read back as every
/// port from the first to the second, in order; none when the first is the
/// larger.
pub proof fn law_port_range_roundtrip(a: u16, b: u16)
    ensures
        port_input_accepted(decimal_text(a as nat) + seq!['-'] + decimal_text(b as nat)),
        port_input_ports(decimal_text(a as nat) + seq!['-'] + decimal_text(b as nat))
            == port_range(a as nat, b as nat),
        a <= b ==> port_input_ports(decimal_text(a as nat) + seq!['-'] + decimal_text(b as nat)).len()
            == b - a + 1,
        a > b ==> port_input_ports(decimal_text(a as nat) + seq!['-'] + decimal_text(b as nat)).len()
            == 0,
        forall|k: int|
            0 <= k < port_input_ports(decimal_text(a as nat) + seq!['-'] + decimal_text(b as nat)).len()
                ==> #[trigger] port_input_ports(
                decimal_text(a as nat) + seq!['-'] + decimal_text(b as nat),
            )[k] == a + k,
{
    law_port_range_exact(a, b);
    let ta = decimal_text(a as nat);
    let tb = decimal_text(b as nat);
    let s = ta + seq!['-'] + tb;
    lemma_decimal_text(a as nat);
    lemma_decimal_text(b as nat);
    lemma_decimal_text_without(a as nat, '-');
    lemma_decimal_text_without(b as nat, '-');
    lemma_split_concat(ta, tb, '-');
    lemma_split_without_sep(ta, '-');
    lemma_split_without_sep(tb, '-');
    assert(split_on(s, '-') =~= seq![ta, tb]);
    assert(s[ta.len() as int] == '-');
    assert(s.contains('-'));
    assert(ta[0] != '+');
    assert(tb[0] != '+');
    assert(parse_port(ta) == Some(a as nat));
    assert(parse_port(tb) == Some(b as nat));
}

// ---------------------------------------------------------------------------
// IPv4 addresses
// ---------------------------------------------------------------------------

/// One group of a dotted-quad address as `Ipv4Addr`'s parser reads it: one
/// to three ASCII digits, no leading zero unless the group is `0`, at most 255.
pub open spec fn ipv4_octet(p: Seq<char>) -> Option<nat> {
    if 1 <= p.len() <= 3 && all_digits(p) && !(p.len() > 1 && p[0] == '0') && decimal_value(p)
        <= 255 {
        Some(decimal_value(p))
    } else {
        None
    }
}

/// The 32-bit value of the address `a.b.c.d`.
pub open spec fn ipv4_value(a: nat, b: nat, c: nat, d: nat) -> nat {
    a * 16777216 + b * 65536 + c * 256 + d
}

/// The four octets of an address, most significant first.
pub open spec fn octet0(x: u32) -> nat {
    (x / 16777216) as nat
}

pub open spec fn octet1(x: u32) -> nat {
    ((x / 65536) % 256) as nat
}

pub open spec fn octet2(x: u32) -> nat {
    ((x / 256) % 256) as nat
}

pub open spec fn octet3(x: u32) -> nat {
    (x % 256) as nat
}

/// How `str::parse::<Ipv4Addr>` reads an address: exactly four groups
/// separated by dots.
pub open spec fn parse_ipv4(s: Seq<char>) -> Option<u32> {
    let parts = split_on(s, '.');
    if parts.len() == 4 && ipv4_octet(parts[0]) is Some && ipv4_octet(parts[1]) is Some
        && ipv4_octet(parts[2]) is Some && ipv4_octet(parts[3]) is Some {
        Some(
            ipv4_value(
                ipv4_octet(parts[0]).unwrap(),
                ipv4_octet(parts[1]).unwrap(),
                ipv4_octet(parts[2]).unwrap(),
                ipv4_octet(parts[3]).unwrap(),
            ) as u32,
        )
    } else {
        None
    }
}

/// The dotted-quad text of an address, as `Ipv4Addr` displays it.
pub open spec fn ipv4_text(x: u32) -> Seq<char> {
    decimal_text(octet0(x)) + seq!['.'] + decimal_text(octet1(x)) + seq!['.'] + decimal_text(
        octet2(x),
    ) + seq!['.'] + decimal_text(octet3(x))
}

pub proof fn lemma_ipv4_octets(a: nat, b: nat, c: nat, d: nat)
    requires
        a < 256,
        b < 256,
        c < 256,
        d < 256,
    ensures
        ipv4_value(a, b, c, d) < 0x1_0000_0000,
        octet0(ipv4_value(a, b, c, d) as u32) == a,
        octet1(ipv4_value(a, b, c, d) as u32) == b,
        octet2(ipv4_value(a, b, c, d) as u32) == c,
        octet3(ipv4_value(a, b, c, d) as u32) == d,
{
    let x = ipv4_value(a, b, c, d);
    assert(x / 16777216 == a);
    assert(x / 65536 == a * 256 + b);
    assert(x / 256 == a * 65536 + b * 256 + c);
}

pub proof fn lemma_ipv4_decompose(x: u32)
    ensures
        octet0(x) < 256,
        octet1(x) < 256,
        octet2(x) < 256,
        octet3(x) < 256,
        ipv4_value(octet0(x), octet1(x), octet2(x), octet3(x)) == x,
{
    let a = x / 16777216;
    let r = x % 16777216;
    assert(x == a * 16777216 + r && r < 16777216);
    let p = x / 65536;
    assert(p == a * 256 + r / 65536);
    assert(p % 256 == r / 65536);
    let r2 = r % 65536;
    assert(x / 256 == p * 256 + r2 / 256);
    assert((x / 256) % 256 == r2 / 256);
    assert(x % 256 == r2 % 256);
}

/// The lexicographic order of octet tuples is the order of the addresses.
pub proof fn lemma_ipv4_order(a: nat, b: nat, c: nat, d: nat, e: nat, f: nat, g: nat, h: nat)
    requires
        a < 256,
        b < 256,
        c < 256,
        d < 256,
        e < 256,
        f < 256,
        g < 256,
        h < 256,
        lex_less(a, b, c, d, e, f, g, h),
    ensures
        ipv4_value(a, b, c, d) < ipv4_value(e, f, g, h),
{
}

/// The text an address displays as reads back as that address.
pub proof fn law_ipv4_text_roundtrip(x: u32)
    ensures
        parse_ipv4(ipv4_text(x)) == Some(x),
{
    lemma_ipv4_decompose(x);
    let t0 = decimal_text(octet0(x));
    let t1 = decimal_text(octet1(x));
    let t2 = decimal_text(octet2(x));
    let t3 = decimal_text(octet3(x));
    lemma_octet_text(octet0(x));
    lemma_octet_text(octet1(x));
    lemma_octet_text(octet2(x));
    lemma_octet_text(octet3(x));
    let ab = t0 + seq!['.'] + t1;
    let abc = ab + seq!['.'] + t2;
    assert(ipv4_text(x) == abc + seq!['.'] + t3);
    lemma_split_concat(abc, t3, '.');
    lemma_split_concat(ab, t2, '.');
    lemma_split_concat(t0, t1, '.');
    lemma_split_without_sep(t0, '.');
    lemma_split_without_sep(t1, '.');
    lemma_split_without_sep(t2, '.');
    lemma_split_without_sep(t3, '.');
    assert(split_on(ipv4_text(x), '.') =~= seq![t0, t1, t2, t3]);
}

/// The text of an octet is a valid group of a dotted quad.
proof fn lemma_octet_text(n: nat)
    requires
        n < 256,
    ensures
        ipv4_octet(decimal_text(n)) == Some(n),
        !decimal_text(n).contains('.'),
{
    lemma_decimal_text(n);
    lemma_decimal_text_short(n);
    lemma_decimal_text_without(n, '.');
}

/// `(a, b, c, d)` comes before `(e, f, g, h)` in lexicographic order.
pub open spec fn lex_less(a: nat, b: nat, c: nat, d: nat, e: nat, f: nat, g: nat, h: nat) -> bool {
    ||| a < e
    ||| (a == e && b < f)
    ||| (a == e && b == f && c < g)
    ||| (a == e && b == f && c == g && d < h)
}

fn ipv4_octet_chars(p: &Vec<char>) -> (r: Option<u8>)
    ensures
        match ipv4_octet(p@) {
            Some(v) => r == Some(v as u8),
            None => r is None,
        },
{
    if p.len() < 1 || p.len() > 3 {
        return None;
    }
    if !('0' <= p[0] && p[0] <= '9') {
        return None;
    }
    if p.len() > 1 && p[0] == '0' {
        return None;
    }
    assert(p@.len() > 0 && p@[0] != '+');
    match parse_unsigned_chars(p, 255) {
        Some(v) => Some(v as u8),
        None => None,
    }
}

fn parse_ipv4_chars(s: &Vec<char>) -> (r: Option<u32>)
    ensures
        r == parse_ipv4(s@),
{
    let parts = split_chars(s, '.');
    if parts.len() != 4 {
        return None;
    }
    let a = ipv4_octet_chars(&parts[0]);
    let b = ipv4_octet_chars(&parts[1]);
    let c = ipv4_octet_chars(&parts[2]);
    let d = ipv4_octet_chars(&parts[3]);
    assert(parts@[0]@ == split_on(s@, '.')[0]);
    assert(parts@[1]@ == split_on(s@, '.')[1]);
    assert(parts@[2]@ == split_on(s@, '.')[2]);
    assert(parts@[3]@ == split_on(s@, '.')[3]);
    match (a, b, c, d) {
        (Some(a), Some(b), Some(c), Some(d)) => {
            proof {
                lemma_ipv4_octets(a as nat, b as nat, c as nat, d as nat);
            }
            Some((a as u32) * 16777216 + (b as u32) * 65536 + (c as u32) * 256 + (d as u32))
        },
        _ => None,
    }
}

/// The dotted-quad text of the address with the given octets.
fn ipv4_text_chars(a: u8, b: u8, c: u8, d: u8) -> (r: Vec<char>)
    ensures
        r@ == decimal_text(a as nat) + seq!['.'] + decimal_text(b as nat) + seq!['.']
            + decimal_text(c as nat) + seq!['.'] + decimal_text(d as nat),
{
    let mut r: Vec<char> = Vec::new();
    push_decimal(&mut r, a as u64);
    r.push('.');
    push_decimal(&mut r, b as u64);
    r.push('.');
    push_decimal(&mut r, c as u64);
    r.push('.');
    push_decimal(&mut r, d as u64);
    assert(r@ =~= Seq::<char>::empty() + decimal_text(a as nat) + seq!['.'] + decimal_text(b as nat)
        + seq!['.'] + decimal_text(c as nat) + seq!['.'] + decimal_text(d as nat));
    r
}

// ---------------------------------------------------------------------------
// Calls into the standard library and `ipnetwork`
// ---------------------------------------------------------------------------

/// What `str::to_uppercase` returns: the text mapped to upper case by the
/// Unicode case tables.
pub uninterp spec fn str_to_uppercase(s: Seq<char>) -> Seq<char>;

/// The upper-case form of an ASCII character; other characters unchanged.
pub open spec fn ascii_upper(c: char) -> char {
    if 'a' <= c && c <= 'z' {
        ((c as u32) - 32) as char
    } else {
        c
    }
}

/// Every character of `s` is ASCII.
pub open spec fn is_ascii_text(s: Seq<char>) -> bool {
    forall|i: int| 0 <= i < s.len() ==> (#[trigger] s[i] as u32) < 128
}

/// The upper-case form of a text as `str::to_uppercase` gives it: on ASCII
/// text, `a`-`z` become `A`-`Z` and every other character stays.
pub open spec fn upper_text(s: Seq<char>) -> Seq<char> {
    if is_ascii_text(s) {
        s.map_values(|c: char| ascii_upper(c))
    } else {
        str_to_uppercase(s)
    }
}

/// Calls `str::to_uppercase`. Its result is named; on ASCII text it maps
/// `a`-`z` to `A`-`Z` and keeps every other character, as the documentation
/// of the Unicode case mapping shows for that range.
#[verifier::external_body]
fn to_uppercase(s: &str) -> (r: String)
    ensures
        r@ == str_to_uppercase(s@),
        is_ascii_text(s@) ==> r@ == s@.map_values(|c: char| ascii_upper(c)),
{
    s.to_uppercase()
}

/// The netmask whose first `p` bits are set and whose other bits are clear.
pub open spec fn prefix_mask(p: nat) -> nat {
    (vstd::arithmetic::power2::pow2(32) - vstd::arithmetic::power2::pow2((32 - p) as nat)) as nat
}

/// A netmask whose set bits all come first.
pub open spec fn is_prefix_mask(m: u32) -> bool {
    exists|p: nat| p <= 32 && m == prefix_mask(p)
}

/// The prefix length after the slash as `ipnetwork` reads it: a dotted-quad
/// netmask gives the number of its leading set bits, and is refused unless
/// all its set bits come first; any other text is read as `str::parse::<u8>`
/// reads it, and must be at most 32.
pub open spec fn cidr_prefix(t: Seq<char>) -> Option<nat> {
    match parse_ipv4(t) {
        Some(m) => if is_prefix_mask(m) {
            Some(choose|p: nat| p <= 32 && m == prefix_mask(p))
        } else {
            None
        },
        None => match parse_unsigned(t, 255) {
            Some(p) => if p <= 32 {
                Some(p)
            } else {
                None
            },
            None => None,
        },
    }
}

/// How `ipnetwork::Ipv4Network::from_str` reads a text: the address and the
/// prefix length of the network, or `None` where it returns an error. The
/// text is an address, optionally followed by one slash and a prefix; a
/// second slash is an error, and without a slash the prefix is 32.
pub open spec fn ipv4_network_parse(s: Seq<char>) -> Option<(u32, u8)> {
    let parts = split_on(s, '/');
    if parts.len() == 1 {
        match parse_ipv4(s) {
            Some(a) => Some((a, 32u8)),
            None => None,
        }
    } else if parts.len() == 2 {
        match (parse_ipv4(parts[0]), cidr_prefix(parts[1])) {
            (Some(a), Some(p)) => Some((a, p as u8)),
            _ => None,
        }
    } else {
        None
    }
}

/// Calls `ipnetwork::Ipv4Network::from_str` and hands back the network's
/// address (`ip()`) and prefix length (`prefix()`). The contract restates
/// `from_str` (ipnetwork's `cidr_parts`, `parse_prefix` and
/// `ipv4_mask_to_prefix`, over the standard library's `Ipv4Addr` parsing) as
/// `ipv4_network_parse`.
#[verifier::external_body]
fn parse_ipv4_network(s: &str) -> (r: Option<(u32, u8)>)
    ensures
        r == ipv4_network_parse(s@),
{
    match s.parse::<ipnetwork::Ipv4Network>() {
        Ok(n) => Some((u32::from(n.ip()), n.prefix())),
        Err(_) => None,
    }
}

/// The number of addresses in a network with the given prefix length.
pub open spec fn network_size(prefix: u8) -> nat {
    vstd::arithmetic::power2::pow2((32 - prefix) as nat)
}

/// The lowest address of the network that holds `addr`: the address with
/// its host bits cleared.
pub open spec fn network_start(addr: u32, prefix: u8) -> nat {
    (addr as nat - (addr as nat) % network_size(prefix)) as nat
}

/// Every address of the network, lowest first.
pub open spec fn network_addresses(addr: u32, prefix: u8) -> Seq<u32> {
    Seq::new(network_size(prefix), |i: int| (network_start(addr, prefix) + i) as u32)
}

/// Builds the network with `Ipv4Network::new` and collects what its `iter()`
/// yields: `network()` and every address after it up to
/// `network() + size() - 1`, where `network()` is the address with its host
/// bits cleared and `size()` is `2` to the power of the host bits. Prefix 0
/// is left out: there `size()` computes `2` to the 32nd power, which
/// overflows a `u32` (a panic where overflow checks are on).
#[verifier::external_body]
fn addresses_of_network(addr: u32, prefix: u8) -> (r: Vec<u32>)
    requires
        1 <= prefix <= 32,
    ensures
        r@ == network_addresses(addr, prefix),
{
    match ipnetwork::Ipv4Network::new(addr.into(), prefix) {
        Ok(n) => n.iter().map(u32::from).collect(),
        Err(_) => Vec::new(),
    }
}

// ---------------------------------------------------------------------------
// IP input
// ---------------------------------------------------------------------------

/// A wildcard group: a lone `X`.
pub open spec fn is_wildcard(p: Seq<char>) -> bool {
    p == seq!['X']
}

/// A group of a wildcard pattern: `X`, or a number as `str::parse::<u8>`
/// reads it.
pub open spec fn wildcard_group_ok(p: Seq<char>) -> bool {
    is_wildcard(p) || parse_unsigned(p, 255) is Some
}

/// The octet `v` fits the group `p` of a wildcard pattern.
pub open spec fn wildcard_group_matches(p: Seq<char>, v: nat) -> bool {
    is_wildcard(p) || parse_unsigned(p, 255) == Some(v)
}

/// The address `x` fits the four groups of a wildcard pattern.
pub open spec fn wildcard_match(groups: Seq<Seq<char>>, x: u32) -> bool {
    &&& wildcard_group_matches(groups[0], octet0(x))
    &&& wildcard_group_matches(groups[1], octet1(x))
    &&& wildcard_group_matches(groups[2], octet2(x))
    &&& wildcard_group_matches(groups[3], octet3(x))
}

/// A wildcard expansion keeps an address unless its text ends in `.0` and
/// does not occur in the user's input.
pub open spec fn wildcard_keep(input: Seq<char>, x: u32) -> bool {
    octet3(x) != 0 || contains_text(input, ipv4_text(x))
}

/// The addresses `start` to `end`, both included, in ascending order.
pub open spec fn address_range(start: u32, end: u32) -> Seq<u32> {
    Seq::new(
        if start <= end {
            (end - start + 1) as nat
        } else {
            0
        },
        |i: int| (start + i) as u32,
    )
}

/// A range of addresses holds every address from its first through its
/// last once, in ascending order: `end - start + 1` addresses, the `k`-th
/// being `start + k`; none when `start > end`.
pub proof fn law_address_range_exact(start: u32, end: u32)
    ensures
        start <= end ==> address_range(start, end).len() == end - start + 1,
        start > end ==> address_range(start, end).len() == 0,
        forall|k: int|
            0 <= k < address_range(start, end).len() ==> #[trigger] address_range(start, end)[k]
                == start + k,
        forall|x: u32| start <= x <= end ==> #[trigger] address_range(start, end).contains(x),
{
    let r = address_range(start, end);
    assert forall|x: u32| start <= x <= end implies #[trigger] r.contains(x) by {
        assert(r[x - start] == x);
    }
}

/// A network of prefix length `p` (1 to 32) that holds `addr` has
/// `2^(32 - p)` addresses, ascending one by one from a first address that is a
/// multiple of that count and at most `addr`, and `addr` is among them.
pub proof fn law_network_holds_its_address(addr: u32, prefix: u8)
    requires
        1 <= prefix <= 32,
    ensures
        network_addresses(addr, prefix).len() == vstd::arithmetic::power2::pow2(
            (32 - prefix) as nat,
        ),
        network_start(addr, prefix) % vstd::arithmetic::power2::pow2((32 - prefix) as nat) == 0,
        network_start(addr, prefix) <= addr,
        forall|k: int|
            0 <= k < network_addresses(addr, prefix).len() ==> #[trigger] network_addresses(
                addr,
                prefix,
            )[k] == network_start(addr, prefix) + k,
        network_addresses(addr, prefix).contains(addr),
{
    let size = network_size(prefix);
    let h = (32 - prefix) as nat;
    vstd::arithmetic::power2::lemma_pow2_pos(h);
    assert(vstd::arithmetic::power2::pow2(32) == 0x1_0000_0000) by {
        vstd::arithmetic::power2::lemma2_to64();
    }
    let start = network_start(addr, prefix);
    let m = (addr as nat) % size;
    vstd::arithmetic::div_mod::lemma_fundamental_div_mod(addr as int, size as int);
    vstd::arithmetic::div_mod::lemma_mod_bound(addr as int, size as int);
    assert(start == size * ((addr as nat) / size));
    vstd::arithmetic::div_mod::lemma_mod_multiples_basic((addr as nat / size) as int, size as int);
    assert(start % size == 0) by {
        assert(start == ((addr as nat) / size) * size) by (nonlinear_arith)
            requires
                start == size * ((addr as nat) / size),
        ;
    }
    // Every address of the block fits in 32 bits.
    vstd::arithmetic::power2::lemma_pow2_adds(h, (32 - h) as nat);
    assert(start + size <= 0x1_0000_0000) by {
        let q = (addr as nat) / size;
        let c = vstd::arithmetic::power2::pow2((32 - h) as nat);
        assert(size * c == 0x1_0000_0000);
        assert(q < c) by (nonlinear_arith)
            requires
                addr as int == size * q + m,
                m >= 0,
                (addr as int) < size * c,
                size > 0,
        ;
        assert(size * q + size <= size * c) by (nonlinear_arith)
            requires
                q < c,
                size > 0,
        ;
    }
    let r = network_addresses(addr, prefix);
    assert forall|k: int| 0 <= k < r.len() implies #[trigger] r[k] == start + k by {}
    assert(r[m as int] == addr);
}

/// Each address of `s` is smaller than the next.
pub open spec fn strictly_ascending(s: Seq<u32>) -> bool {
    forall|i: int, j: int| 0 <= i < j < s.len() ==> s[i] < s[j]
}

/// The inputs on which `parse_ip_input` has a result: a range
/// `a.b.c.d-e.f.g.h` of two addresses, the first not after the second; a
/// CIDR block that `ipnetwork` reads, with a prefix of at least one bit; a
/// wildcard pattern of four groups, each `X` or a number up to 255. Any other
/// text is read as a single address, or as nothing, and is accepted. The
/// input is taken in upper case, so `x` is a wildcard too.
pub open spec fn ip_input_accepted(input: Seq<char>) -> bool {
    let n = upper_text(input);
    if n.contains('-') {
        let parts = split_on(n, '-');
        parts.len() == 2 ==> (parse_ipv4(parts[0]) is Some && parse_ipv4(parts[1]) is Some
            && parse_ipv4(parts[0]).unwrap() <= parse_ipv4(parts[1]).unwrap())
    } else if n.contains('/') {
        ipv4_network_parse(n) matches Some((_, p)) && p >= 1
    } else if n.contains('X') {
        let groups = split_on(n, '.');
        groups.len() == 4 && forall|k: int| 0 <= k < 4 ==> wildcard_group_ok(#[trigger] groups[k])
    } else {
        true
    }
}

/// What `parse_ip_input` returns for an accepted input.
pub open spec fn ip_input_result(input: Seq<char>, r: Seq<u32>) -> bool {
    let n = upper_text(input);
    if n.contains('-') {
        let parts = split_on(n, '-');
        if parts.len() == 2 {
            r == address_range(parse_ipv4(parts[0]).unwrap(), parse_ipv4(parts[1]).unwrap())
        } else {
            r == Seq::<u32>::empty()
        }
    } else if n.contains('/') {
        r == network_addresses(ipv4_network_parse(n).unwrap().0, ipv4_network_parse(n).unwrap().1)
    } else if n.contains('X') {
        &&& strictly_ascending(r)
        &&& forall|x: u32|
            r.contains(x) <==> (wildcard_match(split_on(n, '.'), x) && wildcard_keep(input, x))
    } else {
        r == match parse_ipv4(n) {
            Some(a) => seq![a],
            None => Seq::<u32>::empty(),
        }
    }
}

/// The addresses `start` to `end`, both included.
fn addresses_between(start: u32, end: u32) -> (r: Vec<u32>)
    requires
        start <= end,
    ensures
        r@ == address_range(start, end),
{
    let mut r: Vec<u32> = Vec::new();
    let mut x: u32 = start;
    loop
        invariant
            start <= x <= end,
            r@ =~= Seq::new((x - start) as nat, |i: int| (start + i) as u32),
        decreases end - x,
    {
        r.push(x);
        if x == end {
            assert(r@ =~= address_range(start, end));
            return r;
        }
        x = x + 1;
    }
}

/// The range of octets `(lo, hi)` that a wildcard group admits.
fn wildcard_bounds(p: &Vec<char>) -> (r: Option<(u8, u8)>)
    ensures
        r is Some <==> wildcard_group_ok(p@),
        r matches Some((lo, hi)) ==> lo <= hi && forall|v: nat|
            v < 256 ==> (wildcard_group_matches(p@, v) <==> lo <= v <= hi),
{
    if p.len() == 1 && p[0] == 'X' {
        assert(p@ =~= seq!['X']);
        return Some((0, 255));
    }
    assert(!is_wildcard(p@)) by {
        if is_wildcard(p@) {
            assert(p@.len() == 1 && p@[0] == 'X');
        }
    }
    match parse_unsigned_chars(p, 255) {
        Some(v) => Some((v as u8, v as u8)),
        None => None,
    }
}

/// The addresses `x` with `lo[k] <= octet k of x <= hi[k]` for each `k`
/// and `keep(x)`.
pub open spec fn in_bounds(lo: Seq<u8>, hi: Seq<u8>, input: Seq<char>, x: u32) -> bool {
    &&& lo[0] <= octet0(x) <= hi[0]
    &&& lo[1] <= octet1(x) <= hi[1]
    &&& lo[2] <= octet2(x) <= hi[2]
    &&& lo[3] <= octet3(x) <= hi[3]
    &&& wildcard_keep(input, x)
}

/// `x` comes before the octets `(a, b, c, d)`.
pub open spec fn before(x: u32, a: nat, b: nat, c: nat, d: nat) -> bool {
    lex_less(octet0(x), octet1(x), octet2(x), octet3(x), a, b, c, d)
}

proof fn lemma_before_value(x: u32, a: nat, b: nat, c: nat, d: nat)
    requires
        before(x, a, b, c, d),
        a < 256,
        b < 256,
        c < 256,
        d < 256,
    ensures
        x < ipv4_value(a, b, c, d),
{
    lemma_ipv4_decompose(x);
    lemma_ipv4_order(octet0(x), octet1(x), octet2(x), octet3(x), a, b, c, d);
}

/// Every address within the bounds, ascending, visiting octet tuples in
/// lexicographic order.
#[verifier::rlimit(50)]
fn expand_bounds(lo: &Vec<u8>, hi: &Vec<u8>, input: &Vec<char>) -> (r: Vec<u32>)
    requires
        lo@.len() == 4,
        hi@.len() == 4,
        forall|k: int| 0 <= k < 4 ==> lo@[k] <= hi@[k],
    ensures
        strictly_ascending(r@),
        forall|x: u32| r@.contains(x) <==> in_bounds(lo@, hi@, input@, x),
{
    let mut r: Vec<u32> = Vec::new();
    let mut a: u16 = lo[0] as u16;
    while a <= hi[0] as u16
        invariant
            lo@.len() == 4,
            hi@.len() == 4,
            forall|k: int| 0 <= k < 4 ==> lo@[k] <= hi@[k],
            lo@[0] <= a <= hi@[0] + 1,
            strictly_ascending(r@),
            forall|i: int| 0 <= i < r@.len() ==> in_bounds(lo@, hi@, input@, #[trigger] r@[i]),
            forall|x: u32|
                #![trigger in_bounds(lo@, hi@, input@, x)]
                in_bounds(lo@, hi@, input@, x) ==> (r@.contains(x) <==> before(
                    x,
                    a as nat,
                    0,
                    0,
                    0,
                )),
        decreases hi[0] as u16 + 1 - a,
    {
        let mut b: u16 = lo[1] as u16;
        while b <= hi[1] as u16
            invariant
                lo@.len() == 4,
                hi@.len() == 4,
                forall|k: int| 0 <= k < 4 ==> lo@[k] <= hi@[k],
                lo@[0] <= a <= hi@[0],
                lo@[1] <= b <= hi@[1] + 1,
                strictly_ascending(r@),
                forall|i: int| 0 <= i < r@.len() ==> in_bounds(lo@, hi@, input@, #[trigger] r@[i]),
                forall|x: u32|
                    #![trigger in_bounds(lo@, hi@, input@, x)]
                    in_bounds(lo@, hi@, input@, x) ==> (r@.contains(x) <==> before(
                        x,
                        a as nat,
                        b as nat,
                        0,
                        0,
                    )),
            decreases hi[1] as u16 + 1 - b,
        {
            let mut c: u16 = lo[2] as u16;
            while c <= hi[2] as u16
                invariant
                    lo@.len() == 4,
                    hi@.len() == 4,
                    forall|k: int| 0 <= k < 4 ==> lo@[k] <= hi@[k],
                    lo@[0] <= a <= hi@[0],
                    lo@[1] <= b <= hi@[1],
                    lo@[2] <= c <= hi@[2] + 1,
                    strictly_ascending(r@),
                    forall|i: int|
                        0 <= i < r@.len() ==> in_bounds(lo@, hi@, input@, #[trigger] r@[i]),
                    forall|x: u32|
                        #![trigger in_bounds(lo@, hi@, input@, x)]
                        in_bounds(lo@, hi@, input@, x) ==> (r@.contains(x) <==> before(
                            x,
                            a as nat,
                            b as nat,
                            c as nat,
                            0,
                        )),
                decreases hi[2] as u16 + 1 - c,
            {
                let mut d: u16 = lo[3] as u16;
                while d <= hi[3] as u16
                    invariant
                        lo@.len() == 4,
                        hi@.len() == 4,
                        forall|k: int| 0 <= k < 4 ==> lo@[k] <= hi@[k],
                        lo@[0] <= a <= hi@[0],
                        lo@[1] <= b <= hi@[1],
                        lo@[2] <= c <= hi@[2],
                        lo@[3] <= d <= hi@[3] + 1,
                        strictly_ascending(r@),
                        forall|i: int|
                            0 <= i < r@.len() ==> in_bounds(lo@, hi@, input@, #[trigger] r@[i]),
                        forall|x: u32|
                            #![trigger in_bounds(lo@, hi@, input@, x)]
                            in_bounds(lo@, hi@, input@, x) ==> (r@.contains(x) <==> before(
                                x,
                                a as nat,
                                b as nat,
                                c as nat,
                                d as nat,
                            )),
                    decreases hi[3] as u16 + 1 - d,
                {
                    let ghost old_r = r@;
                    proof {
                        lemma_ipv4_octets(a as nat, b as nat, c as nat, d as nat);
                    }
                    let x: u32 = (a as u32) * 16777216 + (b as u32) * 65536 + (c as u32) * 256
                        + (d as u32);
                    let keep = d != 0 || contains_chars(
                        input,
                        &ipv4_text_chars(a as u8, b as u8, c as u8, d as u8),
                    );
                    assert(keep == wildcard_keep(input@, x));
                    if keep {
                        r.push(x);
                        proof {
                            assert forall|i: int, j: int|
                                0 <= i < j < r@.len() implies r@[i] < r@[j] by {
                                if j == r@.len() - 1 {
                                    assert(in_bounds(lo@, hi@, input@, old_r[i]));
                                    assert(old_r.contains(old_r[i]));
                                    lemma_before_value(
                                        old_r[i],
                                        a as nat,
                                        b as nat,
                                        c as nat,
                                        d as nat,
                                    );
                                }
                            }
                        }
                    }
                    proof {
                        assert forall|y: u32|
                            #![trigger in_bounds(lo@, hi@, input@, y)]
                            in_bounds(lo@, hi@, input@, y) implies (r@.contains(y) <==> before(
                                y,
                                a as nat,
                                b as nat,
                                c as nat,
                                (d + 1) as nat,
                            )) by {
                            lemma_ipv4_decompose(y);
                            if y == x {
                                assert(r@.contains(y)) by {
                                    assert(r@[r@.len() - 1] == x);
                                }
                            } else {
                                assert(octet0(y) != a || octet1(y) != b || octet2(y) != c
                                    || octet3(y) != d);
                                if r@.contains(y) {
                                    let k = choose|k: int| 0 <= k < r@.len() && r@[k] == y;
                                    if keep {
                                        assert(k < old_r.len());
                                    }
                                    assert(old_r[k] == y);
                                    assert(old_r.contains(y));
                                } else {
                                    if old_r.contains(y) {
                                        let k = choose|k: int| 0 <= k < old_r.len() && old_r[k] == y;
                                        assert(r@[k] == y);
                                    }
                                }
                            }
                        }
                    }
                    d = d + 1;
                }
                c = c + 1;
            }
            b = b + 1;
        }
        a = a + 1;
    }
    proof {
        assert forall|x: u32| r@.contains(x) <==> in_bounds(lo@, hi@, input@, x) by {
            if r@.contains(x) {
                let k = choose|k: int| 0 <= k < r@.len() && r@[k] == x;
                assert(in_bounds(lo@, hi@, input@, r@[k]));
            }
            if in_bounds(lo@, hi@, input@, x) {
                lemma_ipv4_decompose(x);
            }
        }
    }
    r
}

/// IP address parsing that reports, as `None`, the inputs on which
/// `parse_ip_input` has no result.
pub fn try_parse_ip_input(input: &str) -> (r: Option<Vec<u32>>)
    ensures
        r is Some <==> ip_input_accepted(input@),
        r matches Some(v) ==> ip_input_result(input@, v@),
{
    let upper = to_uppercase(input);
    let n = chars_of(upper.as_str());
    let ghost un = upper_text(input@);
    assert(n@ == un);
    if has_char(&n, '-') {
        let parts = split_chars(&n, '-');
        if parts.len() == 2 {
            assert(parts@[0]@ == split_on(un, '-')[0]);
            assert(parts@[1]@ == split_on(un, '-')[1]);
            match (parse_ipv4_chars(&parts[0]), parse_ipv4_chars(&parts[1])) {
                (Some(start), Some(end)) => {
                    if start > end {
                        None
                    } else {
                        Some(addresses_between(start, end))
                    }
                },
                _ => None,
            }
        } else {
            let r: Vec<u32> = Vec::new();
            assert(r@ =~= Seq::<u32>::empty());
            Some(r)
        }
    } else if has_char(&n, '/') {
        match parse_ipv4_network(upper.as_str()) {
            Some((addr, prefix)) => {
                if prefix == 0 {
                    None
                } else {
                    Some(addresses_of_network(addr, prefix))
                }
            },
            None => None,
        }
    } else if has_char(&n, 'X') {
        let groups = split_chars(&n, '.');
        let ghost sg = split_on(un, '.');
        if groups.len() != 4 {
            return None;
        }
        let mut lo: Vec<u8> = Vec::new();
        let mut hi: Vec<u8> = Vec::new();
        let mut k: usize = 0;
        while k < 4
            invariant
                k <= 4,
                groups@.len() == 4,
                un == upper_text(input@),
                !un.contains('-'),
                !un.contains('/'),
                un.contains('X'),
                sg == split_on(un, '.'),
                forall|m: int| 0 <= m < 4 ==> #[trigger] groups@[m]@ == sg[m],
                lo@.len() == k,
                hi@.len() == k,
                forall|m: int| 0 <= m < k ==> wildcard_group_ok(#[trigger] sg[m]),
                forall|m: int|
                    0 <= m < k ==> #[trigger] lo@[m] <= hi@[m] && forall|v: nat|
                        v < 256 ==> (wildcard_group_matches(sg[m], v) <==> lo@[m] <= v <= hi@[m]),
            decreases 4 - k,
        {
            match wildcard_bounds(&groups[k]) {
                Some((l, h)) => {
                    lo.push(l);
                    hi.push(h);
                },
                None => {
                    assert(!wildcard_group_ok(sg[k as int]));
                    return None;
                },
            }
            k = k + 1;
        }
        let input_chars = chars_of(input);
        let r = expand_bounds(&lo, &hi, &input_chars);
        proof {
            assert forall|x: u32|
                r@.contains(x) <==> (wildcard_match(sg, x) && wildcard_keep(input@, x)) by {
                lemma_ipv4_decompose(x);
                assert(lo@[0] <= hi@[0] && lo@[1] <= hi@[1] && lo@[2] <= hi@[2] && lo@[3] <= hi@[3]);
                assert(wildcard_group_matches(sg[0], octet0(x)) <==> lo@[0] <= octet0(x) <= hi@[0]);
                assert(wildcard_group_matches(sg[1], octet1(x)) <==> lo@[1] <= octet1(x) <= hi@[1]);
                assert(wildcard_group_matches(sg[2], octet2(x)) <==> lo@[2] <= octet2(x) <= hi@[2]);
                assert(wildcard_group_matches(sg[3], octet3(x)) <==> lo@[3] <= octet3(x) <= hi@[3]);
                assert(in_bounds(lo@, hi@, input@, x) <==> (wildcard_match(sg, x)
                    && wildcard_keep(input@, x)));
            }
        }
        Some(r)
    } else {
        let mut r: Vec<u32> = Vec::new();
        match parse_ipv4_chars(&n) {
            Some(a) => {
                r.push(a);
                assert(r@ =~= seq![a]);
            },
            None => {
                assert(r@ =~= Seq::<u32>::empty());
            },
        }
        Some(r)
    }
}

/// Parses IP address input into the addresses it denotes, each as its
/// 32-bit value. Supported forms: a range `"192.168.1.1-192.168.1.255"`,
/// a CIDR block `"192.168.1.0/24"`, a wildcard pattern `"192.168.X.X"`, and
/// a single address `"192.168.1.1"`.
pub fn parse_ip_input(input: &str) -> (r: Vec<u32>)
    requires
        ip_input_accepted(input@),
    ensures
        ip_input_result(input@, r@),
{
    match try_parse_ip_input(input) {
        Some(v) => v,
        None => {
            proof {
                assert(false);
            }
            Vec::new()
        },
    }
}

/// A letter of the ASCII alphabet, in either case.
pub open spec fn is_ascii_letter(c: char) -> bool {
    ('a' <= c && c <= 'z') || ('A' <= c && c <= 'Z')
}

/// Upper-casing ASCII text gives ASCII text, and upper-casing it again
/// changes nothing.
proof fn lemma_upper_ascii(s: Seq<char>)
    requires
        is_ascii_text(s),
    ensures
        is_ascii_text(upper_text(s)),
        upper_text(upper_text(s)) == upper_text(s),
{
    let u = s.map_values(|c: char| ascii_upper(c));
    assert forall|i: int| 0 <= i < u.len() implies (#[trigger] u[i] as u32) < 128 by {
        assert((s[i] as u32) < 128);
    }
    assert(upper_text(s) == u);
    assert(u.map_values(|c: char| ascii_upper(c)) =~= u);
}

/// Upper-casing the text searched in does not change where a piece without
/// letters occurs.
proof fn lemma_contains_ignores_case(s: Seq<char>, t: Seq<char>)
    requires
        forall|k: int| 0 <= k < t.len() ==> !is_ascii_letter(#[trigger] t[k]),
    ensures
        contains_text(s.map_values(|c: char| ascii_upper(c)), t) == contains_text(s, t),
{
    let u = s.map_values(|c: char| ascii_upper(c));
    if contains_text(s, t) {
        let i = choose|i: int|
            0 <= i && i + t.len() <= s.len() && #[trigger] s.subrange(i, i + t.len()) == t;
        assert(u.subrange(i, i + t.len()) =~= t) by {
            assert forall|k: int| 0 <= k < t.len() implies u.subrange(i, i + t.len())[k] == t[k] by {
                assert(s[i + k] == t[k]);
            }
        }
    }
    if contains_text(u, t) {
        let i = choose|i: int|
            0 <= i && i + t.len() <= u.len() && #[trigger] u.subrange(i, i + t.len()) == t;
        assert(s.subrange(i, i + t.len()) =~= t) by {
            assert forall|k: int| 0 <= k < t.len() implies s.subrange(i, i + t.len())[k] == t[k] by {
                assert(u[i + k] == t[k]);
                assert(!is_ascii_letter(t[k]));
            }
        }
    }
}

/// The text of an address holds no letter.
proof fn lemma_ipv4_text_no_letters(x: u32)
    ensures
        forall|k: int| 0 <= k < ipv4_text(x).len() ==> !is_ascii_letter(#[trigger] ipv4_text(x)[k]),
{
    lemma_decimal_text(octet0(x));
    lemma_decimal_text(octet1(x));
    lemma_decimal_text(octet2(x));
    lemma_decimal_text(octet3(x));
    let t = ipv4_text(x);
    assert forall|k: int| 0 <= k < t.len() implies !is_ascii_letter(#[trigger] t[k]) by {
        let t0 = decimal_text(octet0(x));
        let t1 = decimal_text(octet1(x));
        let t2 = decimal_text(octet2(x));
        let t3 = decimal_text(octet3(x));
        if k < t0.len() {
            assert(t[k] == t0[k]);
        } else if k == t0.len() {
        } else if k < t0.len() + 1 + t1.len() {
            assert(t[k] == t1[k - t0.len() - 1]);
        } else if k == t0.len() + 1 + t1.len() {
        } else if k < t0.len() + 2 + t1.len() + t2.len() {
            assert(t[k] == t2[k - t0.len() - 2 - t1.len()]);
        } else if k == t0.len() + 2 + t1.len() + t2.len() {
        } else {
            assert(t[k] == t3[k - t0.len() - 3 - t1.len() - t2.len()]);
        }
    }
}

/// IP input in ASCII means what its upper-case form means: one is accepted
/// exactly when the other is, and both give the same addresses; so `x` is a
/// wildcard as `X` is.
pub proof fn law_ip_input_ignores_case(s: Seq<char>)
    requires
        is_ascii_text(s),
    ensures
        ip_input_accepted(upper_text(s)) == ip_input_accepted(s),
        forall|r: Seq<u32>| #[trigger] ip_input_result(upper_text(s), r) == ip_input_result(s, r),
{
    lemma_upper_ascii(s);
    assert forall|x: u32| #[trigger] wildcard_keep(upper_text(s), x) == wildcard_keep(s, x) by {
        lemma_ipv4_text_no_letters(x);
        lemma_contains_ignores_case(s, ipv4_text(x));
    }
}

} // verus!
