//! The texts that a connection handler produces: the HTTP reply sent to
//! each client, and the log entry for a service found behind a port.

use vstd::prelude::*;
use vstd::string::StrSliceExecFns;
use crate::text::{
    append_decimal, chars_of, decimal_text, lemma_decimal_text, parse_unsigned, trim, trim_range,
};

verus! {

/// The HTTP reply to a client that connected to `port`: a small HTML page
/// naming the port and the time the reply was made.
pub open spec fn response_text(port: u16, timestamp: Seq<char>) -> Seq<char> {
    "HTTP/1.1 200 OK\r\nContent-Type: text/html\r\n\r\n<html><body><h1>Port "@ + decimal_text(
        port as nat,
    ) + "</h1><p>Active since: "@ + timestamp + "</p></body></html>"@
}

/// What a reply page holds before the port: the status line, the headers
/// and the opening of the heading.
pub open spec fn page_head() -> Seq<char> {
    "HTTP/1.1 200 OK\r\nContent-Type: text/html\r\n\r\n<html><body><h1>Port "@
}

/// What a reply page holds after the port: the close of the heading and the
/// time the reply was made.
pub open spec fn page_tail(timestamp: Seq<char>) -> Seq<char> {
    "</h1><p>Active since: "@ + timestamp + "</p></body></html>"@
}

/// The text of a number reads back, as `str::parse::<u16>` reads it, as the
/// number.
proof fn lemma_port_text_reads_back(port: u16)
    ensures
        parse_unsigned(decimal_text(port as nat), 65535) == Some(port as nat),
{
    lemma_decimal_text(port as nat);
    assert(decimal_text(port as nat)[0] != '+');
}

/// The reply page opens with its fixed head and closes with the time it was
/// made, and what stands between them, the heading's number, reads back as
/// the port the client connected to.
pub proof fn law_response_names_the_port(port: u16, timestamp: Seq<char>)
    ensures
        response_text(port, timestamp).len() >= page_head().len() + page_tail(timestamp).len(),
        response_text(port, timestamp).take(page_head().len() as int) == page_head(),
        response_text(port, timestamp).skip(
            response_text(port, timestamp).len() - page_tail(timestamp).len(),
        ) == page_tail(timestamp),
        parse_unsigned(
            response_text(port, timestamp).subrange(
                page_head().len() as int,
                response_text(port, timestamp).len() - page_tail(timestamp).len(),
            ),
            65535,
        ) == Some(port as nat),
{
    let r = response_text(port, timestamp);
    let h = page_head();
    let d = decimal_text(port as nat);
    let t = page_tail(timestamp);
    assert(r =~= h + d + t);
    assert(r.take(h.len() as int) =~= h);
    assert(r.skip(r.len() - t.len()) =~= t);
    assert(r.subrange(h.len() as int, r.len() - t.len()) =~= d);
    lemma_port_text_reads_back(port);
}

/// The HTTP reply to a client that connected to `port`, made at
/// `timestamp`.
pub fn connection_response(port: u16, timestamp: &str) -> (r: String)
    ensures
        r@ == response_text(port, timestamp@),
{
    let mut r = String::from_str(
        "HTTP/1.1 200 OK\r\nContent-Type: text/html\r\n\r\n<html><body><h1>Port ",
    );
    append_decimal(&mut r, port as u64);
    r.append("</h1><p>Active since: ");
    r.append(timestamp);
    r.append("</p></body></html>");
    r
}

/// A separator line of fifty dashes.
pub open spec fn separator_line() -> Seq<char> {
    Seq::new(50, |i: int| '-')
}

/// The log entry for a service found at `ip`:`port` at `timestamp`: a
/// header line, a separator line, and the service's answer without
/// surrounding white space.
pub open spec fn discovery_text(
    timestamp: Seq<char>,
    ip: Seq<char>,
    port: u16,
    content: Seq<char>,
) -> Seq<char> {
    seq!['['] + timestamp + seq![']', ' '] + ip + seq![':'] + decimal_text(port as nat) + seq!['\n']
        + separator_line() + seq!['\n'] + trim(content) + seq!['\n']
}

/// A log entry opens with the time in brackets, a space and the address;
/// the address is followed by a colon and the port, whose text reads back as
/// the port. It closes with a line break, fifty dashes, a line break, the
/// service's whole answer without its leading and trailing white space, and
/// a final line break.
pub proof fn law_entry_holds_the_whole_answer(
    timestamp: Seq<char>,
    ip: Seq<char>,
    port: u16,
    content: Seq<char>,
)
    ensures
        ({
            let e = discovery_text(timestamp, ip, port, content);
            let b = trim(content);
            let n = e.len() as int;
            let t = timestamp.len() as int;
            let l = ip.len() as int;
            let m = b.len() as int;
            let head = t + l + 4;
            &&& n >= head + 53 + m
            &&& e[0] == '['
            &&& e.subrange(1, t + 1) == timestamp
            &&& e[t + 1] == ']'
            &&& e[t + 2] == ' '
            &&& e.subrange(t + 3, t + 3 + l) == ip
            &&& e[t + 3 + l] == ':'
            &&& parse_unsigned(e.subrange(head, n - m - 53), 65535) == Some(port as nat)
            &&& e[n - m - 53] == '\n'
            &&& forall|k: int| n - m - 52 <= k < n - m - 2 ==> e[k] == '-'
            &&& e[n - m - 2] == '\n'
            &&& e.subrange(n - m - 1, n - 1) == b
            &&& e[n - 1] == '\n'
        }),
{
    let e = discovery_text(timestamp, ip, port, content);
    let b = trim(content);
    let d = decimal_text(port as nat);
    let front = seq!['['] + timestamp + seq![']', ' '] + ip + seq![':'];
    let back = seq!['\n'] + separator_line() + seq!['\n'] + b + seq!['\n'];
    assert(e =~= front + d + back);
    let n = e.len() as int;
    let t = timestamp.len() as int;
    let l = ip.len() as int;
    let m = b.len() as int;
    let head = t + l + 4;
    assert(front.len() == head);
    assert(e.subrange(head, n - m - 53) =~= d);
    assert(e.subrange(1, t + 1) =~= timestamp);
    assert(e.subrange(t + 3, t + 3 + l) =~= ip);
    assert(e.subrange(n - m - 1, n - 1) =~= b);
    assert forall|k: int| n - m - 52 <= k < n - m - 2 implies e[k] == '-' by {
        assert(e[k] == separator_line()[k - (n - m - 52)]);
    }
    lemma_port_text_reads_back(port);
}

/// The log entry for a service found at `ip`:`port` at `timestamp`, whose
/// answer was `content`.
pub fn discovery_entry(timestamp: &str, ip: &str, port: u16, content: &str) -> (r: String)
    ensures
        r@ == discovery_text(timestamp@, ip@, port, content@),
{
    let open = "[";
    let close = "] ";
    let colon = ":";
    let newline = "\n";
    let dash = "-";
    proof {
        reveal_strlit("[");
        reveal_strlit("] ");
        reveal_strlit(":");
        reveal_strlit("\n");
        reveal_strlit("-");
    }
    let mut r = String::from_str(open);
    r.append(timestamp);
    r.append(close);
    r.append(ip);
    r.append(colon);
    append_decimal(&mut r, port as u64);
    r.append(newline);
    let ghost head = r@;
    let mut k: usize = 0;
    while k < 50
        invariant
            k <= 50,
            dash@ == seq!['-'],
            r@ == head + Seq::new(k as nat, |i: int| '-'),
        decreases 50 - k,
    {
        r.append(dash);
        assert(Seq::new((k + 1) as nat, |i: int| '-') =~= Seq::new(k as nat, |i: int| '-').push(
            '-',
        ));
        k = k + 1;
    }
    r.append(newline);
    let chars = chars_of(content);
    let (i, j) = trim_range(&chars);
    let body = content.substring_char(i, j);
    r.append(body);
    r.append(newline);
    assert(r@ =~= discovery_text(timestamp@, ip@, port, content@));
    r
}

} // verus!
