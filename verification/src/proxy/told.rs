//! What the first bytes of other protocols tell, as clients write them.
use crate::dns::message;
use crate::proxy::sniff::{self, SniffView};
use crate::text;
use crate::wire;
use vstd::prelude::*;

verus! {

proof fn lemma_query_told(b: Seq<u8>, id: u16, name: Seq<char>, qtype: u16, subnet: Option<Seq<char>>)
    requires
        message::query_wire(id, name, qtype, subnet) == Ok::<Seq<u8>, message::DnsError>(b),
    ensures
        b.len() >= 12,
        b[2] < 0x80,
        wire::be16(b, 4) > 0,
        message::question_labels(b, 12) is Ok,
        text::join(message::question_labels(b, 12)->Ok_0.0, '.') == name,
{
    let header = message::query_header(id, subnet is Some);
    let fields = wire::bytes16(qtype as nat) + wire::bytes16(1);
    let after = if subnet is Some {
        fields + message::subnet_wire(crate::net::net_or_ip_text(subnet->0)->0)
    } else {
        fields
    };
    let l = message::labels(name);
    assert(b =~= header + (message::labels_wire(l) + seq![0u8]) + after);
    assert(header.len() == 12);
    message::lemma_labels_read_back(header, l, after);
    text::lemma_join_split(name, '.');
    assert(b[2] == 1 && b[4] == 0 && b[5] == 1);
}

/// A query tells the name that it asks for, in lower case: in a datagram whatever
/// else is looked for, and behind its length on a connection.
pub proof fn a_query_tells_its_name(
    id: u16,
    name: Seq<char>,
    qtype: u16,
    subnet: Option<Seq<char>>,
    on: Seq<Seq<char>>,
    rest: Seq<u8>,
)
    requires
        message::query_wire(id, name, qtype, subnet) is Ok,
        message::query_wire(id, name, qtype, subnet)->Ok_0.len() < 0x1_0000,
        on.len() == 0 || on.contains("dns"@),
    ensures
        ({
            let b = message::query_wire(id, name, qtype, subnet)->Ok_0;
            let told = Some(
                SniffView { protocol: "dns"@, domain: Some(text::lower(name)), client: None },
            );
            &&& sniff::sniffed(b, true, on) == told
            &&& sniff::sniffed(wire::bytes16(b.len()) + b + rest, false, seq!["dns"@]) == told
        }),
{
    let b = message::query_wire(id, name, qtype, subnet)->Ok_0;
    lemma_query_told(b, id, name, qtype, subnet);
    let data = wire::bytes16(b.len()) + b + rest;
    assert(data.subrange(0, 2) =~= wire::bytes16(b.len()));
    wire::lemma_be16(data, 0, b.len());
    assert(data.subrange(2, 2 + b.len() as int) =~= b);
    assert(data.skip(2) =~= b + rest);
    let only = seq!["dns"@];
    assert(only[0] == "dns"@);
    lemma_only_dns();
    lemma_labels_with_more(b, rest, 12);
}

proof fn lemma_only_dns()
    ensures
        seq!["dns"@].contains("dns"@),
        !seq!["dns"@].contains("tls"@),
        !seq!["dns"@].contains("http"@),
        !seq!["dns"@].contains("ssh"@),
        !seq!["dns"@].contains("rdp"@),
{
    let only = seq!["dns"@];
    assert(only[0] == "dns"@);
    reveal_strlit("dns");
    reveal_strlit("tls");
    reveal_strlit("http");
    reveal_strlit("ssh");
    reveal_strlit("rdp");
    assert("dns"@[0] == 'd' && "tls"@[0] == 't' && "http"@[0] == 'h' && "ssh"@[0] == 's'
        && "rdp"@[0] == 'r');
}

proof fn lemma_labels_with_more(b: Seq<u8>, rest: Seq<u8>, p: int)
    requires
        0 <= p,
        message::question_labels(b, p) is Ok,
    ensures
        message::question_labels(b + rest, p) == message::question_labels(b, p),
    decreases b.len() - p,
{
    let c = b + rest;
    if p < b.len() && b[p] != 0 {
        let q = p + 1 + b[p];
        assert(c.subrange(p + 1, q) =~= b.subrange(p + 1, q));
        lemma_labels_with_more(b, rest, q);
    }
}

/// A request of HTTP tells the host of the first line that is named so, and the
/// client of the first that is named `User-Agent`, whatever the case of the names.
pub proof fn a_request_tells_its_host(
    data: Seq<u8>,
    on: Seq<Seq<char>>,
    i: int,
    name: Seq<char>,
    value: Seq<char>,
)
    requires
        sniff::http_start(data),
        on.len() == 0 || on.contains("http"@),
        0 <= i < text::lines(text::lossy(data)).len(),
        text::lines(text::lossy(data))[i] == name + seq![':'] + value,
        !name.contains(':'),
        forall|j: int|
            0 <= j < i ==> (text::split_once(#[trigger] text::lines(text::lossy(data))[j], ':')
                matches Some((n, _)) ==> text::lower(n) != text::lower(name)),
    ensures
        sniff::sniffed(data, false, on) matches Some(told) && {
            &&& told.protocol == "http"@
            &&& text::lower(name) == "host"@ ==> told.domain == Some(sniff::host_of(value))
            &&& text::lower(name) == "user-agent"@ ==> told.client == Some(text::trim_space(value))
        },
{
    let ls = text::lines(text::lossy(data));
    reveal_strlit("host");
    reveal_strlit("user-agent");
    assert(text::lower("host"@) =~= "host"@);
    assert(text::lower("user-agent"@) =~= "user-agent"@);
    text::lemma_lower_idempotent(name);
    lemma_field_found(ls, name, value, i, "host"@);
    lemma_field_found(ls, name, value, i, "user-agent"@);
    assert(data[0] != 0x16) by {
        assert(data.take(4)[0] == data[0]);
    }
    if text::starts_with(data, seq![0x16u8, 0x03]) {
        assert(data.take(2)[0] == data[0]);
    }
}

proof fn lemma_field_found(
    ls: Seq<Seq<char>>,
    name: Seq<char>,
    value: Seq<char>,
    i: int,
    wanted: Seq<char>,
)
    requires
        0 <= i < ls.len(),
        ls[i] == name + seq![':'] + value,
        !name.contains(':'),
        forall|j: int|
            0 <= j < i ==> (text::split_once(#[trigger] ls[j], ':') matches Some((n, _))
                ==> text::lower(n) != text::lower(name)),
    ensures
        text::lower(name) == text::lower(wanted) ==> text::header_value(ls, wanted) == Some(value),
    decreases i,
{
    if text::lower(name) == text::lower(wanted) {
        let rest = ls.skip(1);
        if i == 0 {
            let line = ls[0];
            assert forall|j: int| 0 <= j < name.len() implies name[j] != ':' by {
                assert(name.contains(name[j]));
            }
            text::lemma_span(line, ':', name.len() as int);
            assert(line.take(name.len() as int) =~= name);
            assert(line.skip(name.len() as int + 1) =~= value);
        } else {
            assert(ls[0] == ls[0]);
            assert(text::split_once(ls[0], ':') matches Some((n, _)) ==> text::lower(n)
                != text::lower(name));
            assert forall|j: int| 0 <= j < i - 1 implies (text::split_once(
                #[trigger] rest[j],
                ':',
            ) matches Some((n, _)) ==> text::lower(n) != text::lower(name)) by {
                assert(rest[j] == ls[j + 1]);
            }
            lemma_field_found(rest, name, value, i - 1, wanted);
        }
    }
}

/// The host of a field is what stands in it, without the port behind it and the
/// white space in front.
pub proof fn hosts_are_told_without_their_ports(host: Seq<char>, behind: Seq<char>)
    requires
        host.len() > 0,
        forall|i: int|
            0 <= i < host.len() ==> !text::is_space(#[trigger] host[i]) && !sniff::is_bracket(
                host[i],
            ) && host[i] != ':',
        forall|i: int|
            0 <= i < behind.len() ==> !text::is_space(#[trigger] behind[i]) && !sniff::is_bracket(
                behind[i],
            ),
    ensures
        sniff::host_of(host) == host,
        sniff::host_of(seq![' '] + host) == host,
        sniff::host_of(host + seq![':'] + behind) == host,
        sniff::host_of(seq![' '] + host + seq![':'] + behind) == host,
{
    lemma_host(host, host, host.len() as int);
    lemma_host(seq![' '] + host, host, host.len() as int);
    let long = host + seq![':'] + behind;
    lemma_host(long, long, host.len() as int);
    assert(seq![' '] + host + seq![':'] + behind =~= seq![' '] + long);
    lemma_host(seq![' '] + long, long, host.len() as int);
    assert(host.take(host.len() as int) =~= host);
    assert(long.take(host.len() as int) =~= host);
}

proof fn lemma_host(value: Seq<char>, s: Seq<char>, n: int)
    requires
        value == s || value == seq![' '] + s,
        0 < n <= s.len(),
        forall|i: int|
            0 <= i < s.len() ==> !text::is_space(#[trigger] s[i]) && !sniff::is_bracket(s[i]),
        forall|i: int| 0 <= i < n ==> s[i] != ':',
        n < s.len() ==> s[n] == ':',
    ensures
        sniff::host_of(value) == s.take(n),
{
    reveal_with_fuel(text::skip_space, 2);
    reveal_with_fuel(text::drop_space, 2);
    assert((seq![' '] + s).skip(1) =~= s);
    assert(text::skip_space(value) == s);
    assert(text::drop_space(s) == s);
    assert(s.last() == s[s.len() - 1]);
    assert(text::trim_space(value) == s) by {
        assert(value.last() == s.last());
        assert(text::drop_space(value) == value);
    }
    assert(sniff::skip_brackets(s) == s);
    assert(sniff::drop_brackets(s) == s);
    text::lemma_span(s, ':', n);
}

/// A client of SSH tells its own first line.
pub proof fn a_shell_tells_its_first_line(data: Seq<u8>)
    requires
        data.len() >= 4,
        data[0] == 'S' as u8 && data[1] == 'S' as u8 && data[2] == 'H' as u8 && data[3]
            == '-' as u8,
        text::lines(text::lossy(data)).len() > 0,
    ensures
        sniff::sniffed(data, false, Seq::empty()) == Some(
            SniffView {
                protocol: "ssh"@,
                domain: None,
                client: Some(text::lines(text::lossy(data))[0]),
            },
        ),
{
    assert(data.take(4) =~= seq![0x53u8, 0x53, 0x48, 0x2d]);
    let mark = data.take(4);
    assert(mark[0] == 0x53 && mark[1] == 0x53);
    assert(data[0] == 0x53 && data[1] == 0x53);
    if data.len() >= 2 && data.take(2) == seq![0x16u8, 0x03] {
        assert(data.take(2)[0] == data[0]);
    }
    assert(!sniff::http_start(data)) by {
        assert(seq![0x47u8, 0x45, 0x54, 0x20][0] == 0x47);
        assert(seq![0x50u8, 0x4f, 0x53, 0x54][0] == 0x50);
        assert(seq![0x48u8, 0x45, 0x41, 0x44][0] == 0x48);
        assert(seq![0x50u8, 0x55, 0x54, 0x20][0] == 0x50);
        assert(seq![0x4fu8, 0x50, 0x54, 0x49][0] == 0x4f);
        assert(seq![0x43u8, 0x4f, 0x4e, 0x4e][0] == 0x43);
        assert(seq![0x44u8, 0x45, 0x4c, 0x45][0] == 0x44);
        assert(seq![0x50u8, 0x41, 0x54, 0x43][0] == 0x50);
    }
}

} // verus!
