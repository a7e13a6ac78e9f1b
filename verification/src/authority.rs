//! Endpoints and the authorities of presigned requests.

use crate::bytes;
use crate::number;
use vstd::prelude::*;

verus! {

/// A byte that may stand in an endpoint's name.
#[verifier::allow_in_spec]
pub fn is_endpoint_byte(b: u8) -> bool
    returns
        bytes::is_alphanumeric(b) || b == '.' as u8 || b == '_' as u8 || b == '-' as u8,
{
    bytes::is_alphanumeric(b) || b == '.' as u8 || b == '_' as u8 || b == '-' as u8
}

/// One to 128 letters, digits, dots, underscores and hyphens.
pub open spec fn is_endpoint(endpoint: Seq<u8>) -> bool {
    1 <= endpoint.len() <= 128 && bytes::all(endpoint, |b: u8| is_endpoint_byte(b))
}

pub fn valid_endpoint(endpoint: &[u8]) -> (result: bool)
    ensures
        result == is_endpoint(endpoint@),
{
    !endpoint.is_empty() && endpoint.len() <= 128 && bytes::all_bytes(
        endpoint,
        is_endpoint_byte,
        Ghost(|b: u8| is_endpoint_byte(b)),
    )
}

/// A port other than zero, in decimal digits.
pub open spec fn is_port(port: Seq<u8>) -> bool {
    number::parsed(port, 10, u16::MAX as nat) matches Some(value) && value != 0
}

pub fn valid_port(port: &[u8]) -> (result: bool)
    ensures
        result == is_port(port@),
{
    match number::parse(port, 10, u16::MAX as u64) {
        Some(value) => value != 0,
        None => false,
    }
}

/// One to four hexadecimal digits.
pub open spec fn is_group(s: Seq<u8>) -> bool {
    1 <= s.len() <= 4 && bytes::all(s, |b: u8| bytes::is_hex_digit(b))
}

fn valid_group(s: &[u8]) -> (result: bool)
    ensures
        result == is_group(s@),
{
    !s.is_empty() && s.len() <= 4 && bytes::all_bytes(
        s,
        bytes::is_hex_digit,
        Ghost(|b: u8| bytes::is_hex_digit(b)),
    )
}

/// A number from 0 to 255 in one to three digits without leading zeros.
pub open spec fn is_octet(s: Seq<u8>) -> bool {
    s.len() <= 3 && number::parsed(s, 10, 255) is Some && !(s.len() > 1 && s[0] == '0' as u8)
}

fn valid_octet(s: &[u8]) -> (result: bool)
    ensures
        result == is_octet(s@),
{
    s.len() <= 3 && number::parse(s, 10, 255).is_some() && !(s.len() > 1 && s[0] == '0' as u8)
}

/// Four octets between dots.
pub open spec fn is_ipv4(s: Seq<u8>) -> bool {
    let octets = bytes::split_on(s, seq!['.' as u8]);
    octets.len() == 4 && forall|i: int| 0 <= i < octets.len() ==> is_octet(#[trigger] octets[i])
}

fn valid_ipv4(s: &[u8]) -> (result: bool)
    ensures
        result == is_ipv4(s@),
{
    let mark: [u8; 1] = ['.' as u8];
    assert(mark@ =~= seq!['.' as u8]);
    let octets: Vec<&[u8]> = bytes::split(s, &mark);
    let ghost all = bytes::split_on(s@, seq!['.' as u8]);
    if octets.len() != 4 {
        return false;
    }
    let mut i: usize = 0;
    while i < octets.len()
        invariant
            i <= octets@.len(),
            octets@.len() == 4,
            bytes::pieces(octets@) == all,
            all == bytes::split_on(s@, seq!['.' as u8]),
            forall|k: int| 0 <= k < i ==> is_octet(#[trigger] all[k]),
        decreases octets.len() - i,
    {
        assert(bytes::pieces(octets@)[i as int] == octets@[i as int]@);
        if !valid_octet(octets[i]) {
            assert(!is_octet(all[i as int]));
            return false;
        }
        i += 1;
    }
    true
}

/// How many groups of an IPv6 address a text gives between colons: none where
/// it is empty, one for each group, and two for an IPv4 address at its end,
/// where that is admitted.
pub open spec fn group_count(s: Seq<u8>, with_ipv4: bool) -> Option<int> {
    let parts = bytes::split_on(s, seq![':' as u8]);
    let n = parts.len() as int;
    if s.len() == 0 {
        Some(0)
    } else if exists|i: int| 0 <= i < n - 1 && !is_group(#[trigger] parts[i]) {
        None
    } else if is_group(parts.last()) {
        Some(n)
    } else if with_ipv4 && is_ipv4(parts.last()) {
        Some(n + 1)
    } else {
        None
    }
}

fn count_groups(s: &[u8], with_ipv4: bool) -> (result: Option<usize>)
    requires
        s@.len() <= 255,
    ensures
        match group_count(s@, with_ipv4) {
            Some(n) => result == Some(n as usize) && 0 <= n <= s@.len() + 2,
            None => result is None,
        },
{
    if s.is_empty() {
        return Some(0);
    }
    let mark: [u8; 1] = [':' as u8];
    assert(mark@ =~= seq![':' as u8]);
    let parts: Vec<&[u8]> = bytes::split(s, &mark);
    let ghost all = bytes::split_on(s@, seq![':' as u8]);
    proof {
        bytes::lemma_split_count(s@, seq![':' as u8]);
    }
    let last: usize = parts.len() - 1;
    let mut i: usize = 0;
    while i < last
        invariant
            i <= last,
            last + 1 == parts@.len(),
            bytes::pieces(parts@) == all,
            all == bytes::split_on(s@, seq![':' as u8]),
            0 < s@.len() <= 255,
            last <= s@.len(),
            forall|k: int| 0 <= k < i ==> is_group(#[trigger] all[k]),
        decreases last - i,
    {
        assert(bytes::pieces(parts@)[i as int] == parts@[i as int]@);
        if !valid_group(parts[i]) {
            assert(!is_group(all[i as int]));
            return None;
        }
        i += 1;
    }
    assert(bytes::pieces(parts@)[last as int] == parts@[last as int]@);
    assert(all.last() == parts@[last as int]@);
    if valid_group(parts[last]) {
        Some(parts.len())
    } else if with_ipv4 && valid_ipv4(parts[last]) {
        Some(last + 2)
    } else {
        None
    }
}

/// An IPv6 address: eight groups, or at most seven around one `::` that stands
/// for the missing ones. An IPv4 address may give the last two groups.
pub open spec fn is_ipv6(s: Seq<u8>) -> bool {
    match bytes::first_index(s, seq![':' as u8, ':' as u8]) {
        None => group_count(s, true) == Some(8int),
        Some(i) => group_count(bytes::before(s, i), false) matches Some(head) && group_count(
            bytes::after(s, i + 2),
            true,
        ) matches Some(tail) && head + tail <= 7,
    }
}

fn valid_ipv6(s: &[u8]) -> (result: bool)
    requires
        s@.len() <= 255,
    ensures
        result == is_ipv6(s@),
{
    let mark: [u8; 2] = [':' as u8, ':' as u8];
    assert(mark@ =~= seq![':' as u8, ':' as u8]);
    match bytes::find(s, &mark) {
        None => match count_groups(s, true) {
            Some(n) => n == 8,
            None => false,
        },
        Some(i) => {
            match (count_groups(&s[0..i], false), count_groups(&s[i + 2..s.len()], true)) {
                (Some(head), Some(tail)) => head + tail <= 7,
                _ => false,
            }
        },
    }
}

/// A byte that may stand in a host's name.
#[verifier::allow_in_spec]
pub fn is_host_byte(b: u8) -> bool
    returns
        bytes::is_alphanumeric(b) || b == '.' as u8 || b == '-' as u8,
{
    bytes::is_alphanumeric(b) || b == '.' as u8 || b == '-' as u8
}

/// An IPv6 address in brackets, where there is one, and a port behind a colon,
/// where there is one.
pub open spec fn is_bracketed(rest: Seq<u8>) -> bool {
    match bytes::first_index(rest, seq![']' as u8]) {
        None => false,
        Some(i) => {
            let suffix = bytes::after(rest, i + 1);
            is_ipv6(bytes::before(rest, i)) && (suffix.len() == 0 || (suffix[0] == ':' as u8
                && is_port(bytes::after(suffix, 1))))
        },
    }
}

/// The authority of a presigned request: a host's name or an IPv6 address in
/// brackets, and perhaps a port, in at most 255 ASCII characters.
pub open spec fn is_authority(authority: Seq<u8>) -> bool {
    let parts = bytes::split_on(authority, seq![':' as u8]);
    &&& 1 <= authority.len() <= 255
    &&& bytes::is_ascii(authority)
    &&& if authority[0] == '[' as u8 {
        is_bracketed(bytes::after(authority, 1))
    } else {
        &&& parts.len() <= 2
        &&& parts[0].len() > 0
        &&& bytes::all(parts[0], |b: u8| is_host_byte(b))
        &&& parts.len() == 2 ==> is_port(parts[1])
    }
}

pub fn valid_presigned_authority(authority: &[u8]) -> (result: bool)
    ensures
        result == is_authority(authority@),
{
    if authority.is_empty() || authority.len() > 255 || !bytes::ascii(authority) {
        return false;
    }
    if authority[0] == '[' as u8 {
        let rest = &authority[1..authority.len()];
        let mark: [u8; 1] = [']' as u8];
        assert(mark@ =~= seq![']' as u8]);
        return match bytes::find(rest, &mark) {
            None => false,
            Some(i) => {
                let suffix = &rest[i + 1..rest.len()];
                valid_ipv6(&rest[0..i]) && (suffix.is_empty() || (suffix[0] == ':' as u8
                    && valid_port(&suffix[1..suffix.len()])))
            },
        };
    }
    let mark: [u8; 1] = [':' as u8];
    assert(mark@ =~= seq![':' as u8]);
    let parts: Vec<&[u8]> = bytes::split(authority, &mark);
    let ghost all = bytes::pieces(parts@);
    assert(all[0] == parts@[0]@);
    let host = parts[0];
    if parts.len() > 2 || host.is_empty() || !bytes::all_bytes(
        host,
        is_host_byte,
        Ghost(|b: u8| is_host_byte(b)),
    ) {
        return false;
    }
    if parts.len() == 2 {
        assert(all[1] == parts@[1]@);
        valid_port(parts[1])
    } else {
        true
    }
}

proof fn lemma_port_is_graphic(port: Seq<u8>)
    requires
        is_port(port),
    ensures
        bytes::all(port, |b: u8| bytes::is_graphic(b)),
{
    assert forall|i: int| 0 <= i < port.len() implies bytes::is_graphic(#[trigger] port[i]) by {
        assert(number::is_radix_digit(port[i], 10));
    }
}

proof fn lemma_ipv4_is_graphic(s: Seq<u8>)
    requires
        is_ipv4(s),
    ensures
        bytes::all(s, |b: u8| bytes::is_graphic(b)),
{
    let dot = seq!['.' as u8];
    let octets = bytes::split_on(s, dot);
    assert forall|k: int| 0 <= k < octets.len() implies bytes::all(
        #[trigger] octets[k],
        |b: u8| bytes::is_graphic(b),
    ) by {
        let octet = octets[k];
        assert(is_octet(octet));
        assert forall|i: int| 0 <= i < octet.len() implies bytes::is_graphic(
            #[trigger] octet[i],
        ) by {
            assert(number::is_radix_digit(octet[i], 10));
        }
    }
    bytes::lemma_joined_all(s, dot, |b: u8| bytes::is_graphic(b));
}

proof fn lemma_groups_are_graphic(s: Seq<u8>, with_ipv4: bool)
    requires
        group_count(s, with_ipv4) is Some,
    ensures
        bytes::all(s, |b: u8| bytes::is_graphic(b)),
{
    let colon = seq![':' as u8];
    let parts = bytes::split_on(s, colon);
    if s.len() > 0 {
        assert forall|k: int| 0 <= k < parts.len() implies bytes::all(
            #[trigger] parts[k],
            |b: u8| bytes::is_graphic(b),
        ) by {
            let part = parts[k];
            if is_group(part) {
                assert forall|i: int| 0 <= i < part.len() implies bytes::is_graphic(
                    #[trigger] part[i],
                ) by {
                    assert(bytes::is_hex_digit(part[i]));
                }
            } else {
                assert(part == parts.last());
                lemma_ipv4_is_graphic(part);
            }
        }
        bytes::lemma_joined_all(s, colon, |b: u8| bytes::is_graphic(b));
    }
}

proof fn lemma_ipv6_is_graphic(s: Seq<u8>)
    requires
        is_ipv6(s),
    ensures
        bytes::all(s, |b: u8| bytes::is_graphic(b)),
{
    let mark = seq![':' as u8, ':' as u8];
    bytes::lemma_first_index_is_first(s, mark);
    match bytes::first_index(s, mark) {
        None => {
            lemma_groups_are_graphic(s, true);
        },
        Some(i) => {
            let head = bytes::before(s, i);
            let tail = bytes::after(s, i + 2);
            lemma_groups_are_graphic(head, false);
            lemma_groups_are_graphic(tail, true);
            assert forall|j: int| 0 <= j < s.len() implies bytes::is_graphic(#[trigger] s[j]) by {
                if j < i {
                    assert(bytes::is_graphic(head[j]));
                } else if j < i + 2 {
                    assert(s.subrange(i, i + 2)[j - i] == mark[j - i]);
                } else {
                    assert(bytes::is_graphic(tail[j - i - 2]));
                }
            }
        },
    }
}

/// An authority is visible ASCII.
pub proof fn lemma_authority_is_graphic(authority: Seq<u8>)
    requires
        is_authority(authority),
    ensures
        bytes::all(authority, |b: u8| bytes::is_graphic(b)),
{
    if authority[0] == '[' as u8 {
        let rest = bytes::after(authority, 1);
        let mark = seq![']' as u8];
        bytes::lemma_first_index_is_first(rest, mark);
        let i = bytes::first_index(rest, mark)->0;
        let address = bytes::before(rest, i);
        let suffix = bytes::after(rest, i + 1);
        lemma_ipv6_is_graphic(address);
        if suffix.len() > 0 {
            lemma_port_is_graphic(bytes::after(suffix, 1));
        }
        assert forall|j: int| 0 <= j < authority.len() implies bytes::is_graphic(
            #[trigger] authority[j],
        ) by {
            if 1 <= j < i + 1 {
                assert(bytes::is_graphic(address[j - 1]));
            } else if j == i + 1 {
                assert(rest.subrange(i, i + 1)[0] == mark[0]);
            } else if j == i + 2 {
                assert(suffix[0] == authority[j]);
            } else if j > i + 2 {
                assert(bytes::is_graphic(bytes::after(suffix, 1)[j - i - 3]));
            }
        }
    } else {
        let colon = seq![':' as u8];
        let parts = bytes::split_on(authority, colon);
        bytes::lemma_split_count(authority, colon);
        assert forall|k: int| 0 <= k < parts.len() implies bytes::all(
            #[trigger] parts[k],
            |b: u8| bytes::is_graphic(b),
        ) by {
            if k == 0 {
                assert forall|i: int| 0 <= i < parts[0].len() implies bytes::is_graphic(
                    #[trigger] parts[0][i],
                ) by {
                    assert(is_host_byte(parts[0][i]));
                }
            } else {
                lemma_port_is_graphic(parts[k]);
            }
        }
        bytes::lemma_joined_all(authority, colon, |b: u8| bytes::is_graphic(b));
    }
}

/// Exactly these endpoints are admitted: one to 128 letters, digits, dots,
/// underscores and hyphens.
pub proof fn law_endpoints_are_names(endpoint: Seq<u8>)
    ensures
        is_endpoint(endpoint) <==> 1 <= endpoint.len() <= 128 && forall|i: int|
            0 <= i < endpoint.len() ==> (0x30 <= #[trigger] endpoint[i] <= 0x39 || 0x41 <= endpoint[i]
                <= 0x5a || 0x61 <= endpoint[i] <= 0x7a || endpoint[i] == 0x2e || endpoint[i] == 0x5f
                || endpoint[i] == 0x2d),
{
    if is_endpoint(endpoint) {
        assert forall|i: int| 0 <= i < endpoint.len() implies (0x30 <= #[trigger] endpoint[i] <= 0x39
            || 0x41 <= endpoint[i] <= 0x5a || 0x61 <= endpoint[i] <= 0x7a || endpoint[i] == 0x2e
            || endpoint[i] == 0x5f || endpoint[i] == 0x2d) by {
            assert(is_endpoint_byte(endpoint[i]));
        }
    }
}

/// Whether a text is the name of a host: letters, digits, dots and hyphens.
pub open spec fn is_host(host: Seq<u8>) -> bool {
    &&& host.len() > 0
    &&& forall|i: int|
        0 <= i < host.len() ==> (0x30 <= #[trigger] host[i] <= 0x39 || 0x41 <= host[i] <= 0x5a
            || 0x61 <= host[i] <= 0x7a || host[i] == 0x2e || host[i] == 0x2d)
}

/// Whether a text is a port, behind its colon, or nothing.
pub open spec fn is_port_suffix(suffix: Seq<u8>) -> bool {
    suffix.len() == 0 || (suffix[0] == 0x3a && exists|n: nat|
        1 <= n <= 65535 && number::writes(bytes::after(suffix, 1), 10, n))
}

proof fn lemma_port_suffix(suffix: Seq<u8>)
    requires
        suffix.len() > 0,
        suffix[0] == 0x3a,
    ensures
        is_port_suffix(suffix) <==> is_port(bytes::after(suffix, 1)),
        is_port_suffix(suffix) ==> bytes::is_free_of(bytes::after(suffix, 1), 0x3a)
            && bytes::is_free_of(bytes::after(suffix, 1), 0x5d) && bytes::is_ascii(
            bytes::after(suffix, 1),
        ),
{
    let port = bytes::after(suffix, 1);
    if is_port_suffix(suffix) {
        let n = choose|n: nat| 1 <= n <= 65535 && number::writes(port, 10, n);
        number::law_written_numbers_are_read(port, 10, n, u16::MAX as nat);
    }
    if is_port(port) {
        let n = number::parsed(port, 10, u16::MAX as nat)->0;
        number::law_written_numbers_are_read(port, 10, n, u16::MAX as nat);
        assert(number::writes(port, 10, n));
        assert forall|i: int| 0 <= i < port.len() implies 0x30 <= #[trigger] port[i] <= 0x39 by {
            assert(number::is_radix_digit(port[i], 10));
        }
    }
}

/// Every host's name is an authority, alone or with a port from 1 to 65535, in at
/// most 255 characters.
pub proof fn law_hosts_are_authorities(host: Seq<u8>, suffix: Seq<u8>)
    requires
        is_host(host),
        is_port_suffix(suffix),
        (host + suffix).len() <= 255,
    ensures
        is_authority(host + suffix),
{
    let all = host + suffix;
    let colon = seq![':' as u8];
    assert(colon[0] == 0x3a);
    assert forall|i: int| 0 <= i < host.len() implies is_host_byte(#[trigger] host[i]) by {}
    assert(bytes::is_free_of(host, 0x3a)) by {
        assert forall|i: int| 0 <= i < host.len() implies #[trigger] host[i] != 0x3a by {}
    }
    if suffix.len() == 0 {
        assert(all =~= host);
        bytes::lemma_split_none(host, colon);
    } else {
        let port = bytes::after(suffix, 1);
        lemma_port_suffix(suffix);
        assert(all =~= host + colon + port);
        bytes::lemma_split_first(host, colon, port);
        bytes::lemma_split_none(port, colon);
        assert(bytes::split_on(all, colon) =~= seq![host, port]);
    }
    assert(all[0] == host[0]);
    assert forall|i: int| 0 <= i < all.len() implies #[trigger] all[i] < 0x80 by {
        if i < host.len() {
            assert(all[i] == host[i]);
        } else if i > host.len() {
            assert(all[i] == bytes::after(suffix, 1)[i - host.len() - 1]);
        }
    }
}

/// Whether a text is a group of an IPv6 address: one to four hexadecimal digits.
pub open spec fn is_digit_group(group: Seq<u8>) -> bool {
    1 <= group.len() <= 4 && forall|i: int|
        0 <= i < group.len() ==> number::digit(#[trigger] group[i]) is Some
}

/// Whether a text is an IPv4 address: four numbers from 0 to 255 without zeros in
/// front, and dots between them.
pub open spec fn is_dotted(s: Seq<u8>, a: nat, b: nat, c: nat, d: nat) -> bool {
    &&& a <= 255 && b <= 255 && c <= 255 && d <= 255
    &&& s == bytes::joined(
        seq![number::decimal(a), number::decimal(b), number::decimal(c), number::decimal(d)],
        0x2e,
    )
}

/// One end of an IPv6 address: groups with colons between them, the last of which
/// may be an IPv4 address in place of two.
pub struct Groups {
    pub groups: Seq<Seq<u8>>,
    pub dotted: Option<(nat, nat, nat, nat)>,
}

/// The IPv4 address at the end.
pub open spec fn dotted_text(address: (nat, nat, nat, nat)) -> Seq<u8> {
    bytes::joined(
        seq![
            number::decimal(address.0),
            number::decimal(address.1),
            number::decimal(address.2),
            number::decimal(address.3),
        ],
        0x2e,
    )
}

/// The parts between colons.
pub open spec fn parts_of(groups: Groups) -> Seq<Seq<u8>> {
    match groups.dotted {
        Some(address) => groups.groups.push(dotted_text(address)),
        None => groups.groups,
    }
}

/// How groups are written.
pub open spec fn written_groups(groups: Groups) -> Seq<u8> {
    bytes::joined(parts_of(groups), 0x3a)
}

/// For how many groups they stand.
pub open spec fn count_of(groups: Groups) -> int {
    groups.groups.len() + (if groups.dotted is Some {
        2int
    } else {
        0int
    })
}

/// Whether groups are well formed.
pub open spec fn are_groups(groups: Groups) -> bool {
    &&& forall|i: int| 0 <= i < groups.groups.len() ==> is_digit_group(#[trigger] groups.groups[i])
    &&& groups.dotted matches Some((a, b, c, d)) ==> a <= 255 && b <= 255 && c <= 255 && d <= 255
}

proof fn lemma_octet(n: nat)
    requires
        n <= 255,
    ensures
        is_octet(number::decimal(n)),
        bytes::is_free_of(number::decimal(n), 0x2e),
        bytes::is_free_of(number::decimal(n), 0x3a),
        bytes::is_free_of(number::decimal(n), 0x5d),
        bytes::is_ascii(number::decimal(n)),
{
    let s = number::decimal(n);
    number::law_decimal_reads_back(n, 255);
    number::law_decimals_are_canonical(s, n);
    reveal_with_fuel(number::decimal, 3);
    assert forall|i: int| 0 <= i < s.len() implies 0x30 <= #[trigger] s[i] <= 0x39 by {
        assert(number::is_radix_digit(s[i], 10));
    }
}

proof fn lemma_dotted(address: (nat, nat, nat, nat))
    requires
        address.0 <= 255,
        address.1 <= 255,
        address.2 <= 255,
        address.3 <= 255,
    ensures
        is_ipv4(dotted_text(address)),
        !is_group(dotted_text(address)),
        bytes::is_free_of(dotted_text(address), 0x3a),
        bytes::is_free_of(dotted_text(address), 0x5d),
        bytes::is_ascii(dotted_text(address)),
        dotted_text(address).len() > 0,
{
    let octets = seq![
        number::decimal(address.0),
        number::decimal(address.1),
        number::decimal(address.2),
        number::decimal(address.3),
    ];
    let s = dotted_text(address);
    let dot = seq!['.' as u8];
    lemma_octet(address.0);
    lemma_octet(address.1);
    lemma_octet(address.2);
    lemma_octet(address.3);
    bytes::law_joined_pieces_are_split(octets, 0x2e);
    assert(bytes::split_on(s, dot) == octets);
    let p = |b: u8| b < 0x80 && b != 0x3a && b != 0x5d;
    assert forall|k: int| 0 <= k < octets.len() implies bytes::all(#[trigger] octets[k], p) by {
        let octet = octets[k];
        assert forall|i: int| 0 <= i < octet.len() implies p(#[trigger] octet[i]) by {
            assert(octet[i] < 0x80);
        }
    }
    bytes::lemma_joined_all(s, dot, p);
    assert forall|i: int| 0 <= i < s.len() implies #[trigger] s[i] < 0x80 && s[i] != 0x3a && s[i]
        != 0x5d by {
        assert(p(s[i]));
    }
    assert(octets.drop_last().last() == octets[2]);
    assert(s == bytes::joined(octets.drop_last(), 0x2e) + seq![0x2eu8] + octets.last());
    let n = bytes::joined(octets.drop_last(), 0x2e).len() as int;
    assert(s[n] == 0x2e);
    if is_group(s) {
        assert(bytes::is_hex_digit(s[n]));
    }
}

proof fn lemma_digit_group(group: Seq<u8>)
    ensures
        is_digit_group(group) <==> is_group(group),
        is_digit_group(group) ==> bytes::is_free_of(group, 0x3a) && bytes::is_free_of(group, 0x5d)
            && bytes::is_ascii(group),
{
    if is_digit_group(group) {
        assert forall|i: int| 0 <= i < group.len() implies bytes::is_hex_digit(
            #[trigger] group[i],
        ) by {
            assert(number::digit(group[i]) is Some);
        }
        assert forall|i: int| 0 <= i < group.len() implies #[trigger] group[i] != 0x3a && group[i]
            != 0x5d && group[i] < 0x80 by {
            assert(number::digit(group[i]) is Some);
        }
    }
    if is_group(group) {
        assert forall|i: int| 0 <= i < group.len() implies number::digit(
            #[trigger] group[i],
        ) is Some by {
            assert(bytes::is_hex_digit(group[i]));
        }
    }
}

/// Groups that are written are counted.
proof fn lemma_groups_count(groups: Groups, with_ipv4: bool)
    requires
        are_groups(groups),
        groups.dotted is Some ==> with_ipv4,
    ensures
        group_count(written_groups(groups), with_ipv4) == Some(count_of(groups)),
        bytes::all(written_groups(groups), |b: u8| b < 0x80 && b != 0x5d),
        written_groups(groups).len() > 0 ==> written_groups(groups)[0] != 0x3a && written_groups(
            groups,
        ).last() != 0x3a,
        !bytes::contains(written_groups(groups), seq![0x3au8, 0x3au8]),
{
    let parts = parts_of(groups);
    let s = written_groups(groups);
    let colon = seq![':' as u8];
    assert(colon[0] == 0x3a);
    if parts.len() > 0 {
        assert forall|i: int| 0 <= i < parts.len() implies bytes::is_free_of(
            #[trigger] parts[i],
            0x3a,
        ) && bytes::is_free_of(parts[i], 0x5d) && bytes::is_ascii(parts[i]) && parts[i].len() > 0 by {
            if i < groups.groups.len() {
                assert(is_digit_group(groups.groups[i]));
                lemma_digit_group(groups.groups[i]);
            } else {
                lemma_dotted(groups.dotted->0);
            }
        }
        bytes::law_joined_pieces_are_split(parts, 0x3a);
        assert(bytes::split_on(s, colon) == parts);
        assert forall|i: int| 0 <= i < parts.len() - 1 implies is_group(#[trigger] parts[i]) by {
            assert(is_digit_group(groups.groups[i]));
            lemma_digit_group(groups.groups[i]);
        }
        if groups.dotted is Some {
            lemma_dotted(groups.dotted->0);
        } else {
            assert(is_digit_group(groups.groups[parts.len() - 1]));
            lemma_digit_group(groups.groups[parts.len() - 1]);
        }
        lemma_joined_ends(parts);
        let p = |b: u8| b < 0x80 && b != 0x5d;
        assert forall|k: int| 0 <= k < parts.len() implies bytes::all(#[trigger] parts[k], p) by {
            let part = parts[k];
            assert forall|i: int| 0 <= i < part.len() implies p(#[trigger] part[i]) by {
                assert(part[i] < 0x80);
                assert(part[i] != 0x5d);
            }
        }
        bytes::lemma_joined_all(s, colon, p);
    } else {
        assert(s =~= Seq::<u8>::empty());
    }
}

/// What is joined of pieces that are not empty neither begins nor ends with a
/// separator, nor holds two in a row.
proof fn lemma_joined_ends(parts: Seq<Seq<u8>>)
    requires
        parts.len() > 0,
        forall|i: int|
            0 <= i < parts.len() ==> bytes::is_free_of(#[trigger] parts[i], 0x3a) && parts[i].len()
                > 0,
    ensures
        ({
            let s = bytes::joined(parts, 0x3a);
            &&& s.len() > 0
            &&& s[0] != 0x3a
            &&& s.last() != 0x3a
            &&& !bytes::contains(s, seq![0x3au8, 0x3au8])
        }),
    decreases parts.len(),
{
    let s = bytes::joined(parts, 0x3a);
    let mark = seq![0x3au8, 0x3au8];
    let last = parts[parts.len() - 1];
    assert(bytes::is_free_of(last, 0x3a) && last.len() > 0);
    assert(last[last.len() - 1] != 0x3a && last[0] != 0x3a);
    if parts.len() > 1 {
        let fewer = parts.drop_last();
        let head = bytes::joined(fewer, 0x3a);
        assert forall|i: int| 0 <= i < fewer.len() implies bytes::is_free_of(
            #[trigger] fewer[i],
            0x3a,
        ) && fewer[i].len() > 0 by {
            assert(bytes::is_free_of(parts[i], 0x3a));
        }
        lemma_joined_ends(fewer);
        assert(s[0] == head[0]);
        let n = head.len() as int;
        if bytes::contains(s, mark) {
            let i = choose|i: int| bytes::occurs_at(s, mark, i);
            assert(s.subrange(i, i + 2)[0] == 0x3a && s.subrange(i, i + 2)[1] == 0x3a);
            if i + 2 <= n {
                assert(head.subrange(i, i + 2) =~= s.subrange(i, i + 2));
                assert(bytes::occurs_at(head, mark, i));
            } else if i == n - 1 {
                assert(s[i] == head[n - 1]);
            } else if i == n {
                assert(s[i + 1] == last[0]);
            } else {
                assert(s[i] == last[i - n - 1]);
            }
        }
    } else {
        if bytes::contains(s, mark) {
            let i = choose|i: int| bytes::occurs_at(s, mark, i);
            assert(s.subrange(i, i + 2)[0] == 0x3a);
            assert(s[i] == last[i]);
        }
    }
}

/// Whether a text is an IPv6 address: eight groups, or at most seven around a
/// double colon, behind which, or at whose end, an IPv4 address may stand for two.
pub open spec fn is_written_ipv6(s: Seq<u8>, head: Groups, tail: Option<Groups>) -> bool {
    match tail {
        None => {
            &&& are_groups(head)
            &&& count_of(head) == 8
            &&& s == written_groups(head)
        },
        Some(tail) => {
            &&& are_groups(head) && are_groups(tail)
            &&& head.dotted is None
            &&& count_of(head) + count_of(tail) <= 7
            &&& s == written_groups(head) + seq![0x3au8, 0x3au8] + written_groups(tail)
        },
    }
}

/// Every IPv6 address in brackets is an authority, alone or with a port from 1 to
/// 65535, in at most 255 characters.
pub proof fn law_ipv6_addresses_are_authorities(
    address: Seq<u8>,
    head: Groups,
    tail: Option<Groups>,
    suffix: Seq<u8>,
)
    requires
        is_written_ipv6(address, head, tail),
        is_port_suffix(suffix),
        address.len() + suffix.len() + 2 <= 255,
    ensures
        is_authority(seq![0x5bu8] + address + seq![0x5du8] + suffix),
{
    let all = seq![0x5bu8] + address + seq![0x5du8] + suffix;
    let rest = bytes::after(all, 1);
    let close = seq![']' as u8];
    lemma_written_ipv6(address, head, tail);
    assert(rest =~= address + close + suffix);
    assert(bytes::is_free_of(address, 0x5d)) by {
        assert forall|i: int| 0 <= i < address.len() implies #[trigger] address[i] != 0x5d by {}
    }
    bytes::lemma_split_first(address, close, suffix);
    assert(bytes::before(rest, address.len() as int) =~= address);
    assert(bytes::after(rest, address.len() + 1int) =~= suffix);
    if suffix.len() > 0 {
        lemma_port_suffix(suffix);
    }
    assert forall|i: int| 0 <= i < all.len() implies #[trigger] all[i] < 0x80 by {
        if 1 <= i < 1 + address.len() {
            assert(all[i] == address[i - 1]);
        } else if i == 2 + address.len() {
            assert(all[i] == suffix[0]);
        } else if i > 2 + address.len() {
            assert(all[i] == bytes::after(suffix, 1)[i - 3 - address.len()]);
        }
    }
}

proof fn lemma_written_ipv6(s: Seq<u8>, head: Groups, tail: Option<Groups>)
    requires
        is_written_ipv6(s, head, tail),
    ensures
        is_ipv6(s),
        forall|i: int| 0 <= i < s.len() ==> #[trigger] s[i] < 0x80 && s[i] != 0x5d,
{
    let mark = seq![':' as u8, ':' as u8];
    assert(mark =~= seq![0x3au8, 0x3au8]);
    let p = |b: u8| b < 0x80 && b != 0x5d;
    match tail {
        None => {
            lemma_groups_count(head, true);
            bytes::lemma_first_index_none(s, mark);
            assert forall|i: int| 0 <= i < s.len() implies #[trigger] s[i] < 0x80 && s[i] != 0x5d by {
                assert(p(s[i]));
            }
        },
        Some(tail) => {
            lemma_groups_count(head, false);
            lemma_groups_count(tail, true);
            let a = written_groups(head);
            let b = written_groups(tail);
            let n = a.len() as int;
            assert(s.subrange(n, n + 2) =~= mark);
            assert forall|j: int| 0 <= j < n implies !bytes::occurs_at(s, mark, j) by {
                if bytes::occurs_at(s, mark, j) {
                    assert(s.subrange(j, j + 2)[0] == 0x3a && s.subrange(j, j + 2)[1] == 0x3a);
                    if j + 2 <= n {
                        assert(a.subrange(j, j + 2) =~= s.subrange(j, j + 2));
                        assert(bytes::occurs_at(a, mark, j));
                    } else {
                        assert(s[j] == a[n - 1]);
                    }
                }
            }
            bytes::lemma_first_index(s, mark, n);
            assert(bytes::before(s, n) =~= a);
            assert(bytes::after(s, n + 2) =~= b);
            assert forall|i: int| 0 <= i < s.len() implies #[trigger] s[i] < 0x80 && s[i] != 0x5d by {
                if i < n {
                    assert(p(a[i]));
                } else if i >= n + 2 {
                    assert(p(b[i - n - 2]));
                }
            }
        },
    }
}

/// Nothing else is an authority: one that does not begin with a bracket is a
/// host's name and perhaps a port, and one that does is an address in brackets and
/// perhaps a port.
pub proof fn law_authorities_are_hosts_or_addresses(authority: Seq<u8>)
    requires
        is_authority(authority),
    ensures
        authority.len() <= 255,
        exists|first: Seq<u8>, suffix: Seq<u8>|
            {
                &&& authority == #[trigger] (first + suffix)
                &&& is_port_suffix(suffix)
                &&& is_host(first) || (first.len() >= 2 && first[0] == 0x5b && first.last() == 0x5d
                    && is_ipv6(first.subrange(1, first.len() - 1)))
            },
{
    if authority[0] == '[' as u8 {
        let rest = bytes::after(authority, 1);
        let close = ']' as u8;
        bytes::lemma_first_byte(rest, close);
        let i = bytes::first_index(rest, seq![close])->0;
        let first = bytes::before(authority, i + 2);
        let suffix = bytes::after(rest, i + 1);
        assert(authority =~= first + suffix);
        assert(first.subrange(1, first.len() - 1) =~= bytes::before(rest, i));
        if suffix.len() > 0 {
            lemma_port_suffix(suffix);
        }
        assert(authority == first + suffix);
    } else {
        let mark = ':' as u8;
        let parts = bytes::split_on(authority, seq![mark]);
        bytes::law_split_pieces_are_joined(authority, mark);
        let host = parts[0];
        assert(is_host(host)) by {
            assert forall|i: int| 0 <= i < host.len() implies (0x30 <= #[trigger] host[i] <= 0x39
                || 0x41 <= host[i] <= 0x5a || 0x61 <= host[i] <= 0x7a || host[i] == 0x2e || host[i]
                == 0x2d) by {
                assert(is_host_byte(host[i]));
            }
        }
        if parts.len() == 1 {
            assert(authority =~= host + Seq::<u8>::empty());
            assert(is_port_suffix(Seq::empty()));
        } else {
            let suffix = seq![0x3au8] + parts[1];
            assert(parts.drop_last() =~= seq![host]);
            assert(bytes::joined(seq![host], mark) == host);
            assert(authority =~= host + suffix);
            assert(bytes::after(suffix, 1) =~= parts[1]);
            lemma_port_suffix(suffix);
        }
    }
}

proof fn lemma_read_octet(s: Seq<u8>) -> (n: nat)
    requires
        is_octet(s),
    ensures
        n <= 255,
        s == number::decimal(n),
{
    let zero = '0' as u8;
    assert(zero == 0x30);
    let n = number::parsed(s, 10, 255)->0;
    number::law_written_numbers_are_read(s, 10, n, 255);
    number::law_decimals_are_canonical(s, n);
    n
}

proof fn lemma_read_dotted(s: Seq<u8>) -> (address: (nat, nat, nat, nat))
    requires
        is_ipv4(s),
    ensures
        address.0 <= 255,
        address.1 <= 255,
        address.2 <= 255,
        address.3 <= 255,
        s == dotted_text(address),
{
    let dot = '.' as u8;
    assert(dot == 0x2e);
    let octets = bytes::split_on(s, seq![dot]);
    bytes::law_split_pieces_are_joined(s, dot);
    assert(is_octet(octets[0]) && is_octet(octets[1]) && is_octet(octets[2]) && is_octet(octets[3]));
    let a = lemma_read_octet(octets[0]);
    let b = lemma_read_octet(octets[1]);
    let c = lemma_read_octet(octets[2]);
    let d = lemma_read_octet(octets[3]);
    assert(octets =~= seq![
        number::decimal(a),
        number::decimal(b),
        number::decimal(c),
        number::decimal(d),
    ]);
    (a, b, c, d)
}

/// What is counted as groups is groups.
proof fn lemma_counted_are_groups(s: Seq<u8>, with_ipv4: bool) -> (groups: Groups)
    requires
        group_count(s, with_ipv4) is Some,
    ensures
        are_groups(groups),
        written_groups(groups) == s,
        group_count(s, with_ipv4) == Some(count_of(groups)),
        groups.dotted is Some ==> with_ipv4,
{
    let colon = ':' as u8;
    assert(colon == 0x3a);
    let parts = bytes::split_on(s, seq![colon]);
    bytes::law_split_pieces_are_joined(s, colon);
    if s.len() == 0 {
        let groups = Groups { groups: Seq::empty(), dotted: None };
        assert(written_groups(groups) =~= s);
        groups
    } else {
        assert forall|i: int| 0 <= i < parts.len() - 1 implies is_digit_group(#[trigger] parts[i]) by {
            lemma_digit_group(parts[i]);
        }
        lemma_digit_group(parts.last());
        if is_group(parts.last()) {
            let groups = Groups { groups: parts, dotted: None };
            assert forall|i: int| 0 <= i < parts.len() implies is_digit_group(
                #[trigger] parts[i],
            ) by {
                if i == parts.len() - 1 {
                    assert(parts[i] == parts.last());
                }
            }
            groups
        } else {
            let address = lemma_read_dotted(parts.last());
            let groups = Groups { groups: parts.drop_last(), dotted: Some(address) };
            assert(parts_of(groups) =~= parts);
            groups
        }
    }
}

/// No other text is an IPv6 address.
pub proof fn law_ipv6_addresses_are_groups(s: Seq<u8>)
    requires
        is_ipv6(s),
    ensures
        exists|head: Groups, tail: Option<Groups>| #[trigger] is_written_ipv6(s, head, tail),
{
    let colon = ':' as u8;
    assert(colon == 0x3a);
    let mark = seq![colon, colon];
    bytes::lemma_first_index_is_first(s, mark);
    match bytes::first_index(s, mark) {
        None => {
            let head = lemma_counted_are_groups(s, true);
            assert(is_written_ipv6(s, head, None));
        },
        Some(i) => {
            let head = lemma_counted_are_groups(bytes::before(s, i), false);
            let tail = lemma_counted_are_groups(bytes::after(s, i + 2), true);
            assert(s.subrange(i, i + 2) == mark);
            assert(s =~= bytes::before(s, i) + s.subrange(i, i + 2) + bytes::after(s, i + 2));
            assert(is_written_ipv6(s, head, Some(tail)));
        },
    }
}

} // verus!
