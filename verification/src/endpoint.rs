//! Socket addresses of nodes.
use vstd::prelude::*;
use crate::table::Key;
use crate::text::{decimal, hex, push_decimal, push_hex_number, push_text, same_text, string_of};

verus! {

/// The address and port at which a node is reached over UDP. An address is
/// held as the number that its octets spell, most significant first.
#[derive(Clone, Copy, Debug, PartialEq, Eq, Structural, Hash, PartialOrd, Ord)]
pub enum Endpoint {
    V4 { ip: u32, port: u16 },
    V6 { ip: u128, port: u16, flowinfo: u32, scope: u32 },
}

impl View for Endpoint {
    type V = Endpoint;

    open spec fn view(&self) -> Endpoint {
        *self
    }
}

impl Key for Endpoint {
    fn same(&self, other: &Self) -> (r: bool) {
        *self == *other
    }
}

impl Key for (String, Endpoint) {
    fn same(&self, other: &Self) -> (r: bool) {
        self.1 == other.1 && same_text(self.0.as_str(), other.0.as_str())
    }
}

/// The IPv4 address `a.b.c.d`.
pub open spec fn ip4(a: u8, b: u8, c: u8, d: u8) -> u32 {
    (a * 0x100_0000 + b * 0x1_0000 + c * 0x100 + d) as u32
}

/// Octet `i` of an IPv4 address, from the left.
pub open spec fn octet(ip: u32, i: int) -> u8 {
    if i == 0 {
        (ip / 0x100_0000) as u8
    } else if i == 1 {
        (ip / 0x1_0000 % 0x100) as u8
    } else if i == 2 {
        (ip / 0x100 % 0x100) as u8
    } else {
        (ip % 0x100) as u8
    }
}

/// An address is the one that its octets spell, and spells its octets.
pub proof fn octets_spell_address(ip: u32, a: u8, b: u8, c: u8, d: u8)
    ensures
        ip4(octet(ip, 0), octet(ip, 1), octet(ip, 2), octet(ip, 3)) == ip,
        octet(ip4(a, b, c, d), 0) == a,
        octet(ip4(a, b, c, d), 1) == b,
        octet(ip4(a, b, c, d), 2) == c,
        octet(ip4(a, b, c, d), 3) == d,
{
}

/// Group `i` of an IPv6 address, from the left.
pub open spec fn group(ip: u128, i: int) -> u16 {
    if i == 0 {
        (ip / 0x1_0000_0000_0000_0000_0000_0000_0000) as u16
    } else if i == 1 {
        (ip / 0x1_0000_0000_0000_0000_0000_0000 % 0x1_0000) as u16
    } else if i == 2 {
        (ip / 0x1_0000_0000_0000_0000_0000 % 0x1_0000) as u16
    } else if i == 3 {
        (ip / 0x1_0000_0000_0000_0000 % 0x1_0000) as u16
    } else if i == 4 {
        (ip / 0x1_0000_0000_0000 % 0x1_0000) as u16
    } else if i == 5 {
        (ip / 0x1_0000_0000 % 0x1_0000) as u16
    } else if i == 6 {
        (ip / 0x1_0000 % 0x1_0000) as u16
    } else {
        (ip % 0x1_0000) as u16
    }
}

/// The eight groups of an IPv6 address.
pub open spec fn groups(ip: u128) -> Seq<u16> {
    Seq::new(8, |i: int| group(ip, i))
}

/// An IPv4 address in dotted decimal notation.
pub open spec fn ip4_text(ip: u32) -> Seq<char> {
    decimal(octet(ip, 0) as int) + "."@ + decimal(octet(ip, 1) as int) + "."@ + decimal(
        octet(ip, 2) as int,
    ) + "."@ + decimal(octet(ip, 3) as int)
}

/// The groups in hexadecimal notation with colons between them.
pub open spec fn groups_text(g: Seq<u16>) -> Seq<char>
    decreases g.len(),
{
    if g.len() == 0 {
        Seq::empty()
    } else if g.len() == 1 {
        hex(g[0] as int)
    } else {
        groups_text(g.drop_last()) + ":"@ + hex(g.last() as int)
    }
}

/// The number of zero groups from `i` on without a break.
pub open spec fn zero_run(g: Seq<u16>, i: int) -> int
    decreases g.len() - i,
{
    if 0 <= i < g.len() && g[i] == 0 {
        1 + zero_run(g, i + 1)
    } else {
        0
    }
}

/// The first of the longest runs of zero groups among those that start
/// before `n`: where it starts, and its length.
pub open spec fn longest_run(g: Seq<u16>, n: int) -> (int, int)
    decreases n,
{
    if n <= 0 {
        (0, 0)
    } else {
        let best = longest_run(g, n - 1);
        if zero_run(g, n - 1) > best.1 {
            (n - 1, zero_run(g, n - 1))
        } else {
            best
        }
    }
}

/// An IPv6 address in text: an IPv4-mapped one ends in dotted decimal
/// notation; in any other the first longest run of two or more zero groups
/// is written as a double colon.
pub open spec fn ip6_text(ip: u128) -> Seq<char> {
    if ip / 0x1_0000_0000 == 0xffff {
        "::ffff:"@ + ip4_text((ip % 0x1_0000_0000) as u32)
    } else {
        let g = groups(ip);
        let run = longest_run(g, 8);
        if run.1 > 1 {
            groups_text(g.take(run.0)) + "::"@ + groups_text(g.skip(run.0 + run.1))
        } else {
            groups_text(g)
        }
    }
}

/// A socket address in text.
pub open spec fn endpoint_text(e: Endpoint) -> Seq<char> {
    match e {
        Endpoint::V4 { ip, port } => ip4_text(ip) + ":"@ + decimal(port as int),
        Endpoint::V6 { ip, port, flowinfo, scope } => if scope == 0 {
            "["@ + ip6_text(ip) + "]:"@ + decimal(port as int)
        } else {
            "["@ + ip6_text(ip) + "%"@ + decimal(scope as int) + "]:"@ + decimal(port as int)
        },
    }
}

/// The order of socket addresses: IPv4 before IPv6, then by address, port,
/// flow and scope.
pub open spec fn endpoint_before(a: Endpoint, b: Endpoint) -> bool {
    match (a, b) {
        (Endpoint::V4 { ip, port }, Endpoint::V4 { ip: ip2, port: port2 }) => ip < ip2 || (ip == ip2
            && port < port2),
        (Endpoint::V4 { .. }, Endpoint::V6 { .. }) => true,
        (Endpoint::V6 { .. }, Endpoint::V4 { .. }) => false,
        (
            Endpoint::V6 { ip, port, flowinfo, scope },
            Endpoint::V6 { ip: ip2, port: port2, flowinfo: flowinfo2, scope: scope2 },
        ) => ip < ip2 || (ip == ip2 && (port < port2 || (port == port2 && (flowinfo < flowinfo2 || (
        flowinfo == flowinfo2 && scope < scope2))))),
    }
}

/// Whether an IPv4 address is one of this host (127.0.0.0/8).
pub open spec fn is_loopback4(ip: u32) -> bool {
    octet(ip, 0) == 127
}

/// Whether an IPv4 address is set aside for private networks (10.0.0.0/8,
/// 172.16.0.0/12, 192.168.0.0/16).
pub open spec fn is_private4(ip: u32) -> bool {
    ||| octet(ip, 0) == 10
    ||| octet(ip, 0) == 172 && 16 <= octet(ip, 1) <= 31
    ||| octet(ip, 0) == 192 && octet(ip, 1) == 168
}

/// Whether an IPv4 address is link-local (169.254.0.0/16).
pub open spec fn is_link_local4(ip: u32) -> bool {
    octet(ip, 0) == 169 && octet(ip, 1) == 254
}

/// Whether an endpoint is globally reachable: neither loopback nor private
/// nor link-local (for IPv6, fe80::/10).
pub open spec fn is_remote_public(e: Endpoint) -> bool {
    match e {
        Endpoint::V4 { ip, .. } => !is_loopback4(ip) && !is_private4(ip) && !is_link_local4(
            ip,
        ),
        Endpoint::V6 { ip, .. } => ip != 1 && group(ip, 0) / 64 != 0xfe80u16 / 64,
    }
}

/// Whether an endpoint lies in a private IPv4 network.
pub open spec fn is_private_source(e: Endpoint) -> bool {
    match e {
        Endpoint::V4 { ip, .. } => is_private4(ip),
        Endpoint::V6 { .. } => false,
    }
}

/// Whether two endpoints share an IPv4 address.
pub open spec fn shares_ip4(a: Endpoint, b: Endpoint) -> bool {
    match (a, b) {
        (Endpoint::V4 { ip, .. }, Endpoint::V4 { ip: ip2, .. }) => ip == ip2,
        _ => false,
    }
}

fn octet_of(ip: u32, i: usize) -> (r: u8)
    ensures
        r == octet(ip, i as int),
{
    if i == 0 {
        (ip / 0x100_0000) as u8
    } else if i == 1 {
        (ip / 0x1_0000 % 0x100) as u8
    } else if i == 2 {
        (ip / 0x100 % 0x100) as u8
    } else {
        (ip % 0x100) as u8
    }
}

/// The four octets of an IPv4 address.
pub fn octets(ip: u32) -> (r: (u8, u8, u8, u8))
    ensures
        r == (octet(ip, 0), octet(ip, 1), octet(ip, 2), octet(ip, 3)),
{
    (octet_of(ip, 0), octet_of(ip, 1), octet_of(ip, 2), octet_of(ip, 3))
}

fn groups_of(ip: u128) -> (v: Vec<u16>)
    ensures
        v@ == groups(ip),
{
    let v: Vec<u16> = vec![
        (ip / 0x1_0000_0000_0000_0000_0000_0000_0000) as u16,
        (ip / 0x1_0000_0000_0000_0000_0000_0000 % 0x1_0000) as u16,
        (ip / 0x1_0000_0000_0000_0000_0000 % 0x1_0000) as u16,
        (ip / 0x1_0000_0000_0000_0000 % 0x1_0000) as u16,
        (ip / 0x1_0000_0000_0000 % 0x1_0000) as u16,
        (ip / 0x1_0000_0000 % 0x1_0000) as u16,
        (ip / 0x1_0000 % 0x1_0000) as u16,
        (ip % 0x1_0000) as u16,
    ];
    proof {
        assert(v@ =~= groups(ip));
    }
    v
}

/// Appends an IPv4 address in dotted decimal notation to `out`.
pub fn push_ip4(out: &mut Vec<char>, ip: u32)
    ensures
        final(out)@ == old(out)@ + ip4_text(ip),
{
    let ghost start = out@;
    push_decimal(out, octet_of(ip, 0) as u64);
    push_text(out, ".");
    push_decimal(out, octet_of(ip, 1) as u64);
    push_text(out, ".");
    push_decimal(out, octet_of(ip, 2) as u64);
    push_text(out, ".");
    push_decimal(out, octet_of(ip, 3) as u64);
    proof {
        assert(out@ =~= start + ip4_text(ip));
    }
}

fn push_groups(out: &mut Vec<char>, g: &[u16])
    ensures
        final(out)@ == old(out)@ + groups_text(g@),
{
    let ghost start = out@;
    let mut i: usize = 0;
    proof {
        assert(start + groups_text(g@.take(0)) =~= start);
    }
    while i < g.len()
        invariant
            i <= g@.len(),
            out@ == start + groups_text(g@.take(i as int)),
        decreases g@.len() - i,
    {
        let ghost before = groups_text(g@.take(i as int));
        if i > 0 {
            push_text(out, ":");
        }
        push_hex_number(out, g[i] as u64);
        proof {
            assert(g@.take(i + 1).drop_last() =~= g@.take(i as int));
            if i > 0 {
                assert(out@ =~= start + (before + ":"@ + hex(g@[i as int] as int)));
            } else {
                assert(before =~= Seq::<char>::empty());
                assert(out@ =~= start + hex(g@[i as int] as int));
            }
        }
        i = i + 1;
    }
    proof {
        assert(g@.take(g@.len() as int) =~= g@);
    }
}

fn zero_run_at(g: &[u16], i: usize) -> (n: usize)
    requires
        i <= g@.len(),
    ensures
        n == zero_run(g@, i as int),
        i + n <= g@.len(),
    decreases g@.len() - i,
{
    if i < g.len() && g[i] == 0 {
        1 + zero_run_at(g, i + 1)
    } else {
        0
    }
}

/// Appends an IPv6 address to `out`.
pub fn push_ip6(out: &mut Vec<char>, ip: u128)
    ensures
        final(out)@ == old(out)@ + ip6_text(ip),
{
    let ghost start = out@;
    if ip / 0x1_0000_0000 == 0xffff {
        push_text(out, "::ffff:");
        push_ip4(out, (ip % 0x1_0000_0000) as u32);
        proof {
            assert(out@ =~= start + ip6_text(ip));
        }
        return;
    }
    let g = groups_of(ip);
    let mut best_start: usize = 0;
    let mut best_len: usize = 0;
    let mut n: usize = 0;
    while n < 8
        invariant
            n <= 8,
            g@.len() == 8,
            longest_run(g@, n as int) == (best_start as int, best_len as int),
            best_start + best_len <= 8,
        decreases 8 - n,
    {
        let len = zero_run_at(&g, n);
        if len > best_len {
            best_start = n;
            best_len = len;
        }
        n = n + 1;
    }
    if best_len > 1 {
        push_groups(out, vstd::slice::slice_subrange(&g, 0, best_start));
        push_text(out, "::");
        push_groups(out, vstd::slice::slice_subrange(&g, best_start + best_len, 8));
        proof {
            assert(g@.subrange(0, best_start as int) =~= g@.take(best_start as int));
            assert(g@.subrange(best_start + best_len, 8) =~= g@.skip(best_start + best_len));
            assert(out@ =~= start + ip6_text(ip));
        }
    } else {
        push_groups(out, &g);
    }
}

/// Appends a socket address in text to `out`.
pub fn push_endpoint(out: &mut Vec<char>, e: Endpoint)
    ensures
        final(out)@ == old(out)@ + endpoint_text(e),
{
    let ghost start = out@;
    match e {
        Endpoint::V4 { ip, port } => {
            push_ip4(out, ip);
            push_text(out, ":");
            push_decimal(out, port as u64);
        },
        Endpoint::V6 { ip, port, flowinfo: _, scope } => {
            push_text(out, "[");
            push_ip6(out, ip);
            if scope != 0 {
                push_text(out, "%");
                push_decimal(out, scope as u64);
            }
            push_text(out, "]:");
            push_decimal(out, port as u64);
        },
    }
    proof {
        assert(out@ =~= start + endpoint_text(e));
    }
}

impl Endpoint {
    /// The endpoint `a.b.c.d:port`.
    pub fn v4(a: u8, b: u8, c: u8, d: u8, port: u16) -> (e: Endpoint)
        ensures
            e == (Endpoint::V4 { ip: ip4(a, b, c, d), port }),
    {
        Endpoint::V4 {
            ip: a as u32 * 0x100_0000 + b as u32 * 0x1_0000 + c as u32 * 0x100 + d as u32,
            port,
        }
    }

    /// The port number.
    pub open spec fn spec_port(self) -> u16 {
        match self {
            Endpoint::V4 { port, .. } => port,
            Endpoint::V6 { port, .. } => port,
        }
    }

    /// The port number.
    pub fn port(&self) -> (p: u16)
        ensures
            p == self.spec_port(),
    {
        match *self {
            Endpoint::V4 { ip: _, port } => port,
            Endpoint::V6 { ip: _, port, flowinfo: _, scope: _ } => port,
        }
    }

    /// The address in text.
    pub fn text(&self) -> (s: String)
        ensures
            s@ == endpoint_text(*self),
    {
        let mut out: Vec<char> = Vec::new();
        push_endpoint(&mut out, *self);
        proof {
            assert(out@ =~= endpoint_text(*self));
        }
        string_of(&out)
    }

    /// Whether this address comes before `other`.
    pub fn before(&self, other: &Endpoint) -> (r: bool)
        ensures
            r == endpoint_before(*self, *other),
    {
        match (*self, *other) {
            (Endpoint::V4 { ip, port }, Endpoint::V4 { ip: ip2, port: port2 }) => ip < ip2 || (ip
                == ip2 && port < port2),
            (Endpoint::V4 { .. }, Endpoint::V6 { .. }) => true,
            (Endpoint::V6 { .. }, Endpoint::V4 { .. }) => false,
            (
                Endpoint::V6 { ip, port, flowinfo, scope },
                Endpoint::V6 { ip: ip2, port: port2, flowinfo: flowinfo2, scope: scope2 },
            ) => ip < ip2 || (ip == ip2 && (port < port2 || (port == port2 && (flowinfo < flowinfo2
                || (flowinfo == flowinfo2 && scope < scope2))))),
        }
    }
}

/// Is `addr` a globally reachable endpoint? Loopback, private and link-local
/// peers of a node are meaningless to a remote one; they must not be advertised (or
/// handshaken) across the internet.
pub fn remote_public(addr: Endpoint) -> (r: bool)
    ensures
        r == is_remote_public(addr),
{
    match addr {
        Endpoint::V4 { ip, port: _ } => {
            let a = octet_of(ip, 0);
            let b = octet_of(ip, 1);
            let private = a == 10 || (a == 172 && 16 <= b && b <= 31) || (a == 192 && b == 168);
            a != 127 && !private && !(a == 169 && b == 254)
        },
        Endpoint::V6 { ip, port: _, flowinfo: _, scope: _ } => {
            let top: u16 = (ip / 0x1_0000_0000_0000_0000_0000_0000_0000) as u16;
            ip != 1 && top / 64 != 0xfe80u16 / 64
        },
    }
}

/// Does `addr` lie in a private IPv4 network?
pub fn private_source(addr: Endpoint) -> (r: bool)
    ensures
        r == is_private_source(addr),
{
    match addr {
        Endpoint::V4 { ip, port: _ } => {
            let a = octet_of(ip, 0);
            let b = octet_of(ip, 1);
            a == 10 || (a == 172 && 16 <= b && b <= 31) || (a == 192 && b == 168)
        },
        Endpoint::V6 { .. } => false,
    }
}

/// Do two addresses share an IPv4 address?
pub fn same_ip4(a: Endpoint, b: Endpoint) -> (r: bool)
    ensures
        r == shares_ip4(a, b),
{
    match (a, b) {
        (Endpoint::V4 { ip, port: _ }, Endpoint::V4 { ip: ip2, port: _ }) => ip == ip2,
        _ => false,
    }
}

} // verus!
