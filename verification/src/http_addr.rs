//! Which addresses are no legitimate public destination, and why.
use vstd::arithmetic::power2::lemma2_to64;
use vstd::arithmetic::power2::pow2;
use vstd::prelude::*;

verus! {

/// An IPv4 address.
#[derive(Debug, Clone, Copy, PartialEq, Eq, Structural)]
pub struct Ipv4Addr {
    /// First octet.
    pub a: u8,
    /// Second octet.
    pub b: u8,
    /// Third octet.
    pub c: u8,
    /// Fourth octet.
    pub d: u8,
}

/// An IPv6 address.
#[derive(Debug, Clone, Copy)]
pub struct Ipv6Addr {
    /// The eight segments.
    pub segments: [u16; 8],
}

/// An IP address.
#[derive(Debug, Clone, Copy)]
pub enum IpAddr {
    /// An IPv4 address.
    V4(Ipv4Addr),
    /// An IPv6 address.
    V6(Ipv6Addr),
}

/// The rule that an IPv4 address breaks, the first of the table that does.
pub open spec fn v4_rule(ip: Ipv4Addr) -> Option<Seq<char>> {
    if ip.a == 127 {
        Some("loopback address (127.0.0.0/8)"@)
    } else if ip.a == 169 && ip.b == 254 {
        Some("link-local address (169.254.0.0/16), which includes cloud metadata"@)
    } else if ip.a == 10 || (ip.a == 172 && 16 <= ip.b <= 31) || (ip.a == 192 && ip.b == 168) {
        Some("private address (RFC 1918)"@)
    } else if ip.a == 100 && 64 <= ip.b < 128 {
        Some("shared address space (100.64.0.0/10)"@)
    } else if ip.a == 0 {
        Some("unspecified address (0.0.0.0/8)"@)
    } else if ip == (Ipv4Addr { a: 255, b: 255, c: 255, d: 255 }) {
        Some("broadcast address"@)
    } else if 224 <= ip.a <= 239 {
        Some("multicast address (224.0.0.0/4)"@)
    } else if ip.a >= 240 {
        Some("reserved address (240.0.0.0/4)"@)
    } else if ip.a == 192 && ip.b == 0 && ip.c == 0 {
        Some("IETF protocol assignment (192.0.0.0/24)"@)
    } else if ip.a == 198 && 18 <= ip.b <= 19 {
        Some("benchmarking range (198.18.0.0/15)"@)
    } else if (ip.a == 192 && ip.b == 0 && ip.c == 2) || (ip.a == 198 && ip.b == 51 && ip.c == 100)
        || (ip.a == 203 && ip.b == 0 && ip.c == 113) {
        Some("documentation range"@)
    } else {
        None
    }
}

/// The IPv4 address in the last two segments.
pub open spec fn tail_v4(s: Seq<u16>) -> Ipv4Addr {
    Ipv4Addr {
        a: (s[6] / 256) as u8,
        b: (s[6] % 256) as u8,
        c: (s[7] / 256) as u8,
        d: (s[7] % 256) as u8,
    }
}

/// Whether the segments from `from` up to `to` are all zero.
pub open spec fn zeros(s: Seq<u16>, from: int, to: int) -> bool {
    forall|i: int| from <= i < to ==> #[trigger] s[i] == 0
}

/// The IPv4 address inside an IPv6 one: IPv4-mapped (`::ffff:0:0/96`), the
/// NAT64 well-known prefix (`64:ff9b::/96`), or the deprecated IPv4-compatible
/// form (`::/96`) but for `::` and `::1`.
pub open spec fn inner_v4(s: Seq<u16>) -> Option<Ipv4Addr> {
    if zeros(s, 0, 5) && s[5] == 0xffff {
        Some(tail_v4(s))
    } else if s[0] == 0x64 && s[1] == 0xff9b && zeros(s, 2, 6) {
        Some(tail_v4(s))
    } else if zeros(s, 0, 6) && !(s[6] == 0 && s[7] <= 1) {
        Some(tail_v4(s))
    } else {
        None
    }
}

/// The rule that an IPv6 address breaks. One that carries an IPv4 address
/// reaches the same host and is judged by that.
pub open spec fn v6_rule(s: Seq<u16>) -> Option<Seq<char>> {
    match inner_v4(s) {
        Some(v4) => v4_rule(v4),
        None => if zeros(s, 0, 7) && s[7] == 1 {
            Some("loopback address (::1)"@)
        } else if zeros(s, 0, 8) {
            Some("unspecified address (::)"@)
        } else if 0xfc00 <= s[0] <= 0xfdff {
            Some("unique local address (fc00::/7)"@)
        } else if 0xfe80 <= s[0] <= 0xfebf {
            Some("link-local address (fe80::/10)"@)
        } else if 0xff00 <= s[0] {
            Some("multicast address (ff00::/8)"@)
        } else if s[0] == 0x2001 && s[1] == 0x0db8 {
            Some("documentation range (2001:db8::/32)"@)
        } else {
            None
        },
    }
}

/// The rule that an address breaks.
pub open spec fn rule(ip: IpAddr) -> Option<Seq<char>> {
    match ip {
        IpAddr::V4(v4) => v4_rule(v4),
        IpAddr::V6(v6) => v6_rule(v6.segments@),
    }
}

/// Why an IPv4 address is no public destination, where it is none.
pub fn v4_reason(ip: &Ipv4Addr) -> (r: Option<&'static str>)
    ensures
        match r {
            Some(reason) => v4_rule(*ip) == Some(reason@),
            None => v4_rule(*ip) is None,
        },
{
    let a = ip.a;
    let b = ip.b;
    let c = ip.c;
    if a == 127 {
        return Some("loopback address (127.0.0.0/8)");
    }
    if a == 169 && b == 254 {
        // The cloud metadata endpoint lives here.
        return Some("link-local address (169.254.0.0/16), which includes cloud metadata");
    }
    if a == 10 || (a == 172 && 16 <= b && b <= 31) || (a == 192 && b == 168) {
        return Some("private address (RFC 1918)");
    }
    if a == 100 && 64 <= b && b < 128 {
        // Carrier-grade NAT, routable inside a provider network.
        return Some("shared address space (100.64.0.0/10)");
    }
    if a == 0 {
        return Some("unspecified address (0.0.0.0/8)");
    }
    if a == 255 && b == 255 && c == 255 && ip.d == 255 {
        return Some("broadcast address");
    }
    if 224 <= a && a <= 239 {
        return Some("multicast address (224.0.0.0/4)");
    }
    if a >= 240 {
        return Some("reserved address (240.0.0.0/4)");
    }
    if a == 192 && b == 0 && c == 0 {
        return Some("IETF protocol assignment (192.0.0.0/24)");
    }
    if a == 198 && (b == 18 || b == 19) {
        return Some("benchmarking range (198.18.0.0/15)");
    }
    if (a == 192 && b == 0 && c == 2) || (a == 198 && b == 51 && c == 100) || (a == 203 && b == 0
        && c == 113) {
        return Some("documentation range");
    }
    None
}

/// Whether the segments from `from` up to `to` are all zero.
fn all_zero(s: &[u16; 8], from: usize, to: usize) -> (r: bool)
    requires
        from <= to <= 8,
    ensures
        r == zeros(s@, from as int, to as int),
{
    let mut i: usize = from;
    while i < to
        invariant
            from <= i <= to <= 8,
            zeros(s@, from as int, i as int),
        decreases to - i,
    {
        if s[i] != 0 {
            assert(s@[i as int] != 0);
            return false;
        }
        i += 1;
    }
    true
}

/// The IPv4 address inside an IPv6 one, for every form that carries one.
fn embedded_v4(ip: &Ipv6Addr) -> (r: Option<Ipv4Addr>)
    ensures
        r == inner_v4(ip.segments@),
{
    let s = &ip.segments;
    let tail = Ipv4Addr {
        a: (s[6] / 256) as u8,
        b: (s[6] % 256) as u8,
        c: (s[7] / 256) as u8,
        d: (s[7] % 256) as u8,
    };
    if all_zero(s, 0, 5) && s[5] == 0xffff {
        return Some(tail);
    }
    if s[0] == 0x64 && s[1] == 0xff9b && all_zero(s, 2, 6) {
        return Some(tail);
    }
    if all_zero(s, 0, 6) && !(s[6] == 0 && (s[7] == 0 || s[7] == 1)) {
        return Some(tail);
    }
    None
}

/// Why an IPv6 address is no public destination, where it is none. One that carries
/// an IPv4 address is judged by that.
pub fn v6_reason(ip: &Ipv6Addr) -> (r: Option<&'static str>)
    ensures
        match r {
            Some(reason) => v6_rule(ip.segments@) == Some(reason@),
            None => v6_rule(ip.segments@) is None,
        },
{
    match embedded_v4(ip) {
        Some(v4) => {
            return v4_reason(&v4);
        },
        None => {},
    }
    let s = &ip.segments;
    if all_zero(s, 0, 7) && s[7] == 1 {
        return Some("loopback address (::1)");
    }
    if all_zero(s, 0, 8) {
        return Some("unspecified address (::)");
    }
    if 0xfc00 <= s[0] && s[0] <= 0xfdff {
        return Some("unique local address (fc00::/7)");
    }
    if 0xfe80 <= s[0] && s[0] <= 0xfebf {
        return Some("link-local address (fe80::/10)");
    }
    if 0xff00 <= s[0] {
        return Some("multicast address (ff00::/8)");
    }
    if s[0] == 0x2001 && s[1] == 0x0db8 {
        return Some("documentation range (2001:db8::/32)");
    }
    None
}

/// Why an address is not a legitimate public destination, or `None` when it
/// is one.
///
/// The reason exists so a refusal can name the rule it broke.
pub fn private_address_reason(ip: &IpAddr) -> (r: Option<&'static str>)
    ensures
        match r {
            Some(reason) => rule(*ip) == Some(reason@),
            None => rule(*ip) is None,
        },
{
    match ip {
        IpAddr::V4(v4) => v4_reason(v4),
        IpAddr::V6(v6) => v6_reason(v6),
    }
}

/// Whether `ip` is private, reserved, or otherwise not a public destination.
pub fn is_private_address(ip: &IpAddr) -> (r: bool)
    ensures
        r == (rule(*ip) is Some),
{
    private_address_reason(ip).is_some()
}

/// The segments that carry `v4` behind the six segments of `prefix`.
pub open spec fn carrying(prefix: Seq<u16>, v4: Ipv4Addr) -> Seq<u16> {
    prefix.push((v4.a * 256 + v4.b) as u16).push((v4.c * 256 + v4.d) as u16)
}

/// An IPv4 address is judged alike bare, IPv4-mapped, and behind the NAT64
/// prefix: no IPv6 form of it is let through, and none of a public one refused.
pub proof fn law_a_carried_address_is_judged_as_itself(v4: Ipv4Addr)
    ensures
        v6_rule(carrying(seq![0u16, 0, 0, 0, 0, 0xffff], v4)) == v4_rule(v4),
        v6_rule(carrying(seq![0x64u16, 0xff9b, 0, 0, 0, 0], v4)) == v4_rule(v4),
{
    let mapped = carrying(seq![0u16, 0, 0, 0, 0, 0xffff], v4);
    let nat64 = carrying(seq![0x64u16, 0xff9b, 0, 0, 0, 0], v4);
    lemma_tail(seq![0u16, 0, 0, 0, 0, 0xffff], v4);
    lemma_tail(seq![0x64u16, 0xff9b, 0, 0, 0, 0], v4);
    assert(zeros(mapped, 0, 5));
    assert(mapped[5] == 0xffff);
    assert(zeros(nat64, 2, 6));
    assert(nat64[0] == 0x64 && nat64[1] == 0xff9b);
    assert(nat64[0] != 0);
}

/// The deprecated IPv4-compatible form is judged as its IPv4 address, but for
/// `::` and `::1`, which are refused by rules of their own.
pub proof fn law_a_compatible_address_is_judged_as_itself(v4: Ipv4Addr)
    ensures
        !(v4.a == 0 && v4.b == 0 && v4.c == 0 && v4.d <= 1) ==> v6_rule(
            carrying(seq![0u16, 0, 0, 0, 0, 0], v4),
        ) == v4_rule(v4),
        v6_rule(carrying(seq![0u16, 0, 0, 0, 0, 0], v4)) is Some <==> v4_rule(v4) is Some,
        v4.a == 0 && v4.b == 0 && v4.c == 0 && v4.d <= 1 ==> v6_rule(
            carrying(seq![0u16, 0, 0, 0, 0, 0], v4),
        ) is Some,
{
    let s = carrying(seq![0u16, 0, 0, 0, 0, 0], v4);
    lemma_tail(seq![0u16, 0, 0, 0, 0, 0], v4);
    assert(zeros(s, 0, 6));
    assert(s[0] == 0 && s[5] == 0);
    if v4.a == 0 && v4.b == 0 && v4.c == 0 && v4.d <= 1 {
        assert(s[6] == 0 && s[7] == v4.d);
    }
}

/// An IPv4 address in an IPv6 form is refused for the reason for which it is
/// refused bare, and let through where it is let through bare. Two addresses have a
/// reason of their own in the deprecated form: `::` and `::1`.
pub proof fn law_an_ipv6_form_changes_no_verdict(v4: Ipv4Addr, v6: Ipv6Addr)
    ensures
        v6.segments@ == carrying(seq![0u16, 0, 0, 0, 0, 0xffff], v4) || v6.segments@ == carrying(
            seq![0x64u16, 0xff9b, 0, 0, 0, 0],
            v4,
        ) ==> rule(IpAddr::V6(v6)) == rule(IpAddr::V4(v4)),
        v6.segments@ == carrying(seq![0u16, 0, 0, 0, 0, 0], v4) ==> if v4.a == 0 && v4.b == 0
            && v4.c == 0 && v4.d <= 1 {
            rule(IpAddr::V6(v6)) is Some && rule(IpAddr::V4(v4)) is Some
        } else {
            rule(IpAddr::V6(v6)) == rule(IpAddr::V4(v4))
        },
{
    law_a_carried_address_is_judged_as_itself(v4);
    law_a_compatible_address_is_judged_as_itself(v4);
}

/// The last two segments spell the address that is carried.
proof fn lemma_tail(prefix: Seq<u16>, v4: Ipv4Addr)
    requires
        prefix.len() == 6,
    ensures
        tail_v4(carrying(prefix, v4)) == v4,
        carrying(prefix, v4).len() == 8,
        forall|i: int| 0 <= i < 6 ==> carrying(prefix, v4)[i] == prefix[i],
        carrying(prefix, v4)[6] == v4.a * 256 + v4.b,
        carrying(prefix, v4)[7] == v4.c * 256 + v4.d,
{
}

/// A block of addresses: those whose leading bits, `prefix` of them, are those of
/// `base`.
pub struct Block {
    /// The number of its first address.
    pub base: int,
    /// How many leading bits its addresses share.
    pub prefix: int,
    /// Why its addresses are no public destination.
    pub reason: Seq<char>,
}

/// The number that an IPv4 address is written for.
pub open spec fn number_of(ip: Ipv4Addr) -> int {
    ip.a * 0x100_0000 + ip.b * 0x1_0000 + ip.c * 0x100 + ip.d
}

/// Whether the address with the number `n` of `width` bits lies in `block`.
pub open spec fn lies_in(n: int, width: int, block: Block) -> bool {
    n / (pow2((width - block.prefix) as nat) as int) == block.base / (pow2(
        (width - block.prefix) as nat,
    ) as int)
}

/// A block of IPv4 addresses, by the octets of its first.
pub open spec fn v4_block(a: u8, b: u8, c: u8, d: u8, prefix: int, reason: Seq<char>) -> Block {
    Block { base: number_of(Ipv4Addr { a, b, c, d }), prefix, reason }
}

/// The blocks of IPv4 addresses that are no public destination. Where two overlap,
/// the first gives the reason.
pub open spec fn v4_blocks() -> Seq<Block> {
    seq![
        v4_block(127, 0, 0, 0, 8, "loopback address (127.0.0.0/8)"@),
        v4_block(
            169,
            254,
            0,
            0,
            16,
            "link-local address (169.254.0.0/16), which includes cloud metadata"@,
        ),
        v4_block(10, 0, 0, 0, 8, "private address (RFC 1918)"@),
        v4_block(172, 16, 0, 0, 12, "private address (RFC 1918)"@),
        v4_block(192, 168, 0, 0, 16, "private address (RFC 1918)"@),
        v4_block(100, 64, 0, 0, 10, "shared address space (100.64.0.0/10)"@),
        v4_block(0, 0, 0, 0, 8, "unspecified address (0.0.0.0/8)"@),
        v4_block(255, 255, 255, 255, 32, "broadcast address"@),
        v4_block(224, 0, 0, 0, 4, "multicast address (224.0.0.0/4)"@),
        v4_block(240, 0, 0, 0, 4, "reserved address (240.0.0.0/4)"@),
        v4_block(192, 0, 0, 0, 24, "IETF protocol assignment (192.0.0.0/24)"@),
        v4_block(198, 18, 0, 0, 15, "benchmarking range (198.18.0.0/15)"@),
        v4_block(192, 0, 2, 0, 24, "documentation range"@),
        v4_block(198, 51, 100, 0, 24, "documentation range"@),
        v4_block(203, 0, 113, 0, 24, "documentation range"@),
    ]
}

/// Whether `k` is the first of `blocks` that the address with the number `n` lies in.
pub open spec fn is_first_block(n: int, width: int, blocks: Seq<Block>, k: int) -> bool {
    &&& 0 <= k < blocks.len()
    &&& lies_in(n, width, blocks[k])
    &&& forall|j: int| 0 <= j < k ==> !lies_in(n, width, #[trigger] blocks[j])
}

/// Whether the address with the number `n` lies in none of `blocks`.
pub open spec fn lies_outside(n: int, width: int, blocks: Seq<Block>) -> bool {
    forall|j: int| 0 <= j < blocks.len() ==> !lies_in(n, width, #[trigger] blocks[j])
}

/// Where an IPv4 address lies, by its octets.
proof fn lemma_v4_blocks(ip: Ipv4Addr)
    ensures
        v4_blocks().len() == 15,
        ({
            let n = number_of(ip);
            let t = v4_blocks();
            &&& lies_in(n, 32, t[0]) <==> ip.a == 127
            &&& lies_in(n, 32, t[1]) <==> ip.a == 169 && ip.b == 254
            &&& lies_in(n, 32, t[2]) <==> ip.a == 10
            &&& lies_in(n, 32, t[3]) <==> ip.a == 172 && 16 <= ip.b < 32
            &&& lies_in(n, 32, t[4]) <==> ip.a == 192 && ip.b == 168
            &&& lies_in(n, 32, t[5]) <==> ip.a == 100 && 64 <= ip.b < 128
            &&& lies_in(n, 32, t[6]) <==> ip.a == 0
            &&& lies_in(n, 32, t[7]) <==> ip.a == 255 && ip.b == 255 && ip.c == 255 && ip.d == 255
            &&& lies_in(n, 32, t[8]) <==> 224 <= ip.a < 240
            &&& lies_in(n, 32, t[9]) <==> 240 <= ip.a
            &&& lies_in(n, 32, t[10]) <==> ip.a == 192 && ip.b == 0 && ip.c == 0
            &&& lies_in(n, 32, t[11]) <==> ip.a == 198 && 18 <= ip.b < 20
            &&& lies_in(n, 32, t[12]) <==> ip.a == 192 && ip.b == 0 && ip.c == 2
            &&& lies_in(n, 32, t[13]) <==> ip.a == 198 && ip.b == 51 && ip.c == 100
            &&& lies_in(n, 32, t[14]) <==> ip.a == 203 && ip.b == 0 && ip.c == 113
        }),
{
    lemma2_to64();
    let n = number_of(ip);
    assert(n / 0x1000_0000 == ip.a / 16);
    assert(n / 0x100_0000 == ip.a);
    assert(n / 0x40_0000 == ip.a * 4 + ip.b / 64);
    assert(n / 0x10_0000 == ip.a * 16 + ip.b / 16);
    assert(n / 0x2_0000 == ip.a * 128 + ip.b / 2);
    assert(n / 0x1_0000 == ip.a * 256 + ip.b);
    assert(n / 0x100 == ip.a * 0x1_0000 + ip.b * 256 + ip.c);
    assert(n / 1 == n);
    let t = v4_blocks();
    assert(lies_in(n, 32, t[0]) <==> n / 0x1000000 == t[0].base / 0x1000000);
    assert(lies_in(n, 32, t[1]) <==> n / 0x10000 == t[1].base / 0x10000);
    assert(lies_in(n, 32, t[2]) <==> n / 0x1000000 == t[2].base / 0x1000000);
    assert(lies_in(n, 32, t[3]) <==> n / 0x100000 == t[3].base / 0x100000);
    assert(lies_in(n, 32, t[4]) <==> n / 0x10000 == t[4].base / 0x10000);
    assert(lies_in(n, 32, t[5]) <==> n / 0x400000 == t[5].base / 0x400000);
    assert(lies_in(n, 32, t[6]) <==> n / 0x1000000 == t[6].base / 0x1000000);
    assert(lies_in(n, 32, t[7]) <==> n / 0x1 == t[7].base / 0x1);
    assert(lies_in(n, 32, t[8]) <==> n / 0x10000000 == t[8].base / 0x10000000);
    assert(lies_in(n, 32, t[9]) <==> n / 0x10000000 == t[9].base / 0x10000000);
    assert(lies_in(n, 32, t[10]) <==> n / 0x100 == t[10].base / 0x100);
    assert(lies_in(n, 32, t[11]) <==> n / 0x20000 == t[11].base / 0x20000);
    assert(lies_in(n, 32, t[12]) <==> n / 0x100 == t[12].base / 0x100);
    assert(lies_in(n, 32, t[13]) <==> n / 0x100 == t[13].base / 0x100);
    assert(lies_in(n, 32, t[14]) <==> n / 0x100 == t[14].base / 0x100);
}

/// An IPv4 address is no public destination exactly where it lies in one of the
/// blocks, and the first that it lies in gives the reason.
pub proof fn law_an_ipv4_address_is_judged_by_its_block(ip: Ipv4Addr, k: int)
    ensures
        lies_outside(number_of(ip), 32, v4_blocks()) <==> rule(IpAddr::V4(ip)) is None,
        is_first_block(number_of(ip), 32, v4_blocks(), k) ==> rule(IpAddr::V4(ip)) == Some(
            v4_blocks()[k].reason,
        ),
        ip.a == 172 && (ip.b < 16 || ip.b > 31) ==> rule(IpAddr::V4(ip)) is None,
        ip.a == 172 && 16 <= ip.b <= 31 ==> rule(IpAddr::V4(ip)) is Some,
        ip.a == 100 && (ip.b < 64 || ip.b > 127) ==> rule(IpAddr::V4(ip)) is None,
{
    let n = number_of(ip);
    let t = v4_blocks();
    lemma_v4_blocks(ip);
    if rule(IpAddr::V4(ip)) is None {
        assert forall|j: int| 0 <= j < t.len() implies !lies_in(n, 32, #[trigger] t[j]) by {}
    }
    if lies_outside(n, 32, t) {
        assert(!lies_in(n, 32, t[0]) && !lies_in(n, 32, t[1]) && !lies_in(n, 32, t[2]));
        assert(!lies_in(n, 32, t[3]) && !lies_in(n, 32, t[4]) && !lies_in(n, 32, t[5]));
        assert(!lies_in(n, 32, t[6]) && !lies_in(n, 32, t[7]) && !lies_in(n, 32, t[8]));
        assert(!lies_in(n, 32, t[9]) && !lies_in(n, 32, t[10]) && !lies_in(n, 32, t[11]));
        assert(!lies_in(n, 32, t[12]) && !lies_in(n, 32, t[13]) && !lies_in(n, 32, t[14]));
    }
    if is_first_block(n, 32, t, k) {
        assert forall|j: int| 0 <= j < k implies !lies_in(n, 32, #[trigger] t[j]) by {}
        if k > 0 {
            assert(!lies_in(n, 32, t[0]));
        }
        if k > 1 {
            assert(!lies_in(n, 32, t[1]));
        }
        if k > 2 {
            assert(!lies_in(n, 32, t[2]));
        }
        if k > 7 {
            assert(!lies_in(n, 32, t[7]));
        }
    }
}

/// How many of the first `prefix` bits of an IPv6 address lie in its segment `i`.
pub open spec fn shared_bits(prefix: int, i: int) -> nat {
    if prefix <= 16 * i {
        0
    } else if prefix >= 16 * i + 16 {
        16
    } else {
        (prefix - 16 * i) as nat
    }
}

/// Whether the first `prefix` bits of `s` are those of `base`.
pub open spec fn leads(s: Seq<u16>, base: Seq<u16>, prefix: int) -> bool {
    forall|i: int|
        0 <= i < 8 ==> (#[trigger] s[i]) as int / (pow2((16 - shared_bits(prefix, i)) as nat) as int)
            == base[i] as int / (pow2((16 - shared_bits(prefix, i)) as nat) as int)
}

/// The blocks of IPv6 addresses that are no public destination, and why.
pub open spec fn v6_blocks() -> Seq<(Seq<u16>, int, Seq<char>)> {
    seq![
        (seq![0u16, 0, 0, 0, 0, 0, 0, 1], 128, "loopback address (::1)"@),
        (seq![0u16, 0, 0, 0, 0, 0, 0, 0], 128, "unspecified address (::)"@),
        (seq![0xfc00u16, 0, 0, 0, 0, 0, 0, 0], 7, "unique local address (fc00::/7)"@),
        (seq![0xfe80u16, 0, 0, 0, 0, 0, 0, 0], 10, "link-local address (fe80::/10)"@),
        (seq![0xff00u16, 0, 0, 0, 0, 0, 0, 0], 8, "multicast address (ff00::/8)"@),
        (
            seq![0x2001u16, 0xdb8, 0, 0, 0, 0, 0, 0],
            32,
            "documentation range (2001:db8::/32)"@,
        ),
    ]
}

/// The blocks of IPv6 addresses that carry an IPv4 address in their last 32 bits.
pub open spec fn carriers() -> Seq<Seq<u16>> {
    seq![
        seq![0u16, 0, 0, 0, 0, 0xffff, 0, 0],
        seq![0x64u16, 0xff9b, 0, 0, 0, 0, 0, 0],
        seq![0u16, 0, 0, 0, 0, 0, 0, 0],
    ]
}

/// Whether an IPv6 address carries an IPv4 one: `::` and `::1` do not.
pub open spec fn carries(s: Seq<u16>) -> bool {
    &&& leads(s, carriers()[0], 96) || leads(s, carriers()[1], 96) || leads(s, carriers()[2], 96)
    &&& !leads(s, v6_blocks()[0].0, 128)
    &&& !leads(s, v6_blocks()[1].0, 128)
}

/// The bits that are compared of each segment.
proof fn lemma_units()
    ensures
        pow2(0) == 1,
        pow2(6) == 64,
        pow2(8) == 256,
        pow2(9) == 512,
        pow2(16) == 0x1_0000,
        forall|prefix: int, i: int|
            #![trigger shared_bits(prefix, i)]
            {
                &&& 16 * i + 16 <= prefix ==> shared_bits(prefix, i) == 16
                &&& prefix <= 16 * i ==> shared_bits(prefix, i) == 0
            },
{
    lemma2_to64();
}

/// Where an IPv6 address lies, by its segments.
proof fn lemma_leads(s: Seq<u16>)
    requires
        s.len() == 8,
    ensures
        leads(s, carriers()[0], 96) <==> zeros(s, 0, 5) && s[5] == 0xffff,
        leads(s, carriers()[1], 96) <==> s[0] == 0x64 && s[1] == 0xff9b && zeros(s, 2, 6),
        leads(s, carriers()[2], 96) <==> zeros(s, 0, 6),
        v6_blocks().len() == 6,
        leads(s, v6_blocks()[0].0, 128) <==> zeros(s, 0, 7) && s[7] == 1,
        leads(s, v6_blocks()[1].0, 128) <==> zeros(s, 0, 8),
        leads(s, v6_blocks()[2].0, 7) <==> 0xfc00 <= s[0] <= 0xfdff,
        leads(s, v6_blocks()[3].0, 10) <==> 0xfe80 <= s[0] <= 0xfebf,
        leads(s, v6_blocks()[4].0, 8) <==> 0xff00 <= s[0],
        leads(s, v6_blocks()[5].0, 32) <==> s[0] == 0x2001 && s[1] == 0xdb8,
{
    lemma_leads_whole(s, carriers()[0], 6);
    lemma_leads_whole(s, carriers()[1], 6);
    lemma_leads_whole(s, carriers()[2], 6);
    lemma_leads_whole(s, v6_blocks()[0].0, 8);
    lemma_leads_whole(s, v6_blocks()[1].0, 8);
    lemma_leads_whole(s, v6_blocks()[5].0, 2);
    lemma_leads_part(s, v6_blocks()[2].0, 7);
    lemma_leads_part(s, v6_blocks()[3].0, 10);
    lemma_leads_part(s, v6_blocks()[4].0, 8);
    lemma2_to64();
}

/// A prefix of whole segments.
proof fn lemma_leads_whole(s: Seq<u16>, base: Seq<u16>, n: int)
    requires
        0 <= n <= 8,
    ensures
        leads(s, base, 16 * n) <==> forall|i: int| 0 <= i < n ==> #[trigger] s[i] == base[i],
{
    lemma_units();
    let prefix = 16 * n;
    if forall|i: int| 0 <= i < n ==> #[trigger] s[i] == base[i] {
        assert forall|i: int| 0 <= i < 8 implies (#[trigger] s[i]) as int / (pow2(
            (16 - shared_bits(prefix, i)) as nat,
        ) as int) == base[i] as int / (pow2((16 - shared_bits(prefix, i)) as nat) as int) by {
            if i >= n {
                assert(shared_bits(prefix, i) == 0);
                assert(s[i] as int / 0x1_0000 == 0 && base[i] as int / 0x1_0000 == 0);
            }
        }
    }
    if leads(s, base, prefix) {
        assert forall|i: int| 0 <= i < n implies #[trigger] s[i] == base[i] by {
            assert(shared_bits(prefix, i) == 16);
            assert(s[i] as int / 1 == base[i] as int / 1);
        }
    }
}

/// A prefix of a part of the first segment.
proof fn lemma_leads_part(s: Seq<u16>, base: Seq<u16>, prefix: int)
    requires
        0 <= prefix <= 16,
    ensures
        leads(s, base, prefix) <==> s[0] as int / (pow2((16 - prefix) as nat) as int) == base[0]
            as int / (pow2((16 - prefix) as nat) as int),
{
    lemma_units();
    if s[0] as int / (pow2((16 - prefix) as nat) as int) == base[0] as int / (pow2(
        (16 - prefix) as nat,
    ) as int) {
        assert forall|i: int| 0 <= i < 8 implies (#[trigger] s[i]) as int / (pow2(
            (16 - shared_bits(prefix, i)) as nat,
        ) as int) == base[i] as int / (pow2((16 - shared_bits(prefix, i)) as nat) as int) by {
            if i >= 1 {
                assert(shared_bits(prefix, i) == 0);
                assert(s[i] as int / 0x1_0000 == 0 && base[i] as int / 0x1_0000 == 0);
            }
        }
    }
    if leads(s, base, prefix) {
        assert(s[0] as int / (pow2((16 - shared_bits(prefix, 0)) as nat) as int) == base[0] as int
            / (pow2((16 - shared_bits(prefix, 0)) as nat) as int));
    }
}

/// An IPv6 address that carries an IPv4 one is judged as that; any other is no public
/// destination exactly where it lies in one of the blocks, which gives the reason.
pub proof fn law_an_ipv6_address_is_judged_by_its_block(ip: Ipv6Addr, v4: Ipv4Addr, k: int)
    requires
        number_of(v4) == ip.segments@[6] * 0x1_0000 + ip.segments@[7],
    ensures
        carries(ip.segments@) ==> rule(IpAddr::V6(ip)) == rule(IpAddr::V4(v4)),
        !carries(ip.segments@) ==> (rule(IpAddr::V6(ip)) is None <==> forall|j: int|
            0 <= j < v6_blocks().len() ==> !leads(
                ip.segments@,
                (#[trigger] v6_blocks()[j]).0,
                v6_blocks()[j].1,
            )),
        !carries(ip.segments@) && 0 <= k < v6_blocks().len() && leads(
            ip.segments@,
            v6_blocks()[k].0,
            v6_blocks()[k].1,
        ) ==> rule(IpAddr::V6(ip)) == Some(v6_blocks()[k].2),
{
    let s = ip.segments@;
    let t = v6_blocks();
    lemma_leads(s);
    assert(tail_v4(s) == v4);
    assert(t[0].1 == 128 && t[1].1 == 128 && t[2].1 == 7 && t[3].1 == 10 && t[4].1 == 8 && t[5].1
        == 32);
    assert(zeros(s, 0, 6) && s[6] == 0 && s[7] <= 1 <==> (zeros(s, 0, 7) && s[7] == 1) || zeros(
        s,
        0,
        8,
    ));
    if !carries(s) {
        if rule(IpAddr::V6(ip)) is Some && forall|j: int|
            0 <= j < t.len() ==> !leads(s, (#[trigger] t[j]).0, t[j].1) {
            assert(!leads(s, t[0].0, t[0].1) && !leads(s, t[1].0, t[1].1));
            assert(!leads(s, t[2].0, t[2].1) && !leads(s, t[3].0, t[3].1));
            assert(!leads(s, t[4].0, t[4].1) && !leads(s, t[5].0, t[5].1));
        }
    }
}

} // verus!
