//! IPv4 addresses (as `u32`, most significant octet first) and networks:
//! masks, containment, dotted-decimal text, and reading dotted and CIDR
//! text.

use vstd::prelude::*;

use crate::text::{
    all_digits, copy_range, decimal, digits_value, find_char, find_from, is_digit, lemma_decimal_digits,
    lemma_find_from_is, parse_u32_chars, push_decimal, push_str, str_chars,
};

verus! {

/// An IPv4 address with a prefix length, as written `a.b.c.d/len`.  The
/// address keeps its host bits; `network()` clears them.
#[derive(Debug, Clone, Copy, PartialEq, Eq, Structural)]
pub struct Ipv4Net {
    pub addr: u32,
    pub prefix: u8,
}

/// The netmask of a prefix length: its `prefix` most significant bits set.
pub open spec fn mask_of(prefix: u8) -> u32 {
    if prefix == 0 {
        0
    } else if prefix >= 32 {
        0xffff_ffff
    } else {
        (0xffff_ffffu32 << ((32 - prefix) as u32)) as u32
    }
}

/// The network address: the address with its host bits cleared.
pub open spec fn network_of(n: Ipv4Net) -> u32 {
    n.addr & mask_of(n.prefix)
}

/// Whether `ip` lies in the network `n`.
pub open spec fn net_contains(n: Ipv4Net, ip: u32) -> bool {
    ip & mask_of(n.prefix) == network_of(n)
}

impl Ipv4Net {
    /// A network from an address and a prefix length; `None` when the
    /// prefix length exceeds 32.
    pub fn new(addr: u32, prefix: u8) -> (r: Option<Ipv4Net>)
        ensures
            prefix <= 32 ==> r == Some(Ipv4Net { addr, prefix }),
            prefix > 32 ==> r is None,
    {
        if prefix > 32 {
            None
        } else {
            Some(Ipv4Net { addr, prefix })
        }
    }

    pub fn ip(&self) -> (r: u32)
        ensures
            r == self.addr,
    {
        self.addr
    }

    pub fn prefix(&self) -> (r: u8)
        ensures
            r == self.prefix,
    {
        self.prefix
    }

    pub fn mask(&self) -> (r: u32)
        ensures
            r == mask_of(self.prefix),
    {
        if self.prefix == 0 {
            0
        } else if self.prefix >= 32 {
            0xffff_ffff
        } else {
            0xffff_ffffu32 << ((32 - self.prefix) as u32)
        }
    }

    pub fn network(&self) -> (r: u32)
        ensures
            r == network_of(*self),
    {
        self.addr & self.mask()
    }

    pub fn contains(&self, ip: u32) -> (r: bool)
        ensures
            r == net_contains(*self, ip),
    {
        let m = self.mask();
        (ip & m) == (self.addr & m)
    }
}

/// The four octets of an address, most significant first.
pub open spec fn octet(a: u32, i: int) -> nat {
    ((a as nat) / pow256(3 - i)) % 256
}

pub open spec fn pow256(k: int) -> nat
    decreases k,
{
    if k <= 0 {
        1
    } else {
        256 * pow256(k - 1)
    }
}

/// Dotted-decimal text of an address (as `Display` for `Ipv4Addr`).
pub open spec fn ipv4_text(a: u32) -> Seq<char> {
    decimal(octet(a, 0)) + "."@ + decimal(octet(a, 1)) + "."@ + decimal(octet(a, 2)) + "."@
        + decimal(octet(a, 3))
}

/// CIDR text of a network: `a.b.c.d/len`.
pub open spec fn net_text(n: Ipv4Net) -> Seq<char> {
    ipv4_text(n.addr) + "/"@ + decimal(n.prefix as nat)
}

/// Appends the dotted-decimal text of an address.
pub fn push_ipv4(out: &mut String, a: u32)
    ensures
        final(out)@ == old(out)@ + ipv4_text(a),
{
    let ghost start = out@;
    proof {
        assert(pow256(0) == 1);
        assert(pow256(1) == 256);
        assert(pow256(2) == 65536);
        assert(pow256(3) == 16777216);
    }
    let o0 = (a / 16777216) % 256;
    let o1 = (a / 65536) % 256;
    let o2 = (a / 256) % 256;
    let o3 = a % 256;
    assert(o0 == octet(a, 0));
    assert(o1 == octet(a, 1));
    assert(o2 == octet(a, 2));
    assert((a as nat) / 1 == a as nat);
    assert(o3 == octet(a, 3));
    push_decimal(out, o0 as u64);
    push_str(out, ".");
    push_decimal(out, o1 as u64);
    push_str(out, ".");
    push_decimal(out, o2 as u64);
    push_str(out, ".");
    push_decimal(out, o3 as u64);
    proof {
        assert(out@ =~= start + ipv4_text(a));
    }
}

/// The dotted-decimal text of an address.
pub fn ipv4_string(a: u32) -> (r: String)
    ensures
        r@ == ipv4_text(a),
{
    let mut s = String::new();
    push_ipv4(&mut s, a);
    proof {
        assert(s@ =~= ipv4_text(a));
    }
    s
}

/// The CIDR text of a network.
pub fn net_string(n: &Ipv4Net) -> (r: String)
    ensures
        r@ == net_text(*n),
{
    let mut s = String::new();
    push_ipv4(&mut s, n.addr);
    push_str(&mut s, "/");
    push_decimal(&mut s, n.prefix as u64);
    proof {
        assert(s@ =~= net_text(*n));
    }
    s
}

// ── Reading addresses ──

/// One octet of a dotted address, as `Ipv4Addr`'s parser reads it: one to
/// three ASCII digits, without a leading zero unless it is the only digit,
/// denoting at most 255.
pub open spec fn octet_parse(s: Seq<char>) -> Option<nat> {
    if 1 <= s.len() <= 3 && all_digits(s) && !(s.len() > 1 && s[0] == '0') && digits_value(s) <= 255 {
        Some(digits_value(s))
    } else {
        None
    }
}

/// A dotted IPv4 address (`a.b.c.d`, as `Ipv4Addr`'s `FromStr` accepts
/// it): exactly four octets separated by dots; the first is the most
/// significant.
pub open spec fn ipv4_addr_parse(s: Seq<char>) -> Option<u32> {
    let i1 = find_from(s, '.', 0);
    let i2 = find_from(s, '.', i1 + 1);
    let i3 = find_from(s, '.', i2 + 1);
    if i3 < s.len() && find_from(s, '.', i3 + 1) == s.len() {
        match (
            octet_parse(s.subrange(0, i1)),
            octet_parse(s.subrange(i1 + 1, i2)),
            octet_parse(s.subrange(i2 + 1, i3)),
            octet_parse(s.subrange(i3 + 1, s.len() as int)),
        ) {
            (Some(a), Some(b), Some(c), Some(d)) => Some((a * 16777216 + b * 65536 + c * 256 + d) as u32),
            _ => None,
        }
    } else {
        None
    }
}

fn parse_octet(s: &[char]) -> (r: Option<u32>)
    ensures
        match octet_parse(s@) {
            Some(v) => r == Some(v as u32),
            None => r is None,
        },
{
    if s.len() < 1 || s.len() > 3 {
        return None;
    }
    if s.len() > 1 && s[0] == '0' {
        return None;
    }
    if !(s.len() > 0 && s[0] == '+') {
        match parse_u32_chars(s) {
            Some(v) => {
                if v <= 255 {
                    Some(v)
                } else {
                    None
                }
            },
            None => None,
        }
    } else {
        proof {
            assert(!is_digit(s@[0]));
        }
        None
    }
}

/// Reads a dotted IPv4 address (see `ipv4_addr_parse`).
pub fn parse_ipv4_addr(text: &str) -> (r: Option<u32>)
    ensures
        r == ipv4_addr_parse(text@),
{
    let s = str_chars(text);
    let n = s.len();
    let i1 = find_char(s.as_slice(), '.', 0);
    if i1 >= n {
        proof {
            assert(find_from(s@, '.', i1 + 1) == n);
        }
        return None;
    }
    let i2 = find_char(s.as_slice(), '.', i1 + 1);
    if i2 >= n {
        return None;
    }
    let i3 = find_char(s.as_slice(), '.', i2 + 1);
    if i3 >= n {
        return None;
    }
    let i4 = find_char(s.as_slice(), '.', i3 + 1);
    if i4 < n {
        return None;
    }
    let a = parse_octet(copy_range(s.as_slice(), 0, i1).as_slice());
    let b = parse_octet(copy_range(s.as_slice(), i1 + 1, i2).as_slice());
    let c = parse_octet(copy_range(s.as_slice(), i2 + 1, i3).as_slice());
    let d = parse_octet(copy_range(s.as_slice(), i3 + 1, n).as_slice());
    match (a, b, c, d) {
        (Some(a), Some(b), Some(c), Some(d)) => Some(a * 16777216 + b * 65536 + c * 256 + d),
        _ => None,
    }
}

proof fn lemma_octet_text(o: nat)
    requires
        o < 256,
    ensures
        octet_parse(decimal(o)) == Some(o),
        forall|j: int| 0 <= j < decimal(o).len() ==> #[trigger] decimal(o)[j] != '.',
{
    lemma_decimal_digits(o);
    assert forall|j: int| 0 <= j < decimal(o).len() implies #[trigger] decimal(o)[j] != '.' by {
        assert(is_digit(decimal(o)[j]));
    }
}

/// The dotted text of an address holds digits and dots only.
pub proof fn lemma_ipv4_text_no_slash(a: u32)
    ensures
        forall|j: int| 0 <= j < ipv4_text(a).len() ==> #[trigger] ipv4_text(a)[j] != '/',
{
    reveal_strlit(".");
    let d0 = decimal(octet(a, 0));
    let d1 = decimal(octet(a, 1));
    let d2 = decimal(octet(a, 2));
    let d3 = decimal(octet(a, 3));
    lemma_decimal_digits(octet(a, 0));
    lemma_decimal_digits(octet(a, 1));
    lemma_decimal_digits(octet(a, 2));
    lemma_decimal_digits(octet(a, 3));
    let s = ipv4_text(a);
    assert(s =~= d0 + seq!['.'] + d1 + seq!['.'] + d2 + seq!['.'] + d3);
    let p1 = d0.len() as int;
    let p2 = p1 + 1 + d1.len();
    let p3 = p2 + 1 + d2.len();
    assert forall|j: int| 0 <= j < s.len() implies #[trigger] s[j] != '/' by {
        if j < p1 {
            assert(s[j] == d0[j]);
            assert(is_digit(d0[j]));
        } else if j == p1 || j == p2 || j == p3 {
        } else if j < p2 {
            assert(s[j] == d1[j - p1 - 1]);
            assert(is_digit(d1[j - p1 - 1]));
        } else if j < p3 {
            assert(s[j] == d2[j - p2 - 1]);
            assert(is_digit(d2[j - p2 - 1]));
        } else {
            assert(s[j] == d3[j - p3 - 1]);
            assert(is_digit(d3[j - p3 - 1]));
        }
    }
}

/// Reading an address's dotted text gives the address back.
pub proof fn law_ipv4_text_round_trip(a: u32)
    ensures
        ipv4_addr_parse(ipv4_text(a)) == Some(a),
{
    reveal_strlit(".");
    assert(pow256(0) == 1);
    assert(pow256(1) == 256);
    assert(pow256(2) == 65536);
    assert(pow256(3) == 16777216);
    let o0 = octet(a, 0);
    let o1 = octet(a, 1);
    let o2 = octet(a, 2);
    let o3 = octet(a, 3);
    assert(o0 == ((a as nat) / 16777216) % 256);
    assert((a as nat) / 1 == a as nat);
    assert(o3 == (a as nat) % 256);
    lemma_octet_text(o0);
    lemma_octet_text(o1);
    lemma_octet_text(o2);
    lemma_octet_text(o3);
    let d0 = decimal(o0);
    let d1 = decimal(o1);
    let d2 = decimal(o2);
    let d3 = decimal(o3);
    let s = ipv4_text(a);
    let p1 = d0.len() as int;
    let p2 = p1 + 1 + d1.len();
    let p3 = p2 + 1 + d2.len();
    assert(s =~= d0 + seq!['.'] + d1 + seq!['.'] + d2 + seq!['.'] + d3);
    assert(s.len() == p3 + 1 + d3.len());
    assert(s[p1] == '.' && s[p2] == '.' && s[p3] == '.');
    assert forall|j: int| 0 <= j < p1 implies s[j] != '.' by {
        assert(s[j] == d0[j]);
    }
    assert forall|j: int| p1 + 1 <= j < p2 implies s[j] != '.' by {
        assert(s[j] == d1[j - p1 - 1]);
    }
    assert forall|j: int| p2 + 1 <= j < p3 implies s[j] != '.' by {
        assert(s[j] == d2[j - p2 - 1]);
    }
    assert forall|j: int| p3 + 1 <= j < s.len() implies s[j] != '.' by {
        assert(s[j] == d3[j - p3 - 1]);
    }
    lemma_find_from_is(s, '.', 0, p1);
    lemma_find_from_is(s, '.', p1 + 1, p2);
    lemma_find_from_is(s, '.', p2 + 1, p3);
    lemma_find_from_is(s, '.', p3 + 1, s.len() as int);
    assert(s.subrange(0, p1) =~= d0);
    assert(s.subrange(p1 + 1, p2) =~= d1);
    assert(s.subrange(p2 + 1, p3) =~= d2);
    assert(s.subrange(p3 + 1, s.len() as int) =~= d3);
    assert(a == ((a as nat) / 16777216) % 256 * 16777216 + ((a as nat) / 65536) % 256 * 65536
        + ((a as nat) / 256) % 256 * 256 + (a as nat) % 256) by (nonlinear_arith);
}

/// What `ipnetwork::Ipv4Network`'s `FromStr` reads from a text: the
/// address and prefix length, or `None` when the text is not accepted.
pub uninterp spec fn ipv4_network_parse(s: Seq<char>) -> Option<(u32, u8)>;

/// Reads CIDR text (`a.b.c.d/len`, `a.b.c.d/netmask`, or a bare address
/// taken as `/32`) with `ipnetwork::Ipv4Network::from_str`.  Its result is
/// the named `ipv4_network_parse` of the text; the crate rejects prefix
/// lengths above 32.
#[verifier::external_body]
pub(crate) fn parse_ipv4_net(s: &str) -> (r: Option<Ipv4Net>)
    ensures
        match r {
            Some(n) => ipv4_network_parse(s@) == Some((n.addr, n.prefix)) && n.prefix <= 32,
            None => ipv4_network_parse(s@) is None,
        },
{
    match s.parse::<ipnetwork::Ipv4Network>() {
        Ok(n) => Some(Ipv4Net { addr: u32::from(n.ip()), prefix: n.prefix() }),
        Err(_) => None,
    }
}

} // verus!
