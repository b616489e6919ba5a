//! Router configurations for export: each router's Cisco IOS-style
//! startup configuration (interfaces, OSPF, BGP, route-maps from the
//! network's policies), and the numbering of its interfaces as ports.

use vstd::prelude::*;

use crate::ipv4::{ipv4_text, mask_of, network_of, push_ipv4, Ipv4Net};
use crate::models::{
    lookup, table_view, AreaView, BgpNeighbor, InterfaceView, LinkView, NeighborView, PolicyAction,
    PolicySetAction, PolicyView, Router, RouterView, SetActionView, TermView, Topology,
    TopologyView,
};
use crate::table::get_key;
use crate::text::{decimal, push_decimal, push_str, starts_with, str_chars};

verus! {

// ── Masks ──

/// The netmask of a prefix length, dotted (`0.0.0.0` for length 0).
pub fn prefix_to_mask(prefix_len: u8) -> (r: String)
    requires
        prefix_len <= 32,
    ensures
        r@ == ipv4_text(mask_of(prefix_len)),
{
    let mut out = String::new();
    let m = Ipv4Net { addr: 0, prefix: prefix_len }.mask();
    push_ipv4(&mut out, m);
    proof {
        assert(Seq::<char>::empty() + ipv4_text(mask_of(prefix_len)) =~= ipv4_text(mask_of(prefix_len)));
    }
    out
}

/// The wildcard (inverse) mask of a prefix length.
pub open spec fn wildcard_of(prefix_len: u8) -> u32 {
    (0xffff_ffff - mask_of(prefix_len)) as u32
}

/// The wildcard (inverse) mask of a prefix length, dotted.
pub fn wildcard_mask(prefix_len: u8) -> (r: String)
    requires
        1 <= prefix_len <= 32,
    ensures
        r@ == ipv4_text(wildcard_of(prefix_len)),
{
    let mut out = String::new();
    let m = Ipv4Net { addr: 0, prefix: prefix_len }.mask();
    push_ipv4(&mut out, 0xffff_ffff - m);
    proof {
        assert(Seq::<char>::empty() + ipv4_text(wildcard_of(prefix_len)) =~= ipv4_text(
            wildcard_of(prefix_len),
        ));
    }
    out
}

// ── Interface order ──

/// Text order: by characters, a proper prefix first.
pub open spec fn text_lt(a: Seq<char>, b: Seq<char>) -> bool
    decreases a.len(),
{
    if a.len() == 0 {
        b.len() > 0
    } else if b.len() == 0 {
        false
    } else if a[0] != b[0] {
        (a[0] as u32) < (b[0] as u32)
    } else {
        text_lt(a.drop_first(), b.drop_first())
    }
}

fn text_lt_exec(a: &Vec<char>, b: &Vec<char>) -> (r: bool)
    ensures
        r == text_lt(a@, b@),
{
    let mut i: usize = 0;
    proof {
        assert(a@.skip(0) =~= a@);
        assert(b@.skip(0) =~= b@);
    }
    while i < a.len() && i < b.len()
        invariant
            i <= a@.len(),
            i <= b@.len(),
            a@.subrange(0, i as int) == b@.subrange(0, i as int),
            text_lt(a@, b@) == text_lt(a@.skip(i as int), b@.skip(i as int)),
        decreases a@.len() - i,
    {
        if a[i] != b[i] {
            proof {
                assert(a@.skip(i as int)[0] == a@[i as int]);
                assert(b@.skip(i as int)[0] == b@[i as int]);
            }
            return (a[i] as u32) < (b[i] as u32);
        }
        proof {
            assert(a@.skip(i as int).drop_first() =~= a@.skip(i + 1));
            assert(b@.skip(i as int).drop_first() =~= b@.skip(i + 1));
            assert(a@.subrange(0, i + 1) =~= a@.subrange(0, i as int).push(a@[i as int]));
            assert(b@.subrange(0, i + 1) =~= b@.subrange(0, i as int).push(b@[i as int]));
        }
        i += 1;
    }
    i < b.len()
}

/// `s` with `x` placed after its last entry whose key is not above `x`'s
/// (entries of equal key keep their order).
pub open spec fn insert_in_order(s: Seq<(Seq<char>, InterfaceView)>, x: (Seq<char>, InterfaceView)) -> Seq<
    (Seq<char>, InterfaceView),
>
    decreases s.len(),
{
    if s.len() == 0 {
        seq![x]
    } else if text_lt(x.0, s.last().0) {
        insert_in_order(s.drop_last(), x).push(s.last())
    } else {
        s.push(x)
    }
}

/// The first `k` interfaces in key order (a stable sort).
pub open spec fn sorted_ifaces(s: Seq<(Seq<char>, InterfaceView)>, k: int) -> Seq<
    (Seq<char>, InterfaceView),
>
    decreases k,
{
    if k <= 0 {
        Seq::empty()
    } else {
        insert_in_order(sorted_ifaces(s, k - 1), s[k - 1])
    }
}

/// A router's interfaces in key order, each key numbered as its port.
pub open spec fn ordered_interfaces(r: RouterView) -> Seq<(Seq<char>, InterfaceView)> {
    sorted_ifaces(r.interfaces, r.interfaces.len() as int)
}

pub open spec fn order_view(ifaces: Seq<(Seq<char>, InterfaceView)>, order: Seq<usize>) -> Seq<
    (Seq<char>, InterfaceView),
> {
    order.map_values(|i: usize| ifaces[i as int])
}

proof fn lemma_insert_in_order_len(s: Seq<(Seq<char>, InterfaceView)>, x: (Seq<char>, InterfaceView))
    ensures
        insert_in_order(s, x).len() == s.len() + 1,
    decreases s.len(),
{
    if s.len() > 0 && text_lt(x.0, s.last().0) {
        lemma_insert_in_order_len(s.drop_last(), x);
    }
}

/// Ordering a router's interfaces keeps their number.
pub proof fn lemma_ordered_len(r: RouterView)
    ensures
        ordered_interfaces(r).len() == r.interfaces.len(),
{
    lemma_sorted_len(r.interfaces, r.interfaces.len() as int);
}

proof fn lemma_sorted_len(s: Seq<(Seq<char>, InterfaceView)>, k: int)
    requires
        0 <= k,
    ensures
        sorted_ifaces(s, k).len() == k,
    decreases k,
{
    if k > 0 {
        lemma_sorted_len(s, k - 1);
        lemma_insert_in_order_len(sorted_ifaces(s, k - 1), s[k - 1]);
    }
}

/// The indices of a router's interfaces in key order.
pub fn interface_order(router: &Router) -> (order: Vec<usize>)
    ensures
        order@.len() == router@.interfaces.len(),
        forall|j: int| 0 <= j < order@.len() ==> order@[j] < router@.interfaces.len(),
        order_view(router@.interfaces, order@) == ordered_interfaces(router@),
{
    let ghost iv = router@.interfaces;
    let mut keys: Vec<Vec<char>> = Vec::new();
    let mut k: usize = 0;
    while k < router.interfaces.len()
        invariant
            iv == router@.interfaces,
            k <= iv.len(),
            keys@.len() == k,
            forall|j: int| 0 <= j < k ==> (#[trigger] keys@[j])@ == iv[j].0,
        decreases iv.len() - k,
    {
        keys.push(str_chars(router.interfaces[k].0.as_str()));
        k += 1;
    }
    let mut order: Vec<usize> = Vec::new();
    let mut k: usize = 0;
    while k < router.interfaces.len()
        invariant
            iv == router@.interfaces,
            keys@.len() == iv.len(),
            forall|j: int| 0 <= j < iv.len() ==> (#[trigger] keys@[j])@ == iv[j].0,
            k <= iv.len(),
            order@.len() == k,
            forall|j: int| 0 <= j < order@.len() ==> order@[j] < k,
            order_view(iv, order@) == sorted_ifaces(iv, k as int),
        decreases iv.len() - k,
    {
        let ghost before = order@;
        let mut pos: usize = order.len();
        proof {
            assert(before.take(before.len() as int) =~= before);
            assert(order_view(iv, before.skip(before.len() as int)) =~= Seq::empty());
            assert(insert_in_order(order_view(iv, before), iv[k as int]) + Seq::empty() =~= insert_in_order(
                order_view(iv, before),
                iv[k as int],
            ));
        }
        while pos > 0 && text_lt_exec(&keys[k], &keys[order[pos - 1]])
            invariant
                iv == router@.interfaces,
                keys@.len() == iv.len(),
                forall|j: int| 0 <= j < iv.len() ==> (#[trigger] keys@[j])@ == iv[j].0,
                k < iv.len(),
                order@ == before,
                forall|j: int| 0 <= j < order@.len() ==> order@[j] < k,
                pos <= order@.len(),
                insert_in_order(order_view(iv, before), iv[k as int]) == insert_in_order(
                    order_view(iv, before.take(pos as int)),
                    iv[k as int],
                ) + order_view(iv, before.skip(pos as int)),
            decreases pos,
        {
            proof {
                let pre = order_view(iv, before.take(pos as int));
                assert(pre.last() == iv[before[pos - 1] as int]);
                assert(pre.drop_last() =~= order_view(iv, before.take(pos - 1)));
                assert(order_view(iv, before.skip(pos - 1)) =~= seq![pre.last()] + order_view(
                    iv,
                    before.skip(pos as int),
                ));
                assert(insert_in_order(pre, iv[k as int]) == insert_in_order(
                    pre.drop_last(),
                    iv[k as int],
                ).push(pre.last()));
                assert(insert_in_order(pre.drop_last(), iv[k as int]).push(pre.last()) + order_view(
                    iv,
                    before.skip(pos as int),
                ) =~= insert_in_order(pre.drop_last(), iv[k as int]) + order_view(
                    iv,
                    before.skip(pos - 1),
                ));
            }
            pos -= 1;
        }
        proof {
            let pre = order_view(iv, before.take(pos as int));
            if pos > 0 {
                assert(pre.last() == iv[before[pos - 1] as int]);
            }
            assert(insert_in_order(pre, iv[k as int]) =~= pre.push(iv[k as int]));
        }
        order.insert(pos, k);
        proof {
            assert(order_view(iv, order@) =~= order_view(iv, before.take(pos as int)).push(
                iv[k as int],
            ) + order_view(iv, before.skip(pos as int)));
            assert(before.take(before.len() as int) =~= before);
            assert(sorted_ifaces(iv, k + 1) == insert_in_order(sorted_ifaces(iv, k as int), iv[k as int]));
        }
        k += 1;
    }
    order
}


// ── Configuration text ──

/// The first lines of an interface's block: its number, address and mask.
pub open spec fn iface_head(idx: int, i: InterfaceView) -> Seq<char> {
    "interface Ethernet"@ + decimal(idx as nat) + "\n ip address "@ + ipv4_text(i.ip_address.addr)
        + " "@ + ipv4_text(mask_of(i.ip_address.prefix)) + "\n"@
}

/// The bandwidth line of an interface: its link's bandwidth in kbit/s,
/// when it has a known link.
pub open spec fn iface_bandwidth(i: InterfaceView, links: Seq<(Seq<char>, LinkView)>) -> Seq<char> {
    match i.link_id {
        Some(l) => match lookup(links, l) {
            Some(k) => " bandwidth "@ + decimal((k.bandwidth / 1000) as nat) + "\n"@,
            None => Seq::empty(),
        },
        None => Seq::empty(),
    }
}

/// The last lines of an interface's block: its shutdown state.
pub open spec fn iface_tail(i: InterfaceView) -> Seq<char> {
    if i.is_up {
        " no shutdown\n!\n"@
    } else {
        " shutdown\n!\n"@
    }
}

/// The block of the interface numbered `idx`.
pub open spec fn iface_block(idx: int, i: InterfaceView, links: Seq<(Seq<char>, LinkView)>) -> Seq<char> {
    iface_head(idx, i) + iface_bandwidth(i, links) + iface_tail(i)
}

pub open spec fn iface_blocks(
    ord: Seq<(Seq<char>, InterfaceView)>,
    links: Seq<(Seq<char>, LinkView)>,
    k: int,
) -> Seq<char>
    decreases k,
{
    if k <= 0 {
        Seq::empty()
    } else {
        iface_blocks(ord, links, k - 1) + iface_block(k - 1, ord[k - 1].1, links)
    }
}

/// An OSPF `network` statement for an interface in an area.
pub open spec fn network_line(i: InterfaceView, area_id: u32) -> Seq<char> {
    " network "@ + ipv4_text(network_of(i.ip_address)) + " "@ + ipv4_text(
        wildcard_of(i.ip_address.prefix),
    ) + " area "@ + decimal(area_id as nat) + "\n"@
}

/// The `network` statements of the first `k` interfaces of an area (those
/// the router has).
pub open spec fn area_lines(
    ifaces: Seq<(Seq<char>, InterfaceView)>,
    area_id: u32,
    ids: Seq<Seq<char>>,
    k: int,
) -> Seq<char>
    decreases k,
{
    if k <= 0 {
        Seq::empty()
    } else {
        area_lines(ifaces, area_id, ids, k - 1) + match lookup(ifaces, ids[k - 1]) {
            Some(i) => network_line(i, area_id),
            None => Seq::empty(),
        }
    }
}

pub open spec fn areas_lines(
    ifaces: Seq<(Seq<char>, InterfaceView)>,
    areas: Seq<(u32, AreaView)>,
    k: int,
) -> Seq<char>
    decreases k,
{
    if k <= 0 {
        Seq::empty()
    } else {
        areas_lines(ifaces, areas, k - 1) + area_lines(
            ifaces,
            areas[k - 1].0,
            areas[k - 1].1.interface_ids,
            areas[k - 1].1.interface_ids.len() as int,
        )
    }
}

/// The OSPF cost statements of the first `k` interfaces in order: one for
/// each whose cost is not 1.
pub open spec fn cost_lines(ord: Seq<(Seq<char>, InterfaceView)>, k: int) -> Seq<char>
    decreases k,
{
    if k <= 0 {
        Seq::empty()
    } else {
        cost_lines(ord, k - 1) + if ord[k - 1].1.cost != 1 {
            "interface Ethernet"@ + decimal((k - 1) as nat) + "\n ip ospf cost "@ + decimal(
                ord[k - 1].1.cost as nat,
            ) + "\n!\n"@
        } else {
            Seq::empty()
        }
    }
}

/// A router's OSPF section, when it runs OSPF.
pub open spec fn ospf_section(r: RouterView, ord: Seq<(Seq<char>, InterfaceView)>) -> Seq<char> {
    match r.ospf_process {
        Some(o) => "router ospf 1\n router-id "@ + ipv4_text(o.router_id) + "\n"@ + areas_lines(
            r.interfaces,
            o.areas,
            o.areas.len() as int,
        ) + cost_lines(ord, ord.len() as int) + "!\n"@,
        None => Seq::empty(),
    }
}

/// The statements of a BGP neighbor: its remote AS and its route-maps.
pub open spec fn neighbor_lines(n: NeighborView) -> Seq<char> {
    " neighbor "@ + ipv4_text(n.neighbor_ip) + " remote-as "@ + decimal(n.remote_asn as nat) + "\n"@
        + match n.import_policy {
        Some(p) => " neighbor "@ + ipv4_text(n.neighbor_ip) + " route-map "@ + p + " in\n"@,
        None => Seq::empty(),
    } + match n.export_policy {
        Some(p) => " neighbor "@ + ipv4_text(n.neighbor_ip) + " route-map "@ + p + " out\n"@,
        None => Seq::empty(),
    }
}

pub open spec fn neighbors_lines(ns: Seq<(Seq<char>, NeighborView)>, k: int) -> Seq<char>
    decreases k,
{
    if k <= 0 {
        Seq::empty()
    } else {
        neighbors_lines(ns, k - 1) + neighbor_lines(ns[k - 1].1)
    }
}

/// A router's BGP section, when it runs BGP.
pub open spec fn bgp_section(r: RouterView) -> Seq<char> {
    match r.bgp_process {
        Some(b) => "router bgp "@ + decimal(b.local_asn as nat) + "\n bgp router-id "@ + ipv4_text(
            b.router_id,
        ) + "\n"@ + neighbors_lines(b.neighbors, b.neighbors.len() as int) + "!\n"@,
        None => Seq::empty(),
    }
}

/// An AS number written `count` times, separated by spaces.
pub open spec fn repeated_asn(asn: u32, count: nat) -> Seq<char>
    decreases count,
{
    if count == 0 {
        Seq::empty()
    } else if count == 1 {
        decimal(asn as nat)
    } else {
        repeated_asn(asn, (count - 1) as nat) + " "@ + decimal(asn as nat)
    }
}

/// The route-map statement of a set action.
pub open spec fn action_line(a: SetActionView) -> Seq<char> {
    match a {
        SetActionView::SetLocalPref(v) => " set local-preference "@ + decimal(v as nat) + "\n"@,
        SetActionView::SetMed(v) => " set metric "@ + decimal(v as nat) + "\n"@,
        SetActionView::PrependAsPath { asn, count } => " set as-path prepend "@ + repeated_asn(
            asn,
            count as nat,
        ) + "\n"@,
        SetActionView::AddCommunity(c) => " set community "@ + c + " additive\n"@,
        SetActionView::RemoveCommunity(c) => " set comm-list "@ + c + " delete\n"@,
    }
}

pub open spec fn actions_lines(acts: Seq<SetActionView>, k: int) -> Seq<char>
    decreases k,
{
    if k <= 0 {
        Seq::empty()
    } else {
        actions_lines(acts, k - 1) + action_line(acts[k - 1])
    }
}

/// The route-map entry of the term numbered `j` (from 0): sequence
/// number `(j + 1) * 10`, `permit` for an accepting term and `deny` for a
/// rejecting one, then its set actions.
pub open spec fn term_lines(name: Seq<char>, j: int, t: TermView) -> Seq<char> {
    "route-map "@ + name + " "@ + if t.terminal_action == PolicyAction::Accept {
        "permit"@
    } else {
        "deny"@
    } + " "@ + decimal(((j + 1) * 10) as nat) + "\n"@ + actions_lines(
        t.actions,
        t.actions.len() as int,
    ) + "!\n"@
}

/// A term is exported as a route-map entry that permits what it accepts
/// and denies what it rejects: the entry begins `route-map <name> deny`
/// for a rejecting term and `route-map <name> permit` for an accepting
/// one, followed by its sequence number.
pub proof fn law_rejecting_term_denies(name: Seq<char>, j: int, t: TermView)
    ensures
        t.terminal_action == PolicyAction::Reject ==> starts_with(
            term_lines(name, j, t),
            "route-map "@ + name + " deny "@ + decimal(((j + 1) * 10) as nat),
        ),
        t.terminal_action == PolicyAction::Accept ==> starts_with(
            term_lines(name, j, t),
            "route-map "@ + name + " permit "@ + decimal(((j + 1) * 10) as nat),
        ),
{
    reveal_strlit("deny");
    reveal_strlit("permit");
    reveal_strlit(" deny ");
    reveal_strlit(" permit ");
    reveal_strlit(" ");
    let n = decimal(((j + 1) * 10) as nat);
    let rest = "\n"@ + actions_lines(t.actions, t.actions.len() as int) + "!\n"@;
    let w = if t.terminal_action == PolicyAction::Accept { "permit"@ } else { "deny"@ };
    let head = "route-map "@ + name + " "@ + w + " "@ + n;
    assert(term_lines(name, j, t) =~= head + rest);
    if t.terminal_action == PolicyAction::Reject {
        assert(head =~= "route-map "@ + name + " deny "@ + n);
    } else {
        assert(head =~= "route-map "@ + name + " permit "@ + n);
    }
    assert((head + rest).take(head.len() as int) =~= head);
}

pub open spec fn terms_lines(name: Seq<char>, terms: Seq<TermView>, k: int) -> Seq<char>
    decreases k,
{
    if k <= 0 {
        Seq::empty()
    } else {
        terms_lines(name, terms, k - 1) + term_lines(name, k - 1, terms[k - 1])
    }
}

pub open spec fn policies_lines(ps: Seq<(Seq<char>, PolicyView)>, k: int) -> Seq<char>
    decreases k,
{
    if k <= 0 {
        Seq::empty()
    } else {
        policies_lines(ps, k - 1) + "! Policy: "@ + ps[k - 1].0 + "\n"@ + terms_lines(
            ps[k - 1].0,
            ps[k - 1].1.terms,
            ps[k - 1].1.terms.len() as int,
        )
    }
}

/// A router's startup configuration: its hostname; a block per interface,
/// numbered in key order; its OSPF and BGP sections; a route-map per
/// policy of the network; and `end`.
pub open spec fn router_config(r: RouterView, t: TopologyView) -> Seq<char> {
    let ord = ordered_interfaces(r);
    "!\nhostname "@ + r.name + "\n!\n"@ + iface_blocks(ord, t.links, ord.len() as int)
        + ospf_section(r, ord) + bgp_section(r) + policies_lines(
        t.policies,
        t.policies.len() as int,
    ) + "end\n"@
}

/// Whether each interface of the given areas that the router has has a
/// prefix length from 1 to 32.
pub open spec fn area_prefixes_ok(ifaces: Seq<(Seq<char>, InterfaceView)>, areas: Seq<(u32, AreaView)>) -> bool {
    forall|a: int, j: int|
        0 <= a < areas.len() && 0 <= j < areas[a].1.interface_ids.len() ==> ((#[trigger] lookup(
            ifaces,
            areas[a].1.interface_ids[j],
        )) matches Some(i) ==> 1 <= i.ip_address.prefix && i.ip_address.prefix <= 32)
}

/// Whether a router's configuration can be written: every interface's
/// prefix length is at most 32 and, for those of its OSPF areas, at least
/// 1; and no policy has so many terms that a sequence number overflows.
pub open spec fn config_writable(r: RouterView, t: TopologyView) -> bool {
    &&& forall|i: int| 0 <= i < r.interfaces.len() ==> (#[trigger] r.interfaces[i]).1.ip_address.prefix <= 32
    &&& (r.ospf_process matches Some(o) ==> area_prefixes_ok(r.interfaces, o.areas))
    &&& forall|p: int| 0 <= p < t.policies.len() ==> (#[trigger] t.policies[p]).1.terms.len() * 10
        <= u64::MAX
}


/// Tests `config_writable`: whether `build_router_config` can be asked
/// for this router's configuration.
pub fn config_writable_check(router: &Router, topology: &Topology) -> (r: bool)
    ensures
        r == config_writable(router@, topology@),
{
    let ghost rv = router@;
    let mut i: usize = 0;
    while i < router.interfaces.len()
        invariant
            rv == router@,
            i <= router.interfaces@.len(),
            forall|j: int| 0 <= j < i ==> (#[trigger] rv.interfaces[j]).1.ip_address.prefix <= 32,
        decreases router.interfaces@.len() - i,
    {
        if router.interfaces[i].1.ip_address.prefix > 32 {
            proof {
                assert(rv.interfaces[i as int].1 == router.interfaces@[i as int].1@);
            }
            return false;
        }
        proof {
            assert(rv.interfaces[i as int].1 == router.interfaces@[i as int].1@);
        }
        i += 1;
    }
    match &router.ospf_process {
        Some(o) => {
            let ghost areas = o@.areas;
            let mut a: usize = 0;
            while a < o.areas.len()
                invariant
                    rv == router@,
                    router.ospf_process == Some(*o),
                    areas == o@.areas,
                    a <= o.areas@.len(),
                    forall|x: int, j: int|
                        0 <= x < a && 0 <= j < areas[x].1.interface_ids.len() ==> ((#[trigger] lookup(
                            rv.interfaces,
                            areas[x].1.interface_ids[j],
                        )) matches Some(f) ==> 1 <= f.ip_address.prefix && f.ip_address.prefix <= 32),
                decreases o.areas@.len() - a,
            {
                let ids = &o.areas[a].1.interface_ids;
                proof {
                    assert(areas[a as int].1.interface_ids == crate::models::strings_view(ids@));
                }
                let mut j: usize = 0;
                while j < ids.len()
                    invariant
                        rv == router@,
                        router.ospf_process == Some(*o),
                        areas == o@.areas,
                        a < areas.len(),
                        areas[a as int].1.interface_ids == crate::models::strings_view(ids@),
                        j <= ids@.len(),
                        forall|x: int, y: int|
                            0 <= x < a && 0 <= y < areas[x].1.interface_ids.len() ==> ((#[trigger] lookup(
                                rv.interfaces,
                                areas[x].1.interface_ids[y],
                            )) matches Some(f) ==> 1 <= f.ip_address.prefix && f.ip_address.prefix <= 32),
                        forall|y: int|
                            0 <= y < j ==> ((#[trigger] lookup(
                                rv.interfaces,
                                areas[a as int].1.interface_ids[y],
                            )) matches Some(f) ==> 1 <= f.ip_address.prefix && f.ip_address.prefix <= 32),
                    decreases ids@.len() - j,
                {
                    proof {
                        assert(areas[a as int].1.interface_ids[j as int] == ids@[j as int]@);
                    }
                    match get_key(&router.interfaces, &ids[j]) {
                        Some(f) => {
                            if f.ip_address.prefix < 1 || f.ip_address.prefix > 32 {
                                proof {
                                    let k = areas[a as int].1.interface_ids[j as int];
                                    assert(lookup(rv.interfaces, k) == Some(f@));
                                    assert(!area_prefixes_ok(rv.interfaces, areas));
                                }
                                return false;
                            }
                        },
                        None => {},
                    }
                    j += 1;
                }
                a += 1;
            }
        },
        None => {},
    }
    let mut p: usize = 0;
    while p < topology.policies.len()
        invariant
            rv == router@,
            (rv.ospf_process matches Some(o) ==> area_prefixes_ok(rv.interfaces, o.areas)),
            forall|j: int| 0 <= j < rv.interfaces.len() ==> (#[trigger] rv.interfaces[j]).1.ip_address.prefix <= 32,
            p <= topology.policies@.len(),
            forall|q: int| 0 <= q < p ==> (#[trigger] topology@.policies[q]).1.terms.len() * 10 <= u64::MAX,
        decreases topology.policies@.len() - p,
    {
        let n: usize = topology.policies[p].1.terms.len();
        proof {
            assert(topology@.policies[p as int].1.terms.len() == n);
        }
        if n as u128 > 1_844_674_407_370_955_161u128 {
            return false;
        }
        p += 1;
    }
    true
}

proof fn lemma_append(b: Seq<char>, a: Seq<char>, p: Seq<char>)
    ensures
        (b + a) + p == b + (a + p),
{
    vstd::seq_lib::lemma_concat_associative(b, a, p);
}

fn push_iface_block(out: &mut String, idx: usize, iface: &crate::models::Interface, links: &Vec<(String, crate::models::Link)>)
    requires
        iface@.ip_address.prefix <= 32,
    ensures
        final(out)@ == old(out)@ + iface_block(idx as int, iface@, table_view(links@)),
{
    let ghost b = out@;
    let ghost i = iface@;
    push_str(out, "interface Ethernet");
    push_decimal(out, idx as u64);
    proof {
        lemma_append(b, "interface Ethernet"@, decimal(idx as nat));
    }
    let ghost a1 = "interface Ethernet"@ + decimal(idx as nat);
    push_str(out, "\n ip address ");
    proof {
        lemma_append(b, a1, "\n ip address "@);
    }
    let ghost a2 = a1 + "\n ip address "@;
    push_ipv4(out, iface.ip_address.addr);
    proof {
        lemma_append(b, a2, ipv4_text(i.ip_address.addr));
    }
    let ghost a3 = a2 + ipv4_text(i.ip_address.addr);
    push_str(out, " ");
    proof {
        lemma_append(b, a3, " "@);
    }
    let ghost a4 = a3 + " "@;
    let mask = prefix_to_mask(iface.ip_address.prefix);
    push_str(out, mask.as_str());
    proof {
        lemma_append(b, a4, ipv4_text(mask_of(i.ip_address.prefix)));
    }
    let ghost a5 = a4 + ipv4_text(mask_of(i.ip_address.prefix));
    push_str(out, "\n");
    proof {
        lemma_append(b, a5, "\n"@);
        assert(a5 + "\n"@ == iface_head(idx as int, i));
    }
    let ghost h = iface_head(idx as int, i);
    let ghost lv = table_view(links@);
    match &iface.link_id {
        Some(l) => {
            match get_key(links, l) {
                Some(link) => {
                    push_str(out, " bandwidth ");
                    push_decimal(out, link.bandwidth / 1000);
                    proof {
                        lemma_append(b + h, " bandwidth "@, decimal((link.bandwidth / 1000) as nat));
                    }
                    push_str(out, "\n");
                    proof {
                        lemma_append(
                            b + h,
                            " bandwidth "@ + decimal((link.bandwidth / 1000) as nat),
                            "\n"@,
                        );
                        lemma_append(b, h, iface_bandwidth(i, lv));
                    }
                },
                None => {
                    proof {
                        assert(h + iface_bandwidth(i, lv) =~= h);
                    }
                },
            }
        },
        None => {
            proof {
                assert(h + iface_bandwidth(i, lv) =~= h);
            }
        },
    }
    let ghost hb = h + iface_bandwidth(i, lv);
    if iface.is_up {
        push_str(out, " no shutdown\n!\n");
    } else {
        push_str(out, " shutdown\n!\n");
    }
    proof {
        lemma_append(b, hb, iface_tail(i));
    }
}

fn push_iface_blocks(out: &mut String, router: &Router, order: &Vec<usize>, links: &Vec<(String, crate::models::Link)>)
    requires
        order@.len() == router@.interfaces.len(),
        forall|j: int| 0 <= j < order@.len() ==> order@[j] < router@.interfaces.len(),
        order_view(router@.interfaces, order@) == ordered_interfaces(router@),
        forall|i: int| 0 <= i < router@.interfaces.len() ==> (#[trigger] router@.interfaces[i]).1.ip_address.prefix <= 32,
    ensures
        final(out)@ == old(out)@ + iface_blocks(
            ordered_interfaces(router@),
            table_view(links@),
            router@.interfaces.len() as int,
        ),
{
    let ghost ord = ordered_interfaces(router@);
    let ghost lv = table_view(links@);
    let ghost start = out@;
    proof {
        assert(start + iface_blocks(ord, lv, 0) =~= start);
    }
    let mut k: usize = 0;
    while k < order.len()
        invariant
            order@.len() == router@.interfaces.len(),
            forall|j: int| 0 <= j < order@.len() ==> order@[j] < router@.interfaces.len(),
            order_view(router@.interfaces, order@) == ord,
            forall|i: int| 0 <= i < router@.interfaces.len() ==> (#[trigger] router@.interfaces[i]).1.ip_address.prefix <= 32,
            lv == table_view(links@),
            k <= order@.len(),
            out@ == start + iface_blocks(ord, lv, k as int),
        decreases order@.len() - k,
    {
        let iface = &router.interfaces[order[k]].1;
        proof {
            assert(ord[k as int] == router@.interfaces[order@[k as int] as int]);
            assert(router@.interfaces[order@[k as int] as int].1.ip_address.prefix <= 32);
        }
        let ghost before = out@;
        push_iface_block(out, k, iface, links);
        proof {
            assert(out@ =~= start + iface_blocks(ord, lv, k + 1));
        }
        k += 1;
    }
}


fn push_network_line(out: &mut String, iface: &crate::models::Interface, area_id: u32)
    requires
        1 <= iface@.ip_address.prefix <= 32,
    ensures
        final(out)@ == old(out)@ + network_line(iface@, area_id),
{
    let ghost b = out@;
    let ghost i = iface@;
    push_str(out, " network ");
    push_ipv4(out, iface.ip_address.network());
    proof {
        lemma_append(b, " network "@, ipv4_text(network_of(i.ip_address)));
    }
    let ghost a1 = " network "@ + ipv4_text(network_of(i.ip_address));
    push_str(out, " ");
    proof {
        lemma_append(b, a1, " "@);
    }
    let ghost a2 = a1 + " "@;
    let w = wildcard_mask(iface.ip_address.prefix);
    push_str(out, w.as_str());
    proof {
        lemma_append(b, a2, ipv4_text(wildcard_of(i.ip_address.prefix)));
    }
    let ghost a3 = a2 + ipv4_text(wildcard_of(i.ip_address.prefix));
    push_str(out, " area ");
    proof {
        lemma_append(b, a3, " area "@);
    }
    let ghost a4 = a3 + " area "@;
    push_decimal(out, area_id as u64);
    proof {
        lemma_append(b, a4, decimal(area_id as nat));
    }
    let ghost a5 = a4 + decimal(area_id as nat);
    push_str(out, "\n");
    proof {
        lemma_append(b, a5, "\n"@);
    }
}

fn push_cost_line(out: &mut String, idx: usize, cost: u32)
    ensures
        final(out)@ == old(out)@ + ("interface Ethernet"@ + decimal(idx as nat) + "\n ip ospf cost "@
            + decimal(cost as nat) + "\n!\n"@),
{
    let ghost b = out@;
    push_str(out, "interface Ethernet");
    push_decimal(out, idx as u64);
    proof {
        lemma_append(b, "interface Ethernet"@, decimal(idx as nat));
    }
    let ghost a1 = "interface Ethernet"@ + decimal(idx as nat);
    push_str(out, "\n ip ospf cost ");
    proof {
        lemma_append(b, a1, "\n ip ospf cost "@);
    }
    let ghost a2 = a1 + "\n ip ospf cost "@;
    push_decimal(out, cost as u64);
    proof {
        lemma_append(b, a2, decimal(cost as nat));
    }
    let ghost a3 = a2 + decimal(cost as nat);
    push_str(out, "\n!\n");
    proof {
        lemma_append(b, a3, "\n!\n"@);
    }
}

fn push_ospf_section(out: &mut String, router: &Router, order: &Vec<usize>)
    requires
        order@.len() == router@.interfaces.len(),
        forall|j: int| 0 <= j < order@.len() ==> order@[j] < router@.interfaces.len(),
        order_view(router@.interfaces, order@) == ordered_interfaces(router@),
        router@.ospf_process matches Some(o) ==> area_prefixes_ok(router@.interfaces, o.areas),
    ensures
        final(out)@ == old(out)@ + ospf_section(router@, ordered_interfaces(router@)),
{
    let ghost b = out@;
    let ghost ord = ordered_interfaces(router@);
    let ghost iv = router@.interfaces;
    match &router.ospf_process {
        Some(o) => {
            let ghost ov = o@;
            push_str(out, "router ospf 1\n router-id ");
            push_ipv4(out, o.router_id);
            proof {
                lemma_append(b, "router ospf 1\n router-id "@, ipv4_text(ov.router_id));
            }
            push_str(out, "\n");
            proof {
                lemma_append(b, "router ospf 1\n router-id "@ + ipv4_text(ov.router_id), "\n"@);
            }
            let ghost h = "router ospf 1\n router-id "@ + ipv4_text(ov.router_id) + "\n"@;
            let ghost s1 = b + h;
            proof {
                assert(s1 + areas_lines(iv, ov.areas, 0) =~= s1);
                assert(router@.ospf_process == Some(ov));
            }
            let mut a: usize = 0;
            while a < o.areas.len()
                invariant
                    router@.ospf_process == Some(ov),
                    ov == o@,
                    ov.areas.len() == o.areas@.len(),
                    iv == router@.interfaces,
                    area_prefixes_ok(iv, ov.areas),
                    a <= ov.areas.len(),
                    out@ == s1 + areas_lines(iv, ov.areas, a as int),
                decreases ov.areas.len() - a,
            {
                let area_id = o.areas[a].0;
                let ids = &o.areas[a].1.interface_ids;
                let ghost idv = ov.areas[a as int].1.interface_ids;
                proof {
                    assert(idv == crate::models::strings_view(ids@));
                }
                let ghost s2 = out@;
                proof {
                    assert(s2 + area_lines(iv, area_id, idv, 0) =~= s2);
                }
                let mut j: usize = 0;
                while j < ids.len()
                    invariant
                        iv == router@.interfaces,
                        idv == crate::models::strings_view(ids@),
                        a < ov.areas.len(),
                        idv == ov.areas[a as int].1.interface_ids,
                        area_prefixes_ok(iv, ov.areas),
                        j <= ids@.len(),
                        out@ == s2 + area_lines(iv, area_id, idv, j as int),
                    decreases ids@.len() - j,
                {
                    let ghost s3 = out@;
                    proof {
                        assert(idv[j as int] == ids@[j as int]@);
                    }
                    match get_key(&router.interfaces, &ids[j]) {
                        Some(iface) => {
                            proof {
                                assert(lookup(iv, ov.areas[a as int].1.interface_ids[j as int]) == Some(iface@));
                            }
                            push_network_line(out, iface, area_id);
                            proof {
                                lemma_append(s2, area_lines(iv, area_id, idv, j as int), network_line(iface@, area_id));
                            }
                        },
                        None => {
                            proof {
                                assert(area_lines(iv, area_id, idv, j + 1) =~= area_lines(iv, area_id, idv, j as int));
                            }
                        },
                    }
                    j += 1;
                }
                proof {
                    lemma_append(s1, areas_lines(iv, ov.areas, a as int), area_lines(iv, area_id, idv, idv.len() as int));
                }
                a += 1;
            }
            let ghost s4 = out@;
            proof {
                assert(s4 + cost_lines(ord, 0) =~= s4);
            }
            let mut k: usize = 0;
            while k < order.len()
                invariant
                    order@.len() == router@.interfaces.len(),
                    forall|j: int| 0 <= j < order@.len() ==> order@[j] < router@.interfaces.len(),
                    order_view(router@.interfaces, order@) == ord,
                    k <= order@.len(),
                    out@ == s4 + cost_lines(ord, k as int),
                decreases order@.len() - k,
            {
                let iface = &router.interfaces[order[k]].1;
                proof {
                    assert(ord[k as int] == router@.interfaces[order@[k as int] as int]);
                    assert(ord[k as int].1 == iface@);
                }
                if iface.cost != 1 {
                    push_cost_line(out, k, iface.cost);
                    proof {
                        lemma_append(
                            s4,
                            cost_lines(ord, k as int),
                            "interface Ethernet"@ + decimal(k as nat) + "\n ip ospf cost "@ + decimal(
                                iface.cost as nat,
                            ) + "\n!\n"@,
                        );
                    }
                } else {
                    proof {
                        assert(cost_lines(ord, k + 1) =~= cost_lines(ord, k as int));
                    }
                }
                k += 1;
            }
            push_str(out, "!\n");
            proof {
                assert(ord.len() == router@.interfaces.len());
                lemma_append(b, h, areas_lines(iv, ov.areas, ov.areas.len() as int));
                let h2 = h + areas_lines(iv, ov.areas, ov.areas.len() as int);
                lemma_append(b, h2, cost_lines(ord, ord.len() as int));
                let h3 = h2 + cost_lines(ord, ord.len() as int);
                lemma_append(b, h3, "!\n"@);
            }
        },
        None => {
            proof {
                assert(b + ospf_section(router@, ord) =~= b);
            }
        },
    }
}


fn push_route_map_ref(out: &mut String, ip: u32, name: &String, dir: &str)
    ensures
        final(out)@ == old(out)@ + (" neighbor "@ + ipv4_text(ip) + " route-map "@ + name@ + dir@),
{
    let ghost b = out@;
    push_str(out, " neighbor ");
    push_ipv4(out, ip);
    proof {
        lemma_append(b, " neighbor "@, ipv4_text(ip));
    }
    let ghost a1 = " neighbor "@ + ipv4_text(ip);
    push_str(out, " route-map ");
    proof {
        lemma_append(b, a1, " route-map "@);
    }
    let ghost a2 = a1 + " route-map "@;
    push_str(out, name.as_str());
    proof {
        lemma_append(b, a2, name@);
    }
    let ghost a3 = a2 + name@;
    push_str(out, dir);
    proof {
        lemma_append(b, a3, dir@);
    }
}

fn push_neighbor_lines(out: &mut String, n: &crate::models::BgpNeighbor)
    ensures
        final(out)@ == old(out)@ + neighbor_lines(n@),
{
    let ghost b = out@;
    push_str(out, " neighbor ");
    push_ipv4(out, n.neighbor_ip);
    proof {
        lemma_append(b, " neighbor "@, ipv4_text(n.neighbor_ip));
    }
    let ghost a1 = " neighbor "@ + ipv4_text(n.neighbor_ip);
    push_str(out, " remote-as ");
    proof {
        lemma_append(b, a1, " remote-as "@);
    }
    let ghost a2 = a1 + " remote-as "@;
    push_decimal(out, n.remote_asn as u64);
    proof {
        lemma_append(b, a2, decimal(n.remote_asn as nat));
    }
    let ghost a3 = a2 + decimal(n.remote_asn as nat);
    push_str(out, "\n");
    proof {
        lemma_append(b, a3, "\n"@);
    }
    let ghost a4 = a3 + "\n"@;
    let ghost imp = match n@.import_policy {
        Some(p) => " neighbor "@ + ipv4_text(n.neighbor_ip) + " route-map "@ + p + " in\n"@,
        None => Seq::<char>::empty(),
    };
    match &n.import_policy {
        Some(p) => {
            push_route_map_ref(out, n.neighbor_ip, p, " in\n");
        },
        None => {},
    }
    proof {
        if n@.import_policy is None {
            assert(b + a4 + imp =~= b + a4);
        }
        lemma_append(b, a4, imp);
    }
    let ghost a5 = a4 + imp;
    let ghost exp = match n@.export_policy {
        Some(p) => " neighbor "@ + ipv4_text(n.neighbor_ip) + " route-map "@ + p + " out\n"@,
        None => Seq::<char>::empty(),
    };
    match &n.export_policy {
        Some(p) => {
            push_route_map_ref(out, n.neighbor_ip, p, " out\n");
        },
        None => {},
    }
    proof {
        if n@.export_policy is None {
            assert(b + a5 + exp =~= b + a5);
        }
        lemma_append(b, a5, exp);
    }
}

fn push_bgp_section(out: &mut String, router: &Router)
    ensures
        final(out)@ == old(out)@ + bgp_section(router@),
{
    let ghost b = out@;
    match &router.bgp_process {
        Some(bgp) => {
            let ghost bv = bgp@;
            push_str(out, "router bgp ");
            push_decimal(out, bgp.local_asn as u64);
            proof {
                lemma_append(b, "router bgp "@, decimal(bgp.local_asn as nat));
            }
            let ghost a1 = "router bgp "@ + decimal(bgp.local_asn as nat);
            push_str(out, "\n bgp router-id ");
            proof {
                lemma_append(b, a1, "\n bgp router-id "@);
            }
            let ghost a2 = a1 + "\n bgp router-id "@;
            push_ipv4(out, bgp.router_id);
            proof {
                lemma_append(b, a2, ipv4_text(bgp.router_id));
            }
            let ghost a3 = a2 + ipv4_text(bgp.router_id);
            push_str(out, "\n");
            proof {
                lemma_append(b, a3, "\n"@);
            }
            let ghost h = a3 + "\n"@;
            let ghost s1 = b + h;
            proof {
                assert(s1 + neighbors_lines(bv.neighbors, 0) =~= s1);
            }
            let mut k: usize = 0;
            while k < bgp.neighbors.len()
                invariant
                    bv == bgp@,
                    bv.neighbors.len() == bgp.neighbors@.len(),
                    k <= bgp.neighbors@.len(),
                    out@ == s1 + neighbors_lines(bv.neighbors, k as int),
                decreases bgp.neighbors@.len() - k,
            {
                proof {
                    assert(bv.neighbors[k as int].1 == bgp.neighbors@[k as int].1@);
                }
                push_neighbor_lines(out, &bgp.neighbors[k].1);
                proof {
                    lemma_append(s1, neighbors_lines(bv.neighbors, k as int), neighbor_lines(bv.neighbors[k as int].1));
                }
                k += 1;
            }
            push_str(out, "!\n");
            proof {
                lemma_append(b, h, neighbors_lines(bv.neighbors, bv.neighbors.len() as int));
                lemma_append(b, h + neighbors_lines(bv.neighbors, bv.neighbors.len() as int), "!\n"@);
            }
        },
        None => {
            proof {
                assert(b + bgp_section(router@) =~= b);
            }
        },
    }
}

fn push_repeated_asn(out: &mut String, asn: u32, count: u32)
    ensures
        final(out)@ == old(out)@ + repeated_asn(asn, count as nat),
{
    let ghost b = out@;
    if count == 0 {
        proof {
            assert(b + repeated_asn(asn, 0) =~= b);
        }
        return ;
    }
    push_decimal(out, asn as u64);
    let mut i: u32 = 1;
    while i < count
        invariant
            1 <= i <= count,
            out@ == b + repeated_asn(asn, i as nat),
        decreases count - i,
    {
        push_str(out, " ");
        proof {
            lemma_append(b, repeated_asn(asn, i as nat), " "@);
        }
        push_decimal(out, asn as u64);
        proof {
            lemma_append(b, repeated_asn(asn, i as nat) + " "@, decimal(asn as nat));
        }
        i += 1;
    }
}

fn push_action_line(out: &mut String, a: &PolicySetAction)
    ensures
        final(out)@ == old(out)@ + action_line(a@),
{
    let ghost b = out@;
    match a {
        PolicySetAction::SetLocalPref(v) => {
            push_str(out, " set local-preference ");
            push_decimal(out, *v as u64);
            proof {
                lemma_append(b, " set local-preference "@, decimal(*v as nat));
            }
            push_str(out, "\n");
            proof {
                lemma_append(b, " set local-preference "@ + decimal(*v as nat), "\n"@);
            }
        },
        PolicySetAction::SetMed(v) => {
            push_str(out, " set metric ");
            push_decimal(out, *v as u64);
            proof {
                lemma_append(b, " set metric "@, decimal(*v as nat));
            }
            push_str(out, "\n");
            proof {
                lemma_append(b, " set metric "@ + decimal(*v as nat), "\n"@);
            }
        },
        PolicySetAction::PrependAsPath { asn, count } => {
            push_str(out, " set as-path prepend ");
            push_repeated_asn(out, *asn, *count);
            proof {
                lemma_append(b, " set as-path prepend "@, repeated_asn(*asn, *count as nat));
            }
            push_str(out, "\n");
            proof {
                lemma_append(b, " set as-path prepend "@ + repeated_asn(*asn, *count as nat), "\n"@);
            }
        },
        PolicySetAction::AddCommunity(c) => {
            push_str(out, " set community ");
            push_str(out, c.as_str());
            proof {
                lemma_append(b, " set community "@, c@);
            }
            push_str(out, " additive\n");
            proof {
                lemma_append(b, " set community "@ + c@, " additive\n"@);
            }
        },
        PolicySetAction::RemoveCommunity(c) => {
            push_str(out, " set comm-list ");
            push_str(out, c.as_str());
            proof {
                lemma_append(b, " set comm-list "@, c@);
            }
            push_str(out, " delete\n");
            proof {
                lemma_append(b, " set comm-list "@ + c@, " delete\n"@);
            }
        },
    }
}

fn push_term_lines(out: &mut String, name: &String, j: usize, t: &crate::models::PolicyTerm)
    requires
        (j + 1) * 10 <= u64::MAX,
    ensures
        final(out)@ == old(out)@ + term_lines(name@, j as int, t@),
{
    let ghost b = out@;
    let ghost tv = t@;
    push_str(out, "route-map ");
    push_str(out, name.as_str());
    proof {
        lemma_append(b, "route-map "@, name@);
    }
    let ghost a1 = "route-map "@ + name@;
    push_str(out, " ");
    proof {
        lemma_append(b, a1, " "@);
    }
    let ghost a2 = a1 + " "@;
    let ghost word = if tv.terminal_action == PolicyAction::Accept {
        "permit"@
    } else {
        "deny"@
    };
    match t.terminal_action {
        PolicyAction::Accept => push_str(out, "permit"),
        PolicyAction::Reject => push_str(out, "deny"),
    }
    proof {
        lemma_append(b, a2, word);
    }
    let ghost a3 = a2 + word;
    push_str(out, " ");
    proof {
        lemma_append(b, a3, " "@);
    }
    let ghost a4 = a3 + " "@;
    let seq_no: u64 = (j as u64 + 1) * 10;
    push_decimal(out, seq_no);
    proof {
        lemma_append(b, a4, decimal(((j + 1) * 10) as nat));
    }
    let ghost a5 = a4 + decimal(((j + 1) * 10) as nat);
    push_str(out, "\n");
    proof {
        lemma_append(b, a5, "\n"@);
    }
    let ghost a6 = a5 + "\n"@;
    let ghost s1 = b + a6;
    proof {
        assert(s1 + actions_lines(tv.actions, 0) =~= s1);
    }
    let mut k: usize = 0;
    while k < t.actions.len()
        invariant
            tv == t@,
            tv.actions.len() == t.actions@.len(),
            k <= t.actions@.len(),
            out@ == s1 + actions_lines(tv.actions, k as int),
        decreases t.actions@.len() - k,
    {
        proof {
            assert(tv.actions[k as int] == t.actions@[k as int]@);
        }
        push_action_line(out, &t.actions[k]);
        proof {
            lemma_append(s1, actions_lines(tv.actions, k as int), action_line(tv.actions[k as int]));
        }
        k += 1;
    }
    push_str(out, "!\n");
    proof {
        lemma_append(b, a6, actions_lines(tv.actions, tv.actions.len() as int));
        lemma_append(b, a6 + actions_lines(tv.actions, tv.actions.len() as int), "!\n"@);
    }
}

fn push_policies(out: &mut String, policies: &Vec<(String, crate::models::RoutePolicy)>)
    requires
        forall|p: int| 0 <= p < table_view(policies@).len() ==> (#[trigger] table_view(policies@)[p]).1.terms.len() * 10 <= u64::MAX,
    ensures
        final(out)@ == old(out)@ + policies_lines(table_view(policies@), policies@.len() as int),
{
    let ghost pv = table_view(policies@);
    let ghost b = out@;
    proof {
        assert(b + policies_lines(pv, 0) =~= b);
    }
    let mut k: usize = 0;
    while k < policies.len()
        invariant
            pv == table_view(policies@),
            forall|p: int| 0 <= p < pv.len() ==> (#[trigger] pv[p]).1.terms.len() * 10 <= u64::MAX,
            k <= policies@.len(),
            out@ == b + policies_lines(pv, k as int),
        decreases policies@.len() - k,
    {
        let name = &policies[k].0;
        let p = &policies[k].1;
        let ghost e = pv[k as int];
        proof {
            assert(e == (name@, p@));
            assert(e.1.terms.len() * 10 <= u64::MAX);
        }
        let ghost s0 = out@;
        push_str(out, "! Policy: ");
        push_str(out, name.as_str());
        proof {
            lemma_append(s0, "! Policy: "@, name@);
        }
        push_str(out, "\n");
        proof {
            lemma_append(s0, "! Policy: "@ + name@, "\n"@);
        }
        let ghost s1 = out@;
        proof {
            assert(s1 + terms_lines(name@, e.1.terms, 0) =~= s1);
        }
        let mut j: usize = 0;
        while j < p.terms.len()
            invariant
                e == (name@, p@),
                e.1.terms.len() == p.terms@.len(),
                e.1.terms.len() * 10 <= u64::MAX,
                j <= p.terms@.len(),
                out@ == s1 + terms_lines(name@, e.1.terms, j as int),
            decreases p.terms@.len() - j,
        {
            proof {
                assert(e.1.terms[j as int] == p.terms@[j as int]@);
            }
            push_term_lines(out, name, j, &p.terms[j]);
            proof {
                lemma_append(s1, terms_lines(name@, e.1.terms, j as int), term_lines(name@, j as int, e.1.terms[j as int]));
            }
            j += 1;
        }
        proof {
            let head = "! Policy: "@ + name@ + "\n"@;
            lemma_append(s0, head, terms_lines(name@, e.1.terms, e.1.terms.len() as int));
            lemma_append(b, policies_lines(pv, k as int), "! Policy: "@);
            lemma_append(b, policies_lines(pv, k as int) + "! Policy: "@, name@);
            lemma_append(b, policies_lines(pv, k as int) + "! Policy: "@ + name@, "\n"@);
            lemma_append(b, policies_lines(pv, k as int) + "! Policy: "@ + name@ + "\n"@, terms_lines(name@, e.1.terms, e.1.terms.len() as int));
            lemma_append(b, policies_lines(pv, k as int), head);
            lemma_append(policies_lines(pv, k as int), "! Policy: "@, name@);
            lemma_append(policies_lines(pv, k as int), "! Policy: "@ + name@, "\n"@);
        }
        k += 1;
    }
}

/// A router's Cisco IOS-style startup configuration (see
/// `router_config`).
pub fn build_router_config(router: &Router, topology: &Topology) -> (r: String)
    requires
        config_writable(router@, topology@),
    ensures
        r@ == router_config(router@, topology@),
{
    let order = interface_order(router);
    let mut out = String::new();
    push_str(&mut out, "!\nhostname ");
    push_str(&mut out, router.name.as_str());
    proof {
        lemma_append(Seq::empty(), "!\nhostname "@, router@.name);
    }
    push_str(&mut out, "\n!\n");
    let ghost h = "!\nhostname "@ + router@.name + "\n!\n"@;
    proof {
        lemma_append(Seq::empty(), "!\nhostname "@ + router@.name, "\n!\n"@);
        assert(Seq::<char>::empty() + h =~= h);
    }
    let ghost ord = ordered_interfaces(router@);
    push_iface_blocks(&mut out, router, &order, &topology.links);
    let ghost h1 = h + iface_blocks(ord, topology@.links, ord.len() as int);
    proof {
        assert(ord.len() == router@.interfaces.len());
    }
    push_ospf_section(&mut out, router, &order);
    let ghost h2 = h1 + ospf_section(router@, ord);
    push_bgp_section(&mut out, router);
    let ghost h3 = h2 + bgp_section(router@);
    push_policies(&mut out, &topology.policies);
    let ghost h4 = h3 + policies_lines(topology@.policies, topology@.policies.len() as int);
    push_str(&mut out, "end\n");
    out
}

} // verus!
