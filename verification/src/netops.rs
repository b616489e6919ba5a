//! Changes applied to every router of the network at once, and the link
//! bookkeeping built on them.

use vstd::prelude::*;

use crate::models::{
    key_index, lemma_table_view_update, lookup, strings_view, table_view, AsView,
    GeneratorView, InterfaceView, LinkView, OspfView, Router, RouterView, Topology,
    TopologyView, TrafficGenerator,
};
use crate::table::{find_key, get_key, lemma_key_index, remove_key, remove_view};
use crate::topology::{
    all_positions, as_with_routers, lemma_all_positions_valid, lemma_sizes_fit, pos_valid,
    router_at, sizes_fit, with_router, RouterPos,
};
use crate::text::string_from;

verus! {

/// A change made to each router.
pub enum RouterOp {
    /// Clears the link of the interfaces keyed `a` and `b`.
    DetachLink { a: String, b: String },
    /// Sets the link of the interfaces keyed `a` and `b` to `link`.
    AttachLink { a: String, b: String, link: String },
    /// Sets the state of the interface keyed `iface` and, on a router that
    /// has it, marks OSPF as needing a new SPF run.
    InterfaceState { iface: String, up: bool },
    /// Starts or stops every traffic generator with id `generator`.
    GeneratorActive { generator: String, active: bool },
}

pub enum RouterOpView {
    DetachLink { a: Seq<char>, b: Seq<char> },
    AttachLink { a: Seq<char>, b: Seq<char>, link: Seq<char> },
    InterfaceState { iface: Seq<char>, up: bool },
    GeneratorActive { generator: Seq<char>, active: bool },
}

impl View for RouterOp {
    type V = RouterOpView;

    open spec fn view(&self) -> RouterOpView {
        match self {
            RouterOp::DetachLink { a, b } => RouterOpView::DetachLink { a: a@, b: b@ },
            RouterOp::AttachLink { a, b, link } => RouterOpView::AttachLink {
                a: a@,
                b: b@,
                link: link@,
            },
            RouterOp::InterfaceState { iface, up } => RouterOpView::InterfaceState {
                iface: iface@,
                up: *up,
            },
            RouterOp::GeneratorActive { generator, active } => RouterOpView::GeneratorActive {
                generator: generator@,
                active: *active,
            },
        }
    }
}

/// The interfaces with the link of the first one keyed `k` set to `l`.
pub open spec fn set_iface_link(
    ifaces: Seq<(Seq<char>, InterfaceView)>,
    k: Seq<char>,
    l: Option<Seq<char>>,
) -> Seq<(Seq<char>, InterfaceView)> {
    let i = key_index(ifaces, k);
    if i < ifaces.len() {
        ifaces.update(i, (ifaces[i].0, InterfaceView { link_id: l, ..ifaces[i].1 }))
    } else {
        ifaces
    }
}

pub open spec fn with_interfaces(r: RouterView, ifaces: Seq<(Seq<char>, InterfaceView)>) -> RouterView {
    RouterView { interfaces: ifaces, ..r }
}

pub open spec fn mark_spf_pending(o: Option<OspfView>) -> Option<OspfView> {
    match o {
        Some(v) => Some(OspfView { spf_pending: true, ..v }),
        None => None,
    }
}

/// The effect of an operation on one router.
pub open spec fn op_spec(op: RouterOpView, r: RouterView) -> RouterView {
    match op {
        RouterOpView::DetachLink { a, b } => with_interfaces(
            r,
            set_iface_link(set_iface_link(r.interfaces, a, None), b, None),
        ),
        RouterOpView::AttachLink { a, b, link } => with_interfaces(
            r,
            set_iface_link(set_iface_link(r.interfaces, a, Some(link)), b, Some(link)),
        ),
        RouterOpView::InterfaceState { iface, up } => {
            let i = key_index(r.interfaces, iface);
            if i < r.interfaces.len() {
                RouterView {
                    interfaces: r.interfaces.update(
                        i,
                        (r.interfaces[i].0, InterfaceView { is_up: up, ..r.interfaces[i].1 }),
                    ),
                    ospf_process: mark_spf_pending(r.ospf_process),
                    ..r
                }
            } else {
                r
            }
        },
        RouterOpView::GeneratorActive { generator, active } => RouterView {
            traffic_generators: r.traffic_generators.map_values(
                |g: GeneratorView|
                    if g.id == generator {
                        GeneratorView { is_active: active, ..g }
                    } else {
                        g
                    },
            ),
            ..r
        },
    }
}

fn set_link_of(r: &mut Router, k: &String, l: &Option<String>)
    ensures
        final(r)@ == with_interfaces(
            old(r)@,
            set_iface_link(old(r)@.interfaces, k@, crate::models::opt_string_view(*l)),
        ),
{
    broadcast use lemma_table_view_update;

    match find_key(&r.interfaces, k) {
        Some(i) => {
            let nl = match l {
                Some(s) => Some(s.clone()),
                None => None,
            };
            r.interfaces[i].1.link_id = nl;
        },
        None => {},
    }
}

/// Applies an operation to one router.
pub fn apply_op(op: &RouterOp, r: &mut Router)
    ensures
        final(r)@ == op_spec(op@, old(r)@),
{
    broadcast use lemma_table_view_update;

    match op {
        RouterOp::DetachLink { a, b } => {
            set_link_of(r, a, &None);
            set_link_of(r, b, &None);
        },
        RouterOp::AttachLink { a, b, link } => {
            set_link_of(r, a, &Some(link.clone()));
            set_link_of(r, b, &Some(link.clone()));
        },
        RouterOp::InterfaceState { iface, up } => {
            match find_key(&r.interfaces, iface) {
                Some(i) => {
                    r.interfaces[i].1.is_up = *up;
                    match &mut r.ospf_process {
                        Some(o) => {
                            o.spf_pending = true;
                        },
                        None => {},
                    }
                },
                None => {},
            }
        },
        RouterOp::GeneratorActive { generator, active } => {
            let ghost g0 = r.traffic_generators@;
            let mut k: usize = 0;
            while k < r.traffic_generators.len()
                invariant
                    k <= g0.len(),
                    r.traffic_generators@.len() == g0.len(),
                    forall|j: int|
                        0 <= j < g0.len() ==> (#[trigger] r.traffic_generators@[j])@ == (if j < k {
                            if g0[j]@.id == generator@ {
                                GeneratorView { is_active: *active, ..g0[j]@ }
                            } else {
                                g0[j]@
                            }
                        } else {
                            g0[j]@
                        }),
                    r@ == (RouterView {
                        traffic_generators: r.traffic_generators@.map_values(
                            |g: TrafficGenerator| g@,
                        ),
                        ..old(r)@
                    }),
                    old(r)@.traffic_generators == g0.map_values(|g: TrafficGenerator| g@),
                decreases g0.len() - k,
            {
                if r.traffic_generators[k].id == *generator {
                    r.traffic_generators[k].is_active = *active;
                }
                k += 1;
            }
            proof {
                assert(r@.traffic_generators =~= op_spec(op@, old(r)@).traffic_generators);
            }
        },
    }
}

pub open spec fn map_router_table(s: Seq<(Seq<char>, RouterView)>, op: RouterOpView) -> Seq<
    (Seq<char>, RouterView),
> {
    s.map_values(|e: (Seq<char>, RouterView)| (e.0, op_spec(op, e.1)))
}

/// The topology with `op` applied to every router of every AS and, when
/// `standalone` holds, to every standalone router.
pub open spec fn map_routers(t: TopologyView, op: RouterOpView, standalone: bool) -> TopologyView {
    TopologyView {
        standalone_routers: if standalone {
            map_router_table(t.standalone_routers, op)
        } else {
            t.standalone_routers
        },
        autonomous_systems: t.autonomous_systems.map_values(
            |e: (Seq<char>, AsView)| (e.0, as_with_routers(e.1, map_router_table(e.1.routers, op))),
        ),
        ..t
    }
}

/// Applies `op` to every router of every AS and, when `standalone` holds,
/// to every standalone router.
pub fn apply_to_routers(t: &mut Topology, op: &RouterOp, standalone: bool)
    ensures
        final(t)@ == map_routers(old(t)@, op@, standalone),
{
    let ghost t0 = t@;
    proof {
        lemma_sizes_fit(t);
    }
    if standalone {
        let n = t.standalone_routers.len();
        let mut i: usize = 0;
        while i < n
            invariant
                n == t0.standalone_routers.len(),
                i <= n,
                sizes_fit(t0),
                t@.standalone_routers.len() == n,
                forall|j: int|
                    0 <= j < n ==> #[trigger] t@.standalone_routers[j] == (if j < i {
                        (t0.standalone_routers[j].0, op_spec(op@, t0.standalone_routers[j].1))
                    } else {
                        t0.standalone_routers[j]
                    }),
                t@.autonomous_systems == t0.autonomous_systems,
                t@.links == t0.links,
                t@.policies == t0.policies,
            decreases n - i,
        {
            let r = t.router_mut(RouterPos::Standalone(i));
            apply_op(op, r);
            i += 1;
        }
        proof {
            assert(t@.standalone_routers =~= map_router_table(t0.standalone_routers, op@));
        }
    }
    let ghost t1 = t@;
    let na = t.autonomous_systems.len();
    let mut a: usize = 0;
    while a < na
        invariant
            na == t0.autonomous_systems.len(),
            a <= na,
            sizes_fit(t0),
            t@.standalone_routers == map_routers(t0, op@, standalone).standalone_routers,
            t@.autonomous_systems.len() == na,
            forall|j: int|
                0 <= j < na ==> #[trigger] t@.autonomous_systems[j] == (if j < a {
                    map_routers(t0, op@, standalone).autonomous_systems[j]
                } else {
                    t0.autonomous_systems[j]
                }),
            t@.links == t0.links,
            t@.policies == t0.policies,
        decreases na - a,
    {
        proof {
            assert(t@.autonomous_systems[a as int] == t0.autonomous_systems[a as int]);
        }
        let nr = t.autonomous_systems[a].1.routers.len();
        let ghost s0 = t0.autonomous_systems[a as int].1;
        let mut i: usize = 0;
        while i < nr
            invariant
                na == t0.autonomous_systems.len(),
                a < na,
                s0 == t0.autonomous_systems[a as int].1,
                nr == s0.routers.len(),
                i <= nr,
                t@.standalone_routers == map_routers(t0, op@, standalone).standalone_routers,
                t@.autonomous_systems.len() == na,
                forall|j: int|
                    0 <= j < na && j != a ==> #[trigger] t@.autonomous_systems[j] == (if j < a {
                        map_routers(t0, op@, standalone).autonomous_systems[j]
                    } else {
                        t0.autonomous_systems[j]
                    }),
                t@.autonomous_systems[a as int].0 == t0.autonomous_systems[a as int].0,
                t@.autonomous_systems[a as int].1 == as_with_routers(
                    s0,
                    t@.autonomous_systems[a as int].1.routers,
                ),
                t@.autonomous_systems[a as int].1.routers.len() == nr,
                forall|j: int|
                    0 <= j < nr ==> #[trigger] t@.autonomous_systems[a as int].1.routers[j] == (
                    if j < i {
                        (s0.routers[j].0, op_spec(op@, s0.routers[j].1))
                    } else {
                        s0.routers[j]
                    }),
                t@.links == t0.links,
                t@.policies == t0.policies,
            decreases nr - i,
        {
            let r = t.router_mut(RouterPos::InAs(a, i));
            apply_op(op, r);
            i += 1;
        }
        proof {
            assert(t@.autonomous_systems[a as int].1.routers =~= map_router_table(s0.routers, op@));
        }
        a += 1;
    }
    proof {
        assert(t@.autonomous_systems =~= map_routers(t0, op@, standalone).autonomous_systems);
    }
}


pub open spec fn with_links(t: TopologyView, links: Seq<(Seq<char>, LinkView)>) -> TopologyView {
    TopologyView { links, ..t }
}

/// Removes the link keyed `link_id` and clears the link of the two
/// interfaces it joined, on every router; false when there is no such
/// link (then nothing changes).
pub fn remove_link_and_detach_interfaces(topology: &mut Topology, link_id: &str) -> (r: bool)
    ensures
        match lookup(old(topology)@.links, link_id@) {
            None => !r && final(topology)@ == old(topology)@,
            Some(l) => r && final(topology)@ == with_links(
                map_routers(
                    old(topology)@,
                    RouterOpView::DetachLink { a: l.interface_a_id, b: l.interface_b_id },
                    true,
                ),
                remove_view(old(topology)@.links, link_id@),
            ),
        },
        crate::topology::tables_distinct(old(topology)@) ==> crate::topology::tables_distinct(
            final(topology)@,
        ),
{
    let key = string_from(link_id);
    let (a, b) = match get_key(&topology.links, &key) {
        None => {
            return false;
        },
        Some(link) => (link.interface_a_id.clone(), link.interface_b_id.clone()),
    };
    let op = RouterOp::DetachLink { a, b };
    apply_to_routers(topology, &op, true);
    let _ = remove_key(&mut topology.links, &key);
    proof {
        assert(topology@ =~= with_links(
            map_routers(old(topology)@, op@, true),
            remove_view(old(topology)@.links, link_id@),
        ));
        if crate::topology::tables_distinct(old(topology)@) {
            crate::requests::lemma_distinct_map_routers(old(topology)@, op@, true);
            crate::table::lemma_remove_keeps_distinct(old(topology)@.links, link_id@);
        }
    }
    true
}

/// Ids of the links (in table order) with an end among `iface_ids`.
pub open spec fn links_touching(links: Seq<(Seq<char>, LinkView)>, ids: Seq<Seq<char>>, n: int) -> Seq<
    Seq<char>,
>
    decreases n,
{
    if n <= 0 {
        Seq::empty()
    } else {
        let rest = links_touching(links, ids, n - 1);
        let l = links[n - 1].1;
        if ids.contains(l.interface_a_id) || ids.contains(l.interface_b_id) {
            rest.push(l.id)
        } else {
            rest
        }
    }
}

fn string_in_list(list: &[String], s: &String) -> (r: bool)
    ensures
        r == strings_view(list@).contains(s@),
{
    let mut i: usize = 0;
    while i < list.len()
        invariant
            i <= list@.len(),
            forall|j: int| 0 <= j < i ==> list@[j]@ != s@,
        decreases list@.len() - i,
    {
        if list[i] == *s {
            proof {
                assert(strings_view(list@)[i as int] == s@);
            }
            return true;
        }
        i += 1;
    }
    proof {
        if strings_view(list@).contains(s@) {
            let j = choose|j: int|
                0 <= j < strings_view(list@).len() && strings_view(list@)[j] == s@;
            assert(list@[j]@ == s@);
        }
    }
    false
}

/// Ids of the links that have an end among `iface_ids`.
pub fn collect_links_for_interfaces(topology: &Topology, iface_ids: &[String]) -> (r: Vec<String>)
    ensures
        strings_view(r@) == links_touching(
            topology@.links,
            strings_view(iface_ids@),
            topology@.links.len() as int,
        ),
{
    let ghost lv = topology@.links;
    let ghost ids = strings_view(iface_ids@);
    let mut out: Vec<String> = Vec::new();
    let mut i: usize = 0;
    while i < topology.links.len()
        invariant
            lv == topology@.links,
            ids == strings_view(iface_ids@),
            i <= lv.len(),
            strings_view(out@) == links_touching(lv, ids, i as int),
        decreases lv.len() - i,
    {
        let link = &topology.links[i].1;
        if string_in_list(iface_ids, &link.interface_a_id) || string_in_list(
            iface_ids,
            &link.interface_b_id,
        ) {
            let ghost before = out@;
            out.push(link.id.clone());
            proof {
                assert(strings_view(out@) =~= strings_view(before).push(link.id@));
            }
        }
        i += 1;
    }
    out
}

/// Index in `ps` of the first router position, from `i` on, whose router
/// has an interface keyed `k`; the length when there is none.
pub open spec fn first_with_iface(t: TopologyView, ps: Seq<RouterPos>, k: Seq<char>, i: int) -> int
    decreases ps.len() - i,
{
    if i < 0 || i >= ps.len() {
        ps.len() as int
    } else if key_index(router_at(t, ps[i]).interfaces, k) < router_at(t, ps[i]).interfaces.len() {
        i
    } else {
        first_with_iface(t, ps, k, i + 1)
    }
}

/// The interface keyed `iface_id` on the first router (standalone routers
/// first, then each AS's) that has one.
pub open spec fn interface_named(t: TopologyView, k: Seq<char>) -> Option<InterfaceView> {
    let ps = all_positions(t);
    let i = first_with_iface(t, ps, k, 0);
    if i < ps.len() {
        lookup(router_at(t, ps[i]).interfaces, k)
    } else {
        None
    }
}

/// The interface keyed `iface_id`, searching the routers in order.
pub fn find_interface<'a>(topology: &'a Topology, iface_id: &str) -> (r: Option<
    &'a crate::models::Interface,
>)
    ensures
        match r {
            Some(x) => interface_named(topology@, iface_id@) == Some(x@),
            None => interface_named(topology@, iface_id@) is None,
        },
{
    let key = string_from(iface_id);
    let ps = topology.router_positions();
    proof {
        lemma_sizes_fit(topology);
        lemma_all_positions_valid(topology@);
    }
    let mut i: usize = 0;
    while i < ps.len()
        invariant
            ps@ == all_positions(topology@),
            forall|j: int| 0 <= j < ps@.len() ==> pos_valid(topology@, #[trigger] ps@[j]),
            key@ == iface_id@,
            i <= ps@.len(),
            first_with_iface(topology@, ps@, key@, i as int) == first_with_iface(
                topology@,
                ps@,
                key@,
                0,
            ),
        decreases ps@.len() - i,
    {
        let router = topology.router_ref(ps[i]);
        match get_key(&router.interfaces, &key) {
            Some(iface) => {
                proof {
                    lemma_key_index(router@.interfaces, key@);
                }
                return Some(iface);
            },
            None => {
                proof {
                    lemma_key_index(router@.interfaces, key@);
                }
            },
        }
        i += 1;
    }
    None
}

} // verus!
