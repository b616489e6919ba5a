//! OSPF across the whole network, tick by tick: flooding an LSA to the
//! routers of an area, originating and installing every router's LSAs,
//! running SPF where it is pending, and tracking adjacencies from the
//! state of the links.

use vstd::prelude::*;

use crate::netops::first_with_iface;
use crate::events::{insertion_point, EventQueue, EventType, SimEvent};
use crate::ipv4::{ipv4_string, ipv4_text};
use crate::models::{
    clone_lsa, key_index, lookup, table_view, LinkView, LsaView, OspfNeighbor,
    OspfNeighborState, OspfNeighborView, OspfView, Router, RouterView, SpfResult, SpfView,
    Topology, TopologyView,
};
use crate::ospf::{
    current_seq, has_area, install_lsa, install_ospf_routes, install_ospf_spec, install_spec,
    is_flood_event, lsa_key_router, lsa_key_router_spec, originate_router_lsa, originate_spec,
    schedule_lsa_flood, LSA_FLOOD_DELAY_TICKS,
};
use crate::spf::{run_spf, spf_spec, spf_views};
use crate::store::{area_index, find_area, lemma_area_index};
use crate::table::{find_key, get_key, insert_key, insert_view, lemma_key_index};
use crate::text::string_from;
use crate::topology::{
    all_positions, as_positions, lemma_as_positions_valid, lemma_all_positions_valid, lemma_same_shape_valid,
    lemma_sizes_fit, lemma_with_router, pos_valid, router_at, router_named, same_shape,
    sizes_fit, with_router, RouterPos,
};

verus! {

fn has_area_exec(r: &Router, area_id: u32) -> (b: bool)
    ensures
        b == has_area(r@, area_id),
{
    match &r.ospf_process {
        Some(o) => find_area(&o.areas, area_id).is_some(),
        None => false,
    }
}

// ── Flooding ──

/// One flooding step: the router at `p` installs the LSA when it is not
/// the source and runs OSPF in the area.
pub open spec fn flood_step(
    t: TopologyView,
    p: RouterPos,
    lsa: LsaView,
    src: Seq<char>,
    area_id: u32,
) -> TopologyView {
    let r = router_at(t, p);
    if r.id != src && has_area(r, area_id) {
        with_router(t, p, install_spec(r, area_id, lsa).1)
    } else {
        t
    }
}

pub open spec fn flood_steps(
    t: TopologyView,
    ps: Seq<RouterPos>,
    lsa: LsaView,
    src: Seq<char>,
    area_id: u32,
    k: int,
) -> TopologyView
    decreases k,
{
    if k <= 0 {
        t
    } else {
        flood_step(flood_steps(t, ps, lsa, src, area_id, k - 1), ps[k - 1], lsa, src, area_id)
    }
}

/// Flooding the source router's LSA keyed `key` to an area: every other
/// router in the area, in turn, installs it (when it is newer than the
/// one it holds); nothing changes when the source has no such LSA.
pub open spec fn flood_spec(t: TopologyView, key: Seq<char>, src: Seq<char>, area_id: u32) -> TopologyView {
    match lookup(router_named(t, src)->0.ospf_process->0.lsdb, key) {
        Some(lsa) => flood_steps(t, all_positions(t), lsa, src, area_id, all_positions(t).len() as int),
        None => t,
    }
}

/// Floods the LSA keyed `lsa_key` from the source router's LSDB to every
/// other router of the area.
pub fn flood_lsa_to_area(topology: &mut Topology, lsa_key: &str, source_router_id: &str, area_id: u32)
    requires
        router_named(old(topology)@, source_router_id@) matches Some(r) && r.ospf_process is Some,
    ensures
        final(topology)@ == flood_spec(old(topology)@, lsa_key@, source_router_id@, area_id),
{
    let ghost t0 = topology@;
    let key = string_from(lsa_key);
    let src = string_from(source_router_id);
    let found = {
        let source = topology.get_router(source_router_id).unwrap();
        let ospf = source.ospf_process.as_ref().unwrap();
        match get_key(&ospf.lsdb, &key) {
            Some(l) => Some(clone_lsa(l)),
            None => None,
        }
    };
    let lsa = match found {
        Some(l) => l,
        None => {
            return ;
        },
    };
    let ghost lv = lsa@;
    let ps = topology.router_positions();
    proof {
        lemma_sizes_fit(topology);
        lemma_all_positions_valid(t0);
    }
    let mut i: usize = 0;
    while i < ps.len()
        invariant
            ps@ == all_positions(t0),
            forall|j: int| 0 <= j < ps@.len() ==> pos_valid(t0, #[trigger] ps@[j]),
            i <= ps@.len(),
            same_shape(t0, topology@),
            lv == lsa@,
            src@ == source_router_id@,
            topology@ == flood_steps(t0, ps@, lv, source_router_id@, area_id, i as int),
        decreases ps@.len() - i,
    {
        let p = ps[i];
        proof {
            lemma_same_shape_valid(t0, topology@, p);
        }
        let ghost tp = topology@;
        let r = topology.router_ref(p);
        let go = !(r.id == src) && has_area_exec(r, area_id);
        if go {
            let rm = topology.router_mut(p);
            install_lsa(rm, area_id, clone_lsa(&lsa));
            proof {
                lemma_with_router(tp, p, router_at(topology@, p));
            }
        }
        i += 1;
    }
}


// ── One OSPF tick ──

/// The positions of the routers that belong to an AS, AS by AS.
pub open spec fn as_router_positions(t: TopologyView) -> Seq<RouterPos> {
    as_positions(t.autonomous_systems, t.autonomous_systems.len() as int)
}

/// The (position, area) of each LSA originated by the routers at the
/// first `k` positions of `ps`: one per OSPF area of each, in order.
pub open spec fn origination_list(t: TopologyView, ps: Seq<RouterPos>, k: int) -> Seq<
    (RouterPos, u32),
>
    decreases k,
{
    if k <= 0 {
        Seq::empty()
    } else {
        let p = ps[k - 1];
        origination_list(t, ps, k - 1) + match router_at(t, p).ospf_process {
            Some(o) => Seq::new(o.areas.len(), |j: int| (p, o.areas[j].0)),
            None => Seq::empty(),
        }
    }
}

/// The LSAs a tick originates: one per OSPF area of each AS router.
pub open spec fn originations(t: TopologyView) -> Seq<(RouterPos, u32)> {
    origination_list(t, as_router_positions(t), as_router_positions(t).len() as int)
}

/// Whether a router's next LSA for an area has a sequence number.
pub open spec fn seq_room(t: TopologyView, u: (RouterPos, u32)) -> bool {
    current_seq(router_at(t, u.0), u.1) matches Some(s) ==> s < u32::MAX
}

/// Whether every LSA a tick originates has a sequence number.
pub open spec fn ospf_tick_ready(t: TopologyView) -> bool {
    forall|i: int| 0 <= i < originations(t).len() ==> #[trigger] seq_room(t, originations(t)[i])
}

/// The topology after the first `k` originations are installed, each LSA
/// as originated from the topology `t0` of the tick's start.
pub open spec fn install_originations(
    t0: TopologyView,
    us: Seq<(RouterPos, u32)>,
    k: int,
) -> TopologyView
    decreases k,
{
    if k <= 0 {
        t0
    } else {
        let prev = install_originations(t0, us, k - 1);
        let p = us[k - 1].0;
        let area = us[k - 1].1;
        with_router(
            prev,
            p,
            install_spec(router_at(prev, p), area, originate_spec(router_at(t0, p), area)).1,
        )
    }
}

/// The flood event a tick schedules for an origination.
pub open spec fn is_origination_flood(
    e: SimEvent,
    t0: TopologyView,
    u: (RouterPos, u32),
    tick: u64,
) -> bool {
    let r = router_at(t0, u.0);
    &&& e.scheduled_tick == tick + LSA_FLOOD_DELAY_TICKS
    &&& e.priority == 10
    &&& is_flood_event(e.event_type, lsa_key_router_spec(r.router_id_ip, u.1), r.id, u.1)
}

/// A queue after the first `k` of `evs` are pushed, in order.
pub open spec fn push_all(q: Seq<SimEvent>, evs: Seq<SimEvent>, k: int) -> Seq<SimEvent>
    decreases k,
{
    if k <= 0 {
        q
    } else {
        let prev = push_all(q, evs, k - 1);
        prev.insert(insertion_point(prev, evs[k - 1]), evs[k - 1])
    }
}

/// The SPF results of `n` runs, one per area.
pub open spec fn spf_rounds(r: RouterView, n: int) -> Seq<SpfView>
    decreases n,
{
    if n <= 0 {
        Seq::empty()
    } else {
        spf_rounds(r, n - 1) + spf_spec(r)
    }
}

/// A router after its pending SPF: the results of one run per area
/// installed, and nothing pending.
pub open spec fn after_spf(r: RouterView) -> RouterView {
    let r2 = install_ospf_spec(r, spf_rounds(r, r.ospf_process->0.areas.len() as int));
    RouterView {
        ospf_process: Some(OspfView { spf_pending: false, ..r2.ospf_process->0 }),
        ..r2
    }
}

pub open spec fn spf_step(t: TopologyView, p: RouterPos) -> TopologyView {
    let r = router_at(t, p);
    if r.ospf_process matches Some(o) && o.spf_pending {
        with_router(t, p, after_spf(r))
    } else {
        t
    }
}

pub open spec fn spf_steps(t: TopologyView, ps: Seq<RouterPos>, k: int) -> TopologyView
    decreases k,
{
    if k <= 0 {
        t
    } else {
        spf_step(spf_steps(t, ps, k - 1), ps[k - 1])
    }
}

/// What a tick does to the topology: every AS router originates and
/// installs its LSA for each of its areas, then every router with SPF
/// pending runs it.
pub open spec fn tick_ospf_spec(t0: TopologyView) -> TopologyView {
    let us = originations(t0);
    let t1 = install_originations(t0, us, us.len() as int);
    spf_steps(t1, all_positions(t1), all_positions(t1).len() as int)
}


proof fn lemma_origination_prefix(t: TopologyView, ps: Seq<RouterPos>, k: int, n: int)
    requires
        0 <= k <= n,
    ensures
        origination_list(t, ps, k).len() <= origination_list(t, ps, n).len(),
        origination_list(t, ps, n).subrange(0, origination_list(t, ps, k).len() as int)
            == origination_list(t, ps, k),
    decreases n - k,
{
    if k < n {
        lemma_origination_prefix(t, ps, k, n - 1);
        let a = origination_list(t, ps, k);
        let b = origination_list(t, ps, n - 1);
        let c = origination_list(t, ps, n);
        assert(c.subrange(0, a.len() as int) =~= b.subrange(0, a.len() as int));
    } else {
        assert(origination_list(t, ps, n).subrange(0, origination_list(t, ps, n).len() as int)
            =~= origination_list(t, ps, n));
    }
}

proof fn lemma_originations_valid(t: TopologyView, ps: Seq<RouterPos>, k: int)
    requires
        0 <= k <= ps.len(),
        forall|j: int| 0 <= j < ps.len() ==> pos_valid(t, #[trigger] ps[j]),
    ensures
        forall|m: int|
            0 <= m < origination_list(t, ps, k).len() ==> pos_valid(
                t,
                (#[trigger] origination_list(t, ps, k)[m]).0,
            ) && router_at(t, origination_list(t, ps, k)[m].0).ospf_process is Some,
    decreases k,
{
    if k > 0 {
        lemma_origination_prefix(t, ps, k - 1, k);
        lemma_originations_valid(t, ps, k - 1);
        let a = origination_list(t, ps, k - 1);
        let c = origination_list(t, ps, k);
        assert forall|m: int| 0 <= m < c.len() implies pos_valid(t, (#[trigger] c[m]).0)
            && router_at(t, c[m].0).ospf_process is Some by {
            if m < a.len() {
                assert(c[m] == c.subrange(0, a.len() as int)[m]);
            } else {
                assert(pos_valid(t, ps[k - 1]));
            }
        }
    }
}

/// An LSA a tick installs: the router's position, the area, the LSDB key,
/// the router's id and the LSA.
type Origination = (RouterPos, u32, String, String, crate::models::Lsa);

pub open spec fn origination_matches(t0: TopologyView, u: Origination, o: (RouterPos, u32)) -> bool {
    let r = router_at(t0, o.0);
    &&& u.0 == o.0
    &&& u.1 == o.1
    &&& u.2@ == lsa_key_router_spec(r.router_id_ip, o.1)
    &&& u.3@ == r.id
    &&& u.4@ == originate_spec(r, o.1)
}

/// Phase one of a tick: the LSA of each AS router for each of its areas,
/// originated from the topology as it stands.
fn collect_originations(topology: &Topology) -> (r: Vec<Origination>)
    requires
        ospf_tick_ready(topology@),
    ensures
        r@.len() == originations(topology@).len(),
        forall|i: int|
            0 <= i < r@.len() ==> origination_matches(
                topology@,
                #[trigger] r@[i],
                originations(topology@)[i],
            ),
{
    let ghost t = topology@;
    let all = topology.router_positions();
    let ns = topology.standalone_routers.len();
    let ghost aps = as_router_positions(t);
    let ghost us = originations(t);
    proof {
        lemma_sizes_fit(topology);
        lemma_all_positions_valid(t);
        assert(all@.skip(ns as int) =~= aps);
        lemma_origination_prefix(t, aps, 0, aps.len() as int);
    }
    let mut out: Vec<Origination> = Vec::new();
    let mut i: usize = ns;
    while i < all.len()
        invariant
            t == topology@,
            ns == t.standalone_routers.len(),
            ns <= i <= all@.len(),
            all@ == all_positions(t),
            aps == all@.skip(ns as int),
            aps == as_router_positions(t),
            us == originations(t),
            forall|j: int| 0 <= j < all@.len() ==> pos_valid(t, #[trigger] all@[j]),
            ospf_tick_ready(t),
            out@.len() == origination_list(t, aps, i - ns).len(),
            forall|m: int|
                0 <= m < out@.len() ==> origination_matches(
                    t,
                    #[trigger] out@[m],
                    origination_list(t, aps, i - ns)[m],
                ),
        decreases all@.len() - i,
    {
        let p = all[i];
        proof {
            assert(aps[i - ns] == p);
            lemma_origination_prefix(t, aps, i - ns + 1, aps.len() as int);
        }
        let ghost base = origination_list(t, aps, i - ns);
        let ghost next = origination_list(t, aps, i - ns + 1);
        let r = topology.router_ref(p);
        match &r.ospf_process {
            Some(o) => {
                let ghost av = o@.areas;
                proof {
                    assert(next =~= base + Seq::new(av.len(), |j: int| (p, av[j].0)));
                }
                let mut j: usize = 0;
                while j < o.areas.len()
                    invariant
                        t == topology@,
                        r@ == router_at(t, p),
                        r.ospf_process == Some(*o),
                        av == o@.areas,
                        av.len() == o.areas@.len(),
                        j <= av.len(),
                        next == base + Seq::new(av.len(), |j: int| (p, av[j].0)),
                        us == originations(t),
                        next.len() <= us.len(),
                        us.subrange(0, next.len() as int) == next,
                        ospf_tick_ready(t),
                        out@.len() == base.len() + j,
                        forall|m: int|
                            0 <= m < out@.len() ==> origination_matches(
                                t,
                                #[trigger] out@[m],
                                next[m],
                            ),
                    decreases av.len() - j,
                {
                    let area_id = o.areas[j].0;
                    proof {
                        let m = base.len() + j;
                        assert(next[m] == (p, area_id));
                        assert(us[m] == next[m]);
                        assert(seq_room(t, us[m]));
                        lemma_area_index(av, area_id);
                    }
                    let lsa = originate_router_lsa(r, area_id);
                    let key = lsa_key_router(r.router_id_ip, area_id);
                    let changed = match get_key(&o.lsdb, &key) {
                        Some(e) => lsa.sequence_number > e.sequence_number,
                        None => true,
                    };
                    if changed {
                        out.push((p, area_id, key, r.id.clone(), lsa));
                    }
                    j += 1;
                }
            },
            None => {
                proof {
                    assert(next =~= base);
                }
            },
        }
        i += 1;
    }
    proof {
        assert(all@.len() - ns == aps.len());
    }
    out
}

proof fn lemma_push_all_prefix(q: Seq<SimEvent>, a: Seq<SimEvent>, b: Seq<SimEvent>, k: int)
    requires
        0 <= k <= a.len(),
        k <= b.len(),
        a.subrange(0, k) == b.subrange(0, k),
    ensures
        push_all(q, a, k) == push_all(q, b, k),
    decreases k,
{
    if k > 0 {
        assert(a[k - 1] == a.subrange(0, k)[k - 1]);
        assert(b[k - 1] == b.subrange(0, k)[k - 1]);
        assert(a.subrange(0, k - 1) =~= a.subrange(0, k).subrange(0, k - 1));
        assert(b.subrange(0, k - 1) =~= b.subrange(0, k).subrange(0, k - 1));
        lemma_push_all_prefix(q, a, b, k - 1);
    }
}

/// The SPF results of one run per OSPF area of the router.
fn spf_all_areas(router: &Router) -> (r: Vec<SpfResult>)
    requires
        router@.ospf_process is Some,
    ensures
        spf_views(r@) == spf_rounds(router@, router@.ospf_process->0.areas.len() as int),
{
    let o = router.ospf_process.as_ref().unwrap();
    let mut all: Vec<SpfResult> = Vec::new();
    proof {
        assert(spf_views(all@) =~= Seq::<SpfView>::empty());
    }
    let mut j: usize = 0;
    while j < o.areas.len()
        invariant
            router@.ospf_process == Some(o@),
            o.areas@.len() == o@.areas.len(),
            j <= o.areas@.len(),
            spf_views(all@) == spf_rounds(router@, j as int),
        decreases o.areas@.len() - j,
    {
        let mut rs = run_spf(router, o.areas[j].0);
        let ghost before = all@;
        let ghost added = rs@;
        all.append(&mut rs);
        proof {
            assert(spf_views(all@) =~= spf_views(before) + spf_views(added));
        }
        j += 1;
    }
    all
}

/// One OSPF tick: every AS router originates its router LSA for each of
/// its areas; each is installed in its own LSDB and its flooding is
/// scheduled two ticks on; then every router with SPF pending runs SPF
/// once per area and installs the results.
pub fn tick_ospf(topology: &mut Topology, current_tick: u64, event_queue: &mut EventQueue)
    requires
        ospf_tick_ready(old(topology)@),
        old(event_queue).wf(),
        current_tick <= u64::MAX - LSA_FLOOD_DELAY_TICKS,
    ensures
        final(topology)@ == tick_ospf_spec(old(topology)@),
        final(event_queue).wf(),
        exists|evs: Seq<SimEvent>|
            #![trigger push_all(old(event_queue)@, evs, evs.len() as int)]
            evs.len() == originations(old(topology)@).len() && (forall|i: int|
                0 <= i < evs.len() ==> is_origination_flood(
                    #[trigger] evs[i],
                    old(topology)@,
                    originations(old(topology)@)[i],
                    current_tick,
                )) && final(event_queue)@ == push_all(old(event_queue)@, evs, evs.len() as int),
{
    let ghost t0 = topology@;
    let ghost q0 = event_queue@;
    let ghost us = originations(t0);
    let ups = collect_originations(topology);
    proof {
        lemma_sizes_fit(topology);
        lemma_as_positions_valid(t0, t0.autonomous_systems.len() as int);
        lemma_originations_valid(
            t0,
            as_router_positions(t0),
            as_router_positions(t0).len() as int,
        );
    }
    let ghost mut evs: Seq<SimEvent> = Seq::empty();
    let mut k: usize = 0;
    while k < ups.len()
        invariant
            ups@.len() == us.len(),
            us == originations(t0),
            forall|m: int|
                0 <= m < ups@.len() ==> origination_matches(t0, #[trigger] ups@[m], us[m]),
            forall|m: int|
                0 <= m < us.len() ==> pos_valid(t0, (#[trigger] us[m]).0) && router_at(
                    t0,
                    us[m].0,
                ).ospf_process is Some,
            k <= ups@.len(),
            same_shape(t0, topology@),
            topology@ == install_originations(t0, us, k as int),
            forall|m: int|
                0 <= m < us.len() ==> (router_at(topology@, (#[trigger] us[m]).0).ospf_process is Some),
            event_queue.wf(),
            current_tick <= u64::MAX - LSA_FLOOD_DELAY_TICKS,
            evs.len() == k,
            forall|m: int|
                0 <= m < k ==> is_origination_flood(#[trigger] evs[m], t0, us[m], current_tick),
            event_queue@ == push_all(q0, evs, k as int),
        decreases ups@.len() - k,
    {
        let u = &ups[k];
        let p = u.0;
        proof {
            assert(origination_matches(t0, ups@[k as int], us[k as int]));
            lemma_same_shape_valid(t0, topology@, p);
        }
        let ghost tp = topology@;
        let rm = topology.router_mut(p);
        install_lsa(rm, u.1, clone_lsa(&u.4));
        proof {
            lemma_with_router(tp, p, router_at(topology@, p));
            assert forall|m: int| 0 <= m < us.len() implies (router_at(
                topology@,
                (#[trigger] us[m]).0,
            ).ospf_process is Some) by {
                lemma_same_shape_valid(t0, tp, us[m].0);
                if us[m].0 != p {
                    assert(router_at(topology@, us[m].0) == router_at(tp, us[m].0));
                }
            }
        }
        let ghost qp = event_queue@;
        schedule_lsa_flood(u.2.as_str(), u.3.as_str(), u.1, current_tick, event_queue);
        proof {
            let et = choose|et: EventType|
                #[trigger] is_flood_event(et, u.2@, u.3@, u.1) && ({
                    let e = SimEvent {
                        scheduled_tick: (current_tick + LSA_FLOOD_DELAY_TICKS) as u64,
                        priority: 10,
                        event_type: et,
                    };
                    event_queue@ == qp.insert(insertion_point(qp, e), e)
                });
            let e = SimEvent {
                scheduled_tick: (current_tick + LSA_FLOOD_DELAY_TICKS) as u64,
                priority: 10,
                event_type: et,
            };
            let old_evs = evs;
            evs = evs.push(e);
            assert(evs.subrange(0, k as int) =~= old_evs.subrange(0, k as int));
            lemma_push_all_prefix(q0, old_evs, evs, k as int);
            assert(is_origination_flood(evs[k as int], t0, us[k as int], current_tick));
        }
        k += 1;
    }
    let ghost t1 = topology@;
    proof {
        assert(push_all(q0, evs, evs.len() as int) == event_queue@);
    }
    let ps = topology.router_positions();
    proof {
        lemma_sizes_fit(topology);
        lemma_all_positions_valid(t1);
    }
    let mut i: usize = 0;
    while i < ps.len()
        invariant
            ps@ == all_positions(t1),
            forall|j: int| 0 <= j < ps@.len() ==> pos_valid(t1, #[trigger] ps@[j]),
            i <= ps@.len(),
            same_shape(t1, topology@),
            topology@ == spf_steps(t1, ps@, i as int),
        decreases ps@.len() - i,
    {
        let p = ps[i];
        proof {
            lemma_same_shape_valid(t1, topology@, p);
        }
        let ghost tp = topology@;
        let r = topology.router_ref(p);
        let pending = match &r.ospf_process {
            Some(o) => o.spf_pending,
            None => false,
        };
        if pending {
            let results = spf_all_areas(r);
            let rm = topology.router_mut(p);
            install_ospf_routes(rm, results.as_slice());
            rm.ospf_process.as_mut().unwrap().spf_pending = false;
            proof {
                lemma_with_router(tp, p, router_at(topology@, p));
            }
        }
        i += 1;
    }
}


// ── Adjacencies ──

/// A router with its OSPF neighbor keyed by `ip`'s text set to the given
/// state and interface (unchanged when it runs no OSPF).
pub open spec fn with_neighbor(
    r: RouterView,
    ip: u32,
    state: OspfNeighborState,
    iface: Seq<char>,
) -> RouterView {
    match r.ospf_process {
        Some(o) => RouterView {
            ospf_process: Some(
                OspfView {
                    neighbors: insert_view(
                        o.neighbors,
                        ipv4_text(ip),
                        OspfNeighborView { neighbor_id: ip, state, interface_id: iface },
                    ),
                    ..o
                },
            ),
            ..r
        },
        None => r,
    }
}

/// The adjacency a link gives: when both of its interfaces belong to AS
/// routers (the first that has each), each router records the other as a
/// neighbor, `Full` when the link is up and `Down` otherwise.
pub open spec fn adjacency_step(t: TopologyView, ps: Seq<RouterPos>, l: LinkView) -> TopologyView {
    let ia = first_with_iface(t, ps, l.interface_a_id, 0);
    let ib = first_with_iface(t, ps, l.interface_b_id, 0);
    if ia < ps.len() && ib < ps.len() {
        let pa = ps[ia];
        let pb = ps[ib];
        let a_ip = router_at(t, pa).router_id_ip;
        let b_ip = router_at(t, pb).router_id_ip;
        let state = if l.is_up {
            OspfNeighborState::Full
        } else {
            OspfNeighborState::Down
        };
        let t1 = with_router(t, pa, with_neighbor(router_at(t, pa), b_ip, state, l.interface_a_id));
        with_router(t1, pb, with_neighbor(router_at(t1, pb), a_ip, state, l.interface_b_id))
    } else {
        t
    }
}

pub open spec fn adjacency_steps(
    t: TopologyView,
    ps: Seq<RouterPos>,
    links: Seq<(Seq<char>, LinkView)>,
    k: int,
) -> TopologyView
    decreases k,
{
    if k <= 0 {
        t
    } else {
        adjacency_step(adjacency_steps(t, ps, links, k - 1), ps, links[k - 1].1)
    }
}

/// The adjacencies of every link, in order.
pub open spec fn neighbors_spec(t: TopologyView) -> TopologyView {
    adjacency_steps(t, as_router_positions(t), t.links, t.links.len() as int)
}

pub(crate) fn as_router_positions_exec(topology: &Topology) -> (r: Vec<RouterPos>)
    ensures
        r@ == as_router_positions(topology@),
        forall|j: int| 0 <= j < r@.len() ==> pos_valid(topology@, #[trigger] r@[j]),
{
    let all = topology.router_positions();
    let ns = topology.standalone_routers.len();
    proof {
        lemma_sizes_fit(topology);
        lemma_all_positions_valid(topology@);
        assert(all@.skip(ns as int) =~= as_router_positions(topology@));
    }
    let mut out: Vec<RouterPos> = Vec::new();
    let mut i: usize = ns;
    while i < all.len()
        invariant
            ns <= i <= all@.len(),
            ns == topology@.standalone_routers.len(),
            all@ == all_positions(topology@),
            out@ == all@.subrange(ns as int, i as int),
        decreases all@.len() - i,
    {
        out.push(all[i]);
        proof {
            assert(out@ =~= all@.subrange(ns as int, i + 1));
        }
        i += 1;
    }
    proof {
        assert(out@ =~= all@.skip(ns as int));
        lemma_as_positions_valid(topology@, topology@.autonomous_systems.len() as int);
    }
    out
}

/// The first router among `ps` with an interface keyed `iface_id`: its
/// position and router id.
fn find_router_for_interface(topology: &Topology, ps: &Vec<RouterPos>, iface_id: &String) -> (r:
    Option<(RouterPos, u32)>)
    requires
        forall|j: int| 0 <= j < ps@.len() ==> pos_valid(topology@, #[trigger] ps@[j]),
    ensures
        ({
            let i = first_with_iface(topology@, ps@, iface_id@, 0);
            match r {
                Some((p, ip)) => 0 <= i < ps@.len() && p == ps@[i] && ip == router_at(
                    topology@,
                    p,
                ).router_id_ip,
                None => i == ps@.len(),
            }
        }),
{
    let mut i: usize = 0;
    while i < ps.len()
        invariant
            forall|j: int| 0 <= j < ps@.len() ==> pos_valid(topology@, #[trigger] ps@[j]),
            i <= ps@.len(),
            first_with_iface(topology@, ps@, iface_id@, i as int) == first_with_iface(
                topology@,
                ps@,
                iface_id@,
                0,
            ),
        decreases ps@.len() - i,
    {
        let router = topology.router_ref(ps[i]);
        proof {
            lemma_key_index(router@.interfaces, iface_id@);
        }
        if find_key(&router.interfaces, iface_id).is_some() {
            return Some((ps[i], router.router_id_ip));
        }
        i += 1;
    }
    None
}

fn set_neighbor(r: &mut Router, ip: u32, state: OspfNeighborState, iface: &String)
    ensures
        final(r)@ == with_neighbor(old(r)@, ip, state, iface@),
{
    match r.ospf_process.as_mut() {
        Some(o) => {
            insert_key(
                &mut o.neighbors,
                ipv4_string(ip),
                OspfNeighbor { neighbor_id: ip, state, interface_id: iface.clone() },
            );
        },
        None => {},
    }
}

/// Records, for every link between two AS routers, each router as the
/// other's OSPF neighbor: `Full` while the link is up, `Down` otherwise.
pub fn update_ospf_neighbors(topology: &mut Topology)
    ensures
        final(topology)@ == neighbors_spec(old(topology)@),
{
    let ghost t0 = topology@;
    let ps = as_router_positions_exec(topology);
    let n = topology.links.len();
    let mut k: usize = 0;
    while k < n
        invariant
            n == t0.links.len(),
            k <= n,
            ps@ == as_router_positions(t0),
            forall|j: int| 0 <= j < ps@.len() ==> pos_valid(t0, #[trigger] ps@[j]),
            same_shape(t0, topology@),
            topology@.links == t0.links,
            topology@ == adjacency_steps(t0, ps@, t0.links, k as int),
        decreases n - k,
    {
        let a_id = topology.links[k].1.interface_a_id.clone();
        let b_id = topology.links[k].1.interface_b_id.clone();
        let up = topology.links[k].1.is_up;
        proof {
            assert forall|j: int| 0 <= j < ps@.len() implies pos_valid(
                topology@,
                #[trigger] ps@[j],
            ) by {
                lemma_same_shape_valid(t0, topology@, ps@[j]);
            }
        }
        let ghost tk = topology@;
        let fa = find_router_for_interface(topology, &ps, &a_id);
        let fb = find_router_for_interface(topology, &ps, &b_id);
        match fa {
            Some((pa, a_ip)) => {
                match fb {
                    Some((pb, b_ip)) => {
                        proof {
                            let ia = first_with_iface(tk, ps@, a_id@, 0);
                            let ib = first_with_iface(tk, ps@, b_id@, 0);
                            assert(pos_valid(t0, ps@[ia]));
                            assert(pos_valid(t0, ps@[ib]));
                            lemma_same_shape_valid(t0, tk, pa);
                            lemma_same_shape_valid(t0, tk, pb);
                        }
                        let state = if up {
                            OspfNeighborState::Full
                        } else {
                            OspfNeighborState::Down
                        };
                        let ra = topology.router_mut(pa);
                        set_neighbor(ra, b_ip, state, &a_id);
                        let ghost t1 = topology@;
                        proof {
                            lemma_with_router(tk, pa, router_at(t1, pa));
                            lemma_same_shape_valid(tk, t1, pb);
                        }
                        let rb = topology.router_mut(pb);
                        set_neighbor(rb, a_ip, state, &b_id);
                        proof {
                            lemma_with_router(t1, pb, router_at(topology@, pb));
                        }
                    },
                    None => {},
                }
            },
            None => {},
        }
        k += 1;
    }
}


/// Whether every LSA a tick would originate has a sequence number (no
/// router's current LSA for one of its areas is at the last one).
pub fn ospf_tick_ready_exec(topology: &Topology) -> (r: bool)
    ensures
        r == ospf_tick_ready(topology@),
{
    let ghost t = topology@;
    let aps = as_router_positions_exec(topology);
    let ghost us = originations(t);
    proof {
        lemma_origination_prefix(t, aps@, 0, aps@.len() as int);
    }
    let mut i: usize = 0;
    while i < aps.len()
        invariant
            t == topology@,
            aps@ == as_router_positions(t),
            forall|j: int| 0 <= j < aps@.len() ==> pos_valid(t, #[trigger] aps@[j]),
            us == originations(t),
            i <= aps@.len(),
            forall|m: int|
                0 <= m < origination_list(t, aps@, i as int).len() ==> #[trigger] seq_room(
                    t,
                    origination_list(t, aps@, i as int)[m],
                ),
        decreases aps@.len() - i,
    {
        let p = aps[i];
        proof {
            lemma_origination_prefix(t, aps@, i as int, i + 1);
            lemma_origination_prefix(t, aps@, i + 1, aps@.len() as int);
        }
        let ghost base = origination_list(t, aps@, i as int);
        let ghost next = origination_list(t, aps@, i + 1);
        let r = topology.router_ref(p);
        match &r.ospf_process {
            Some(o) => {
                let ghost av = o@.areas;
                proof {
                    assert(next =~= base + Seq::new(av.len(), |j: int| (p, av[j].0)));
                }
                let mut j: usize = 0;
                while j < o.areas.len()
                    invariant
                        t == topology@,
                        r@ == router_at(t, p),
                        r.ospf_process == Some(*o),
                        av == o@.areas,
                        av.len() == o.areas@.len(),
                        j <= av.len(),
                        next == base + Seq::new(av.len(), |j: int| (p, av[j].0)),
                        next.len() <= us.len(),
                        us.subrange(0, next.len() as int) == next,
                        us == originations(t),
                        forall|m: int|
                            0 <= m < base.len() + j ==> #[trigger] seq_room(t, next[m]),
                    decreases av.len() - j,
                {
                    let area_id = o.areas[j].0;
                    let key = lsa_key_router(r.router_id_ip, area_id);
                    let room = match get_key(&o.lsdb, &key) {
                        Some(e) => e.sequence_number < u32::MAX,
                        None => true,
                    };
                    proof {
                        assert(next[base.len() + j] == (p, area_id));
                    }
                    if !room {
                        proof {
                            let m = base.len() + j;
                            assert(us[m] == next[m]);
                            assert(!seq_room(t, us[m]));
                        }
                        return false;
                    }
                    proof {
                        assert forall|m: int| 0 <= m < base.len() + j + 1 implies #[trigger] seq_room(
                            t,
                            next[m],
                        ) by {
                            if m == base.len() + j {
                                assert(next[m] == (p, area_id));
                            }
                        }
                    }
                    j += 1;
                }
                proof {
                    assert(base.len() + av.len() == next.len());
                }
            },
            None => {
                proof {
                    assert(next =~= base);
                }
            },
        }
        proof {
            assert forall|m: int| 0 <= m < next.len() implies #[trigger] seq_room(t, next[m]) by {
                if m < base.len() {
                    assert(next[m] == base[m]);
                }
            }
        }
        i += 1;
    }
    proof {
        assert(origination_list(t, aps@, aps@.len() as int) == us);
    }
    true
}


/// An adjacency follows its link: after a link between two different AS
/// routers is processed, the first router holds the second as a neighbor
/// (keyed by its router id's text) over the link's first interface,
/// `Full` exactly when the link is up, and `Down` otherwise.
pub proof fn law_adjacency_tracks_link(t: TopologyView, ps: Seq<RouterPos>, l: LinkView)
    requires
        forall|j: int| 0 <= j < ps.len() ==> pos_valid(t, #[trigger] ps[j]),
        0 <= first_with_iface(t, ps, l.interface_a_id, 0) < ps.len(),
        0 <= first_with_iface(t, ps, l.interface_b_id, 0) < ps.len(),
        ps[first_with_iface(t, ps, l.interface_a_id, 0)] != ps[first_with_iface(
            t,
            ps,
            l.interface_b_id,
            0,
        )],
        router_at(t, ps[first_with_iface(t, ps, l.interface_a_id, 0)]).ospf_process is Some,
    ensures
        ({
            let pa = ps[first_with_iface(t, ps, l.interface_a_id, 0)];
            let pb = ps[first_with_iface(t, ps, l.interface_b_id, 0)];
            let b_ip = router_at(t, pb).router_id_ip;
            lookup(
                router_at(adjacency_step(t, ps, l), pa).ospf_process->0.neighbors,
                ipv4_text(b_ip),
            ) == Some(
                OspfNeighborView {
                    neighbor_id: b_ip,
                    state: if l.is_up {
                        OspfNeighborState::Full
                    } else {
                        OspfNeighborState::Down
                    },
                    interface_id: l.interface_a_id,
                },
            )
        }),
{
    let ia = first_with_iface(t, ps, l.interface_a_id, 0);
    let ib = first_with_iface(t, ps, l.interface_b_id, 0);
    let pa = ps[ia];
    let pb = ps[ib];
    assert(pos_valid(t, pa));
    assert(pos_valid(t, pb));
    let a_ip = router_at(t, pa).router_id_ip;
    let b_ip = router_at(t, pb).router_id_ip;
    let state = if l.is_up {
        OspfNeighborState::Full
    } else {
        OspfNeighborState::Down
    };
    let ra2 = with_neighbor(router_at(t, pa), b_ip, state, l.interface_a_id);
    let t1 = with_router(t, pa, ra2);
    lemma_with_router(t, pa, ra2);
    lemma_same_shape_valid(t, t1, pb);
    let rb2 = with_neighbor(router_at(t1, pb), a_ip, state, l.interface_b_id);
    lemma_with_router(t1, pb, rb2);
    lemma_same_shape_valid(t, t1, pa);
    let o = router_at(t, pa).ospf_process->0;
    crate::table::lemma_lookup_insert(
        o.neighbors,
        ipv4_text(b_ip),
        OspfNeighborView { neighbor_id: b_ip, state, interface_id: l.interface_a_id },
        ipv4_text(b_ip),
    );
}

} // verus!
