//! The topology container: finding, changing and removing routers, the
//! per-router changes applied across the whole network, and link
//! bookkeeping.

use vstd::prelude::*;

use crate::models::{
    key_index, lemma_table_view_update, lookup, table_view, AsView, AutonomousSystem, Interface, InterfaceView, Router,
    RouterView, Topology, TopologyView,
};
use crate::table::{find_key, keys_distinct, lemma_key_index, lemma_key_index_update};
use crate::text::string_from;

verus! {

/// Where a router sits: among the standalone routers, or in an AS.
#[derive(Debug, Clone, Copy, PartialEq, Eq, Structural)]
pub enum RouterPos {
    Standalone(usize),
    InAs(usize, usize),
}

/// The first AS, from index `a` on, that has a router keyed `id`.
pub open spec fn as_holding(ases: Seq<(Seq<char>, AsView)>, id: Seq<char>, a: int) -> int
    decreases ases.len() - a,
{
    if a < 0 || a >= ases.len() {
        ases.len() as int
    } else if key_index(ases[a].1.routers, id) < ases[a].1.routers.len() {
        a
    } else {
        as_holding(ases, id, a + 1)
    }
}

/// Where the router keyed `id` is found: first among the standalone
/// routers, then in the ASes in order.
pub open spec fn find_router(t: TopologyView, id: Seq<char>) -> Option<RouterPos> {
    let i = key_index(t.standalone_routers, id);
    if i < t.standalone_routers.len() {
        Some(RouterPos::Standalone(i as usize))
    } else {
        let a = as_holding(t.autonomous_systems, id, 0);
        if a < t.autonomous_systems.len() {
            Some(
                RouterPos::InAs(
                    a as usize,
                    key_index(t.autonomous_systems[a].1.routers, id) as usize,
                ),
            )
        } else {
            None
        }
    }
}

pub open spec fn pos_valid(t: TopologyView, p: RouterPos) -> bool {
    match p {
        RouterPos::Standalone(i) => i < t.standalone_routers.len(),
        RouterPos::InAs(a, i) => a < t.autonomous_systems.len() && i
            < t.autonomous_systems[a as int].1.routers.len(),
    }
}

/// The router at a position.
pub open spec fn router_at(t: TopologyView, p: RouterPos) -> RouterView {
    match p {
        RouterPos::Standalone(i) => t.standalone_routers[i as int].1,
        RouterPos::InAs(a, i) => t.autonomous_systems[a as int].1.routers[i as int].1,
    }
}

pub open spec fn as_with_routers(s: AsView, routers: Seq<(Seq<char>, RouterView)>) -> AsView {
    AsView { id: s.id, asn: s.asn, name: s.name, routers, ospf_areas: s.ospf_areas }
}

/// The keys of the topology's tables (ASes, standalone routers, links,
/// policies, and the routers of each AS) are distinct, as those of the
/// maps they stand for.
pub open spec fn tables_distinct(t: TopologyView) -> bool {
    &&& keys_distinct(t.autonomous_systems)
    &&& keys_distinct(t.standalone_routers)
    &&& keys_distinct(t.links)
    &&& keys_distinct(t.policies)
    &&& forall|a: int|
        0 <= a < t.autonomous_systems.len() ==> keys_distinct(
            #[trigger] t.autonomous_systems[a].1.routers,
        )
}

/// The topology with the router at `p` replaced by `r` (its key kept).
pub open spec fn with_router(t: TopologyView, p: RouterPos, r: RouterView) -> TopologyView {
    match p {
        RouterPos::Standalone(i) => TopologyView {
            standalone_routers: t.standalone_routers.update(
                i as int,
                (t.standalone_routers[i as int].0, r),
            ),
            ..t
        },
        RouterPos::InAs(a, i) => {
            let s = t.autonomous_systems[a as int].1;
            TopologyView {
                autonomous_systems: t.autonomous_systems.update(
                    a as int,
                    (
                        t.autonomous_systems[a as int].0,
                        as_with_routers(s, s.routers.update(i as int, (s.routers[i as int].0, r))),
                    ),
                ),
                ..t
            }
        },
    }
}

/// The router keyed `id`, if any.
pub open spec fn router_named(t: TopologyView, id: Seq<char>) -> Option<RouterView> {
    match find_router(t, id) {
        Some(p) => Some(router_at(t, p)),
        None => None,
    }
}

/// The positions of all routers: the standalone ones, then those of each
/// AS in order.
pub open spec fn as_positions(ases: Seq<(Seq<char>, AsView)>, a: int) -> Seq<RouterPos>
    decreases a,
{
    if a <= 0 {
        Seq::empty()
    } else {
        as_positions(ases, a - 1) + Seq::new(
            ases[a - 1].1.routers.len(),
            |i: int| RouterPos::InAs((a - 1) as usize, i as usize),
        )
    }
}

pub open spec fn all_positions(t: TopologyView) -> Seq<RouterPos> {
    Seq::new(t.standalone_routers.len(), |i: int| RouterPos::Standalone(i as usize))
        + as_positions(t.autonomous_systems, t.autonomous_systems.len() as int)
}

pub proof fn lemma_as_holding(ases: Seq<(Seq<char>, AsView)>, id: Seq<char>, a: int)
    requires
        0 <= a <= ases.len(),
    ensures
        a <= as_holding(ases, id, a) <= ases.len(),
        as_holding(ases, id, a) < ases.len() ==> key_index(
            ases[as_holding(ases, id, a)].1.routers,
            id,
        ) < ases[as_holding(ases, id, a)].1.routers.len(),
    decreases ases.len() - a,
{
    if a < ases.len() && key_index(ases[a].1.routers, id) >= ases[a].1.routers.len() {
        lemma_as_holding(ases, id, a + 1);
    }
}

/// Every table of routers is small enough to be indexed by `usize`.
pub open spec fn sizes_fit(t: TopologyView) -> bool {
    &&& t.standalone_routers.len() <= usize::MAX
    &&& t.autonomous_systems.len() <= usize::MAX
    &&& forall|a: int|
        0 <= a < t.autonomous_systems.len() ==> (#[trigger] t.autonomous_systems[a]).1.routers.len()
            <= usize::MAX
}

pub proof fn lemma_sizes_fit(t: &Topology)
    ensures
        sizes_fit(t@),
{
    broadcast use vstd::std_specs::vec::axiom_spec_len;

    let _ = t.standalone_routers.len();
    let _ = t.autonomous_systems.len();
    assert forall|a: int| 0 <= a < t@.autonomous_systems.len() implies (
    #[trigger] t@.autonomous_systems[a]).1.routers.len() <= usize::MAX by {
        let _ = t.autonomous_systems@[a].1.routers.len();
    }
}

pub proof fn lemma_find_router_valid(t: TopologyView, id: Seq<char>)
    requires
        sizes_fit(t),
    ensures
        find_router(t, id) matches Some(p) ==> pos_valid(t, p),
{
    lemma_key_index(t.standalone_routers, id);
    lemma_as_holding(t.autonomous_systems, id, 0);
    let a = as_holding(t.autonomous_systems, id, 0);
    if a < t.autonomous_systems.len() {
        assert(t.autonomous_systems[a].1.routers.len() <= usize::MAX);
        lemma_key_index(t.autonomous_systems[a].1.routers, id);
    }
}


/// The topology without the router keyed `id` (the one `find_router`
/// finds).
pub open spec fn without_router(t: TopologyView, id: Seq<char>) -> TopologyView {
    match find_router(t, id) {
        Some(RouterPos::Standalone(i)) => TopologyView {
            standalone_routers: t.standalone_routers.remove(i as int),
            ..t
        },
        Some(RouterPos::InAs(a, i)) => {
            let s = t.autonomous_systems[a as int].1;
            TopologyView {
                autonomous_systems: t.autonomous_systems.update(
                    a as int,
                    (t.autonomous_systems[a as int].0, as_with_routers(s, s.routers.remove(i as int))),
                ),
                ..t
            }
        },
        None => t,
    }
}

impl Topology {
    /// An empty topology.
    pub fn new() -> (t: Topology)
        ensures
            t@.autonomous_systems.len() == 0,
            t@.standalone_routers.len() == 0,
            t@.links.len() == 0,
            t@.policies.len() == 0,
            tables_distinct(t@),
    {
        Topology {
            autonomous_systems: Vec::new(),
            standalone_routers: Vec::new(),
            links: Vec::new(),
            policies: Vec::new(),
        }
    }

    /// Where the router keyed `id` is: the standalone routers are searched
    /// first, then the ASes in order.
    pub fn locate_router(&self, id: &String) -> (r: Option<RouterPos>)
        ensures
            r == find_router(self@, id@),
            r matches Some(p) ==> pos_valid(self@, p),
    {
        proof {
            lemma_sizes_fit(self);
            lemma_find_router_valid(self@, id@);
        }
        match find_key(&self.standalone_routers, id) {
            Some(i) => {
                return Some(RouterPos::Standalone(i));
            },
            None => {},
        }
        let ghost ases = self@.autonomous_systems;
        let mut a: usize = 0;
        while a < self.autonomous_systems.len()
            invariant
                ases == self@.autonomous_systems,
                a <= ases.len(),
                sizes_fit(self@),
                key_index(self@.standalone_routers, id@) == self@.standalone_routers.len(),
                as_holding(ases, id@, a as int) == as_holding(ases, id@, 0),
            decreases ases.len() - a,
        {
            match find_key(&self.autonomous_systems[a].1.routers, id) {
                Some(i) => {
                    return Some(RouterPos::InAs(a, i));
                },
                None => {},
            }
            a += 1;
        }
        None
    }

    /// The router at a position.
    pub fn router_ref(&self, p: RouterPos) -> (r: &Router)
        requires
            pos_valid(self@, p),
        ensures
            r@ == router_at(self@, p),
    {
        match p {
            RouterPos::Standalone(i) => &self.standalone_routers[i].1,
            RouterPos::InAs(a, i) => &self.autonomous_systems[a].1.routers[i].1,
        }
    }

    /// Mutable access to the router at a position.
    pub fn router_mut(&mut self, p: RouterPos) -> (r: &mut Router)
        requires
            pos_valid(old(self)@, p),
        ensures
            r@ == router_at(old(self)@, p),
            final(self)@ == with_router(old(self)@, p, final(r)@),
    {
        broadcast use lemma_table_view_update;

        match p {
            RouterPos::Standalone(i) => &mut self.standalone_routers[i].1,
            RouterPos::InAs(a, i) => &mut self.autonomous_systems[a].1.routers[i].1,
        }
    }

    /// The router keyed `router_id` (standalone routers first, then the
    /// ASes in order).
    pub fn get_router(&self, router_id: &str) -> (r: Option<&Router>)
        ensures
            match r {
                Some(x) => router_named(self@, router_id@) == Some(x@),
                None => router_named(self@, router_id@) is None,
            },
    {
        let id = string_from(router_id);
        match self.locate_router(&id) {
            Some(p) => Some(self.router_ref(p)),
            None => None,
        }
    }

    /// Mutable access to the router keyed `router_id`.
    pub fn get_router_mut(&mut self, router_id: &str) -> (r: Option<&mut Router>)
        ensures
            match r {
                Some(x) => find_router(old(self)@, router_id@) matches Some(p) && x@ == router_at(
                    old(self)@,
                    p,
                ) && final(self)@ == with_router(old(self)@, p, final(x)@),
                None => find_router(old(self)@, router_id@) is None && final(self)@ == old(
                    self,
                )@,
            },
    {
        let id = string_from(router_id);
        match self.locate_router(&id) {
            Some(p) => Some(self.router_mut(p)),
            None => None,
        }
    }

    /// Removes the router keyed `router_id` (standalone routers first,
    /// then the ASes in order) and gives it back.
    pub fn remove_router(&mut self, router_id: &str) -> (r: Option<Router>)
        ensures
            match r {
                Some(x) => router_named(old(self)@, router_id@) == Some(x@),
                None => router_named(old(self)@, router_id@) is None,
            },
            final(self)@ == without_router(old(self)@, router_id@),
            tables_distinct(old(self)@) ==> tables_distinct(final(self)@),
    {
        proof {
            lemma_sizes_fit(self);
            if tables_distinct(self@) {
                crate::requests::lemma_distinct_without_router(self@, router_id@);
            }
        }
        let id = string_from(router_id);
        let ghost t0 = self@;
        match self.locate_router(&id) {
            Some(RouterPos::Standalone(i)) => {
                let (_, r) = self.standalone_routers.remove(i);
                proof {
                    assert(table_view(self.standalone_routers@) =~= t0.standalone_routers.remove(
                        i as int,
                    ));
                    assert(self@ =~= without_router(t0, router_id@));
                }
                Some(r)
            },
            Some(RouterPos::InAs(a, i)) => {
                let ghost before = self.autonomous_systems@;
                let (_, r) = self.autonomous_systems[a].1.routers.remove(i);
                proof {
                    let s = t0.autonomous_systems[a as int].1;
                    assert(table_view(self.autonomous_systems@[a as int].1.routers@) =~= s.routers.remove(
                        i as int,
                    ));
                    assert(self@.autonomous_systems[a as int].1 =~= as_with_routers(
                        s,
                        s.routers.remove(i as int),
                    ));
                    assert(self@.autonomous_systems =~= without_router(t0, router_id@).autonomous_systems);
                    assert(self@ =~= without_router(t0, router_id@));
                }
                Some(r)
            },
            None => None,
        }
    }

    /// Positions of all routers: standalone ones first, then each AS's.
    pub fn router_positions(&self) -> (r: Vec<RouterPos>)
        ensures
            r@ == all_positions(self@),
    {
        let mut out: Vec<RouterPos> = Vec::new();
        let mut i: usize = 0;
        while i < self.standalone_routers.len()
            invariant
                i <= self@.standalone_routers.len(),
                out@ == Seq::new(i as nat, |j: int| RouterPos::Standalone(j as usize)),
            decreases self@.standalone_routers.len() - i,
        {
            out.push(RouterPos::Standalone(i));
            i += 1;
            proof {
                assert(out@ =~= Seq::new(i as nat, |j: int| RouterPos::Standalone(j as usize)));
            }
        }
        let ghost base = out@;
        let ghost ases = self@.autonomous_systems;
        let mut a: usize = 0;
        while a < self.autonomous_systems.len()
            invariant
                ases == self@.autonomous_systems,
                a <= ases.len(),
                base == Seq::new(
                    self@.standalone_routers.len(),
                    |j: int| RouterPos::Standalone(j as usize),
                ),
                out@ == base + as_positions(ases, a as int),
            decreases ases.len() - a,
        {
            let n = self.autonomous_systems[a].1.routers.len();
            let ghost before = out@;
            let mut k: usize = 0;
            while k < n
                invariant
                    ases == self@.autonomous_systems,
                    a < ases.len(),
                    n == ases[a as int].1.routers.len(),
                    k <= n,
                    out@ == before + Seq::new(k as nat, |j: int| RouterPos::InAs(a, j as usize)),
                decreases n - k,
            {
                out.push(RouterPos::InAs(a, k));
                k += 1;
                proof {
                    assert(out@ =~= before + Seq::new(
                        k as nat,
                        |j: int| RouterPos::InAs(a, j as usize),
                    ));
                }
            }
            proof {
                assert(as_positions(ases, a + 1) =~= as_positions(ases, a as int) + Seq::new(
                    ases[a as int].1.routers.len(),
                    |j: int| RouterPos::InAs(a, j as usize),
                ));
                assert(out@ =~= base + as_positions(ases, a + 1));
            }
            a += 1;
        }
        out
    }

    /// All routers: standalone ones first, then each AS's.
    pub fn all_routers(&self) -> (r: Vec<&Router>)
        ensures
            r@.len() == all_positions(self@).len(),
            forall|i: int|
                0 <= i < r@.len() ==> pos_valid(self@, all_positions(self@)[i]) && (#[trigger] r@[
                    i
                ])@ == router_at(self@, all_positions(self@)[i]),
    {
        let ps = self.router_positions();
        proof {
            lemma_sizes_fit(self);
            lemma_all_positions_valid(self@);
        }
        let mut out: Vec<&Router> = Vec::new();
        let mut i: usize = 0;
        while i < ps.len()
            invariant
                ps@ == all_positions(self@),
                forall|j: int| 0 <= j < ps@.len() ==> pos_valid(self@, #[trigger] ps@[j]),
                i <= ps@.len(),
                out@.len() == i,
                forall|j: int| 0 <= j < i ==> (#[trigger] out@[j])@ == router_at(self@, ps@[j]),
            decreases ps@.len() - i,
        {
            out.push(self.router_ref(ps[i]));
            i += 1;
        }
        out
    }
}

pub proof fn lemma_as_positions_valid(t: TopologyView, a: int)
    requires
        0 <= a <= t.autonomous_systems.len(),
        sizes_fit(t),
    ensures
        forall|j: int|
            0 <= j < as_positions(t.autonomous_systems, a).len() ==> pos_valid(
                t,
                #[trigger] as_positions(t.autonomous_systems, a)[j],
            ),
    decreases a,
{
    if a > 0 {
        lemma_as_positions_valid(t, a - 1);
        let prev = as_positions(t.autonomous_systems, a - 1);
        let cur = as_positions(t.autonomous_systems, a);
        assert forall|j: int| 0 <= j < cur.len() implies pos_valid(t, #[trigger] cur[j]) by {
            if j < prev.len() {
                assert(cur[j] == prev[j]);
            } else {
                assert(t.autonomous_systems[a - 1].1.routers.len() <= usize::MAX);
            }
        }
    }
}

pub proof fn lemma_all_positions_valid(t: TopologyView)
    requires
        sizes_fit(t),
    ensures
        forall|j: int|
            0 <= j < all_positions(t).len() ==> pos_valid(t, #[trigger] all_positions(t)[j]),
{
    lemma_as_positions_valid(t, t.autonomous_systems.len() as int);
    let n = t.standalone_routers.len();
    let ap = as_positions(t.autonomous_systems, t.autonomous_systems.len() as int);
    assert forall|j: int| 0 <= j < all_positions(t).len() implies pos_valid(
        t,
        #[trigger] all_positions(t)[j],
    ) by {
        if j >= n {
            assert(all_positions(t)[j] == ap[j - n]);
        }
    }
}


/// Two topologies with routers at the same positions.
pub open spec fn same_shape(a: TopologyView, b: TopologyView) -> bool {
    &&& a.standalone_routers.len() == b.standalone_routers.len()
    &&& a.autonomous_systems.len() == b.autonomous_systems.len()
    &&& forall|i: int|
        0 <= i < a.autonomous_systems.len() ==> (#[trigger] a.autonomous_systems[i]).1.routers.len()
            == b.autonomous_systems[i].1.routers.len()
}

/// Replacing a router keeps every position, and changes only the router
/// at that position.
pub proof fn lemma_with_router(t: TopologyView, p: RouterPos, r: RouterView)
    requires
        pos_valid(t, p),
    ensures
        same_shape(t, with_router(t, p, r)),
        router_at(with_router(t, p, r), p) == r,
        forall|q: RouterPos|
            pos_valid(t, q) && q != p ==> #[trigger] router_at(with_router(t, p, r), q)
                == router_at(t, q),
{
    let t2 = with_router(t, p, r);
    match p {
        RouterPos::Standalone(i) => {},
        RouterPos::InAs(a, i) => {
            assert forall|j: int| 0 <= j < t.autonomous_systems.len() implies (
            #[trigger] t.autonomous_systems[j]).1.routers.len()
                == t2.autonomous_systems[j].1.routers.len() by {
                if j == a {
                }
            }
        },
    }
}

pub proof fn lemma_same_shape_valid(a: TopologyView, b: TopologyView, p: RouterPos)
    requires
        same_shape(a, b),
        pos_valid(a, p),
    ensures
        pos_valid(b, p),
{
    match p {
        RouterPos::InAs(x, i) => {
            assert(a.autonomous_systems[x as int].1.routers.len()
                == b.autonomous_systems[x as int].1.routers.len());
        },
        _ => {},
    }
}

} // verus!
