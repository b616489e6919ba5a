//! The simulator's data model: topology, routing tables, OSPF and BGP
//! state, traffic and route policies.  IPv4 addresses are held as `u32`
//! (most significant octet first); networks as [`crate::ipv4::Ipv4Net`].

use vstd::prelude::*;

use crate::ipv4::Ipv4Net;

verus! {

/// The view of a keyed table: each key's characters with its value's view.
pub open spec fn table_view<V: View>(s: Seq<(String, V)>) -> Seq<(Seq<char>, V::V)> {
    s.map_values(|e: (String, V)| (e.0@, e.1@))
}

/// Replacing one entry of a table replaces the matching entry of its view.
pub broadcast proof fn lemma_table_view_update<V: View>(s: Seq<(String, V)>, i: int, e: (String, V))
    requires
        0 <= i < s.len(),
    ensures
        #[trigger] table_view(s.update(i, e)) == table_view(s).update(i, (e.0@, e.1@)),
{
    assert(table_view(s.update(i, e)) =~= table_view(s).update(i, (e.0@, e.1@)));
}

/// Index of the first entry with key `k`, or the length when there is none.
pub open spec fn key_index<V>(s: Seq<(Seq<char>, V)>, k: Seq<char>) -> int
    decreases s.len(),
{
    if s.len() == 0 {
        0
    } else if key_index(s.drop_last(), k) < s.len() - 1 {
        key_index(s.drop_last(), k)
    } else if s.last().0 == k {
        s.len() - 1
    } else {
        s.len() as int
    }
}

/// The value of the first entry with key `k`.
pub open spec fn lookup<V>(s: Seq<(Seq<char>, V)>, k: Seq<char>) -> Option<V> {
    let i = key_index(s, k);
    if 0 <= i < s.len() {
        Some(s[i].1)
    } else {
        None
    }
}

/// The characters of each string in a sequence.
pub open spec fn strings_view(v: Seq<String>) -> Seq<Seq<char>> {
    v.map_values(|s: String| s@)
}

// ── Route policies ──

/// What a policy term, or a policy's fall-through, does with a route.
#[derive(Debug, Clone, Copy, PartialEq, Eq, Structural)]
pub enum PolicyAction {
    Accept,
    Reject,
}

/// A change that a matching policy term makes to a route.
#[derive(Debug)]
pub enum PolicySetAction {
    SetLocalPref(u32),
    SetMed(u32),
    PrependAsPath { asn: u32, count: u32 },
    AddCommunity(String),
    RemoveCommunity(String),
}

pub enum SetActionView {
    SetLocalPref(u32),
    SetMed(u32),
    PrependAsPath { asn: u32, count: u32 },
    AddCommunity(Seq<char>),
    RemoveCommunity(Seq<char>),
}

impl View for PolicySetAction {
    type V = SetActionView;

    open spec fn view(&self) -> SetActionView {
        match self {
            PolicySetAction::SetLocalPref(v) => SetActionView::SetLocalPref(*v),
            PolicySetAction::SetMed(v) => SetActionView::SetMed(*v),
            PolicySetAction::PrependAsPath { asn, count } => SetActionView::PrependAsPath {
                asn: *asn,
                count: *count,
            },
            PolicySetAction::AddCommunity(c) => SetActionView::AddCommunity(c@),
            PolicySetAction::RemoveCommunity(c) => SetActionView::RemoveCommunity(c@),
        }
    }
}

pub open spec fn set_actions_view(v: Seq<PolicySetAction>) -> Seq<SetActionView> {
    v.map_values(|a: PolicySetAction| a@)
}

/// The conditions of a policy term; absent conditions match every route.
#[derive(Debug, Default, PartialEq)]
pub struct MatchConditions {
    pub prefix_list: Option<Vec<String>>,
    pub as_path_regex: Option<String>,
    pub community: Option<String>,
}

pub struct MatchView {
    pub prefix_list: Option<Seq<Seq<char>>>,
    pub as_path_regex: Option<Seq<char>>,
    pub community: Option<Seq<char>>,
}

pub open spec fn opt_string_view(o: Option<String>) -> Option<Seq<char>> {
    match o {
        Some(s) => Some(s@),
        None => None,
    }
}

impl View for MatchConditions {
    type V = MatchView;

    open spec fn view(&self) -> MatchView {
        MatchView {
            prefix_list: match self.prefix_list {
                Some(v) => Some(strings_view(v@)),
                None => None,
            },
            as_path_regex: opt_string_view(self.as_path_regex),
            community: opt_string_view(self.community),
        }
    }
}

/// One term of a route policy.
#[derive(Debug)]
pub struct PolicyTerm {
    pub name: String,
    pub match_conditions: MatchConditions,
    pub actions: Vec<PolicySetAction>,
    pub terminal_action: PolicyAction,
}

pub struct TermView {
    pub name: Seq<char>,
    pub match_conditions: MatchView,
    pub actions: Seq<SetActionView>,
    pub terminal_action: PolicyAction,
}

impl View for PolicyTerm {
    type V = TermView;

    open spec fn view(&self) -> TermView {
        TermView {
            name: self.name@,
            match_conditions: self.match_conditions@,
            actions: set_actions_view(self.actions@),
            terminal_action: self.terminal_action,
        }
    }
}

/// A named route policy: terms tried in order, then the default action.
#[derive(Debug)]
pub struct RoutePolicy {
    pub name: String,
    pub terms: Vec<PolicyTerm>,
    pub default_action: PolicyAction,
}

pub struct PolicyView {
    pub name: Seq<char>,
    pub terms: Seq<TermView>,
    pub default_action: PolicyAction,
}

impl View for RoutePolicy {
    type V = PolicyView;

    open spec fn view(&self) -> PolicyView {
        PolicyView {
            name: self.name@,
            terms: self.terms@.map_values(|t: PolicyTerm| t@),
            default_action: self.default_action,
        }
    }
}

// ── BGP sessions ──

/// State of a BGP session with a neighbor.
#[derive(Debug, Clone, Copy, PartialEq, Eq, Structural)]
pub enum BgpSessionState {
    Idle,
    Connect,
    OpenSent,
    OpenConfirm,
    Established,
}

// ── BGP routes ──

/// How a BGP route entered routing (lower is preferred).
#[derive(Debug, Clone, Copy, PartialEq, Eq, Structural)]
pub enum BgpOrigin {
    Igp,
    Egp,
    Incomplete,
}

/// Rank of an origin: IGP < EGP < Incomplete.
pub open spec fn origin_rank(o: BgpOrigin) -> int {
    match o {
        BgpOrigin::Igp => 0,
        BgpOrigin::Egp => 1,
        BgpOrigin::Incomplete => 2,
    }
}

pub fn origin_rank_of(o: BgpOrigin) -> (r: u8)
    ensures
        r == origin_rank(o),
{
    match o {
        BgpOrigin::Igp => 0,
        BgpOrigin::Egp => 1,
        BgpOrigin::Incomplete => 2,
    }
}

/// The path attributes of a BGP route.
#[derive(Debug)]
pub struct BgpAttributes {
    pub as_path: Vec<u32>,
    pub local_pref: u32,
    pub med: u32,
    pub next_hop: u32,
    pub origin: BgpOrigin,
    pub communities: Vec<String>,
    pub weight: u32,
}

pub struct AttrsView {
    pub as_path: Seq<u32>,
    pub local_pref: u32,
    pub med: u32,
    pub next_hop: u32,
    pub origin: BgpOrigin,
    pub communities: Seq<Seq<char>>,
    pub weight: u32,
}

impl View for BgpAttributes {
    type V = AttrsView;

    open spec fn view(&self) -> AttrsView {
        AttrsView {
            as_path: self.as_path@,
            local_pref: self.local_pref,
            med: self.med,
            next_hop: self.next_hop,
            origin: self.origin,
            communities: strings_view(self.communities@),
            weight: self.weight,
        }
    }
}

pub fn clone_strings(v: &Vec<String>) -> (r: Vec<String>)
    ensures
        strings_view(r@) == strings_view(v@),
{
    let mut out: Vec<String> = Vec::new();
    let mut i: usize = 0;
    while i < v.len()
        invariant
            i <= v@.len(),
            strings_view(out@) == strings_view(v@.take(i as int)),
        decreases v@.len() - i,
    {
        let ghost before = out@;
        out.push(v[i].clone());
        proof {
            assert(v@.take(i + 1) =~= v@.take(i as int).push(v@[i as int]));
            assert(strings_view(out@) =~= strings_view(before).push(v@[i as int]@));
            assert(strings_view(v@.take(i + 1)) =~= strings_view(v@.take(i as int)).push(
                v@[i as int]@,
            ));
        }
        i += 1;
    }
    proof {
        assert(v@.take(v@.len() as int) =~= v@);
    }
    out
}

pub fn clone_u32s(v: &Vec<u32>) -> (r: Vec<u32>)
    ensures
        r@ == v@,
{
    let mut out: Vec<u32> = Vec::new();
    let mut i: usize = 0;
    while i < v.len()
        invariant
            i <= v@.len(),
            out@ == v@.take(i as int),
        decreases v@.len() - i,
    {
        out.push(v[i]);
        proof {
            assert(v@.take(i + 1) =~= v@.take(i as int).push(v@[i as int]));
        }
        i += 1;
    }
    proof {
        assert(v@.take(v@.len() as int) =~= v@);
    }
    out
}

impl Clone for BgpAttributes {
    fn clone(&self) -> (r: Self)
        ensures
            r@ == self@,
    {
        BgpAttributes {
            as_path: clone_u32s(&self.as_path),
            local_pref: self.local_pref,
            med: self.med,
            next_hop: self.next_hop,
            origin: self.origin,
            communities: clone_strings(&self.communities),
            weight: self.weight,
        }
    }
}

impl Default for BgpAttributes {
    /// Empty AS path, LOCAL_PREF 100, MED 0, next hop 0.0.0.0, origin IGP,
    /// no communities, weight 0.
    fn default() -> (r: Self)
        ensures
            r@ == (AttrsView {
                as_path: Seq::empty(),
                local_pref: 100,
                med: 0,
                next_hop: 0,
                origin: BgpOrigin::Igp,
                communities: Seq::empty(),
                weight: 0,
            }),
    {
        let r = BgpAttributes {
            as_path: Vec::new(),
            local_pref: 100,
            med: 0,
            next_hop: 0,
            origin: BgpOrigin::Igp,
            communities: Vec::new(),
            weight: 0,
        };
        proof {
            assert(strings_view(r.communities@) =~= Seq::<Seq<char>>::empty());
        }
        r
    }
}

/// A BGP route for a prefix; `received_from` is the advertising peer's
/// router id, absent for a locally originated route.
#[derive(Debug)]
pub struct BgpRoute {
    pub prefix: String,
    pub attributes: BgpAttributes,
    pub received_from: Option<u32>,
    pub is_best: bool,
}

pub struct RouteView {
    pub prefix: Seq<char>,
    pub attributes: AttrsView,
    pub received_from: Option<u32>,
    pub is_best: bool,
}

impl View for BgpRoute {
    type V = RouteView;

    open spec fn view(&self) -> RouteView {
        RouteView {
            prefix: self.prefix@,
            attributes: self.attributes@,
            received_from: self.received_from,
            is_best: self.is_best,
        }
    }
}

impl Clone for BgpRoute {
    fn clone(&self) -> (r: Self)
        ensures
            r@ == self@,
    {
        BgpRoute {
            prefix: self.prefix.clone(),
            attributes: self.attributes.clone(),
            received_from: self.received_from,
            is_best: self.is_best,
        }
    }
}

pub open spec fn routes_view(v: Seq<BgpRoute>) -> Seq<RouteView> {
    v.map_values(|r: BgpRoute| r@)
}

// ── Core topology ──

/// A router interface; `link_id` names the link it is attached to.
#[derive(Debug)]
pub struct Interface {
    pub id: String,
    pub router_id: String,
    pub ip_address: Ipv4Net,
    pub link_id: Option<String>,
    pub bandwidth: u64,
    pub cost: u32,
    pub is_up: bool,
}

pub struct InterfaceView {
    pub id: Seq<char>,
    pub router_id: Seq<char>,
    pub ip_address: Ipv4Net,
    pub link_id: Option<Seq<char>>,
    pub bandwidth: u64,
    pub cost: u32,
    pub is_up: bool,
}

impl View for Interface {
    type V = InterfaceView;

    open spec fn view(&self) -> InterfaceView {
        InterfaceView {
            id: self.id@,
            router_id: self.router_id@,
            ip_address: self.ip_address,
            link_id: opt_string_view(self.link_id),
            bandwidth: self.bandwidth,
            cost: self.cost,
            is_up: self.is_up,
        }
    }
}

/// A link between two interfaces; `current_load` is the traffic on it in
/// bits per second.
#[derive(Debug)]
pub struct Link {
    pub id: String,
    pub interface_a_id: String,
    pub interface_b_id: String,
    pub bandwidth: u64,
    pub current_load: u128,
    pub is_up: bool,
}

pub struct LinkView {
    pub id: Seq<char>,
    pub interface_a_id: Seq<char>,
    pub interface_b_id: Seq<char>,
    pub bandwidth: u64,
    pub current_load: u128,
    pub is_up: bool,
}

impl View for Link {
    type V = LinkView;

    open spec fn view(&self) -> LinkView {
        LinkView {
            id: self.id@,
            interface_a_id: self.interface_a_id@,
            interface_b_id: self.interface_b_id@,
            bandwidth: self.bandwidth,
            current_load: self.current_load,
            is_up: self.is_up,
        }
    }
}

/// A router: its interfaces, routing processes, RIB, FIB and traffic
/// generators.
#[derive(Debug)]
pub struct Router {
    pub id: String,
    pub as_id: String,
    pub name: String,
    pub router_id_ip: u32,
    pub interfaces: Vec<(String, Interface)>,
    pub ospf_process: Option<OspfProcess>,
    pub bgp_process: Option<BgpProcess>,
    pub rib: Vec<(String, RibEntry)>,
    pub fib: Vec<(String, FibEntry)>,
    pub traffic_generators: Vec<TrafficGenerator>,
}

pub struct RouterView {
    pub id: Seq<char>,
    pub as_id: Seq<char>,
    pub name: Seq<char>,
    pub router_id_ip: u32,
    pub interfaces: Seq<(Seq<char>, InterfaceView)>,
    pub ospf_process: Option<OspfView>,
    pub bgp_process: Option<BgpProcessView>,
    pub rib: Seq<(Seq<char>, RibView)>,
    pub fib: Seq<(Seq<char>, FibView)>,
    pub traffic_generators: Seq<GeneratorView>,
}

impl View for Router {
    type V = RouterView;

    open spec fn view(&self) -> RouterView {
        RouterView {
            id: self.id@,
            as_id: self.as_id@,
            name: self.name@,
            router_id_ip: self.router_id_ip,
            interfaces: table_view(self.interfaces@),
            ospf_process: match self.ospf_process {
                Some(o) => Some(o@),
                None => None,
            },
            bgp_process: match self.bgp_process {
                Some(b) => Some(b@),
                None => None,
            },
            rib: table_view(self.rib@),
            fib: table_view(self.fib@),
            traffic_generators: self.traffic_generators@.map_values(|g: TrafficGenerator| g@),
        }
    }
}

/// An autonomous system and its routers.
#[derive(Debug)]
pub struct AutonomousSystem {
    pub id: String,
    pub asn: u32,
    pub name: String,
    pub routers: Vec<(String, Router)>,
    pub ospf_areas: Vec<(u32, Vec<String>)>,
}

pub struct AsView {
    pub id: Seq<char>,
    pub asn: u32,
    pub name: Seq<char>,
    pub routers: Seq<(Seq<char>, RouterView)>,
    pub ospf_areas: Seq<(u32, Seq<Seq<char>>)>,
}

impl View for AutonomousSystem {
    type V = AsView;

    open spec fn view(&self) -> AsView {
        AsView {
            id: self.id@,
            asn: self.asn,
            name: self.name@,
            routers: table_view(self.routers@),
            ospf_areas: self.ospf_areas@.map_values(
                |e: (u32, Vec<String>)| (e.0, strings_view(e.1@)),
            ),
        }
    }
}

// ── RIB / FIB ──

/// The protocol a RIB entry came from.
#[derive(Debug, Clone, Copy, PartialEq, Eq, Structural)]
pub enum RouteProtocol {
    Connected,
    Ospf,
    BgpExternal,
    BgpInternal,
}

/// The administrative distance of a protocol: connected 0, eBGP 20,
/// OSPF 110, iBGP 200.
pub open spec fn admin_distance_of(p: RouteProtocol) -> u8 {
    match p {
        RouteProtocol::Connected => 0,
        RouteProtocol::Ospf => 110,
        RouteProtocol::BgpExternal => 20,
        RouteProtocol::BgpInternal => 200,
    }
}

impl RouteProtocol {
    /// The administrative distance of the protocol.
    pub fn admin_distance(&self) -> (r: u8)
        ensures
            r == admin_distance_of(*self),
    {
        match self {
            RouteProtocol::Connected => 0,
            RouteProtocol::Ospf => 110,
            RouteProtocol::BgpExternal => 20,
            RouteProtocol::BgpInternal => 200,
        }
    }
}

/// A route in a router's RIB.
#[derive(Debug)]
pub struct RibEntry {
    pub prefix: String,
    pub next_hop: u32,
    pub protocol: RouteProtocol,
    pub metric: u32,
    pub admin_distance: u8,
    pub bgp_attributes: Option<BgpAttributes>,
}

pub struct RibView {
    pub prefix: Seq<char>,
    pub next_hop: u32,
    pub protocol: RouteProtocol,
    pub metric: u32,
    pub admin_distance: u8,
    pub bgp_attributes: Option<AttrsView>,
}

impl View for RibEntry {
    type V = RibView;

    open spec fn view(&self) -> RibView {
        RibView {
            prefix: self.prefix@,
            next_hop: self.next_hop,
            protocol: self.protocol,
            metric: self.metric,
            admin_distance: self.admin_distance,
            bgp_attributes: match self.bgp_attributes {
                Some(a) => Some(a@),
                None => None,
            },
        }
    }
}

/// A forwarding entry: where traffic for a prefix leaves the router.
#[derive(Debug)]
pub struct FibEntry {
    pub prefix: String,
    pub next_hop_ip: u32,
    pub out_interface_id: String,
}

pub struct FibView {
    pub prefix: Seq<char>,
    pub next_hop_ip: u32,
    pub out_interface_id: Seq<char>,
}

impl View for FibEntry {
    type V = FibView;

    open spec fn view(&self) -> FibView {
        FibView {
            prefix: self.prefix@,
            next_hop_ip: self.next_hop_ip,
            out_interface_id: self.out_interface_id@,
        }
    }
}

// ── OSPF ──

/// A router's OSPF process: its areas, link-state database and neighbors.
#[derive(Debug)]
pub struct OspfProcess {
    pub router_id: u32,
    pub areas: Vec<(u32, OspfArea)>,
    pub lsdb: Vec<(String, Lsa)>,
    pub neighbors: Vec<(String, OspfNeighbor)>,
    pub spf_pending: bool,
}

pub struct OspfView {
    pub router_id: u32,
    pub areas: Seq<(u32, AreaView)>,
    pub lsdb: Seq<(Seq<char>, LsaView)>,
    pub neighbors: Seq<(Seq<char>, OspfNeighborView)>,
    pub spf_pending: bool,
}

impl View for OspfProcess {
    type V = OspfView;

    open spec fn view(&self) -> OspfView {
        OspfView {
            router_id: self.router_id,
            areas: self.areas@.map_values(|e: (u32, OspfArea)| (e.0, e.1@)),
            lsdb: table_view(self.lsdb@),
            neighbors: table_view(self.neighbors@),
            spf_pending: self.spf_pending,
        }
    }
}

/// An OSPF area and the interfaces in it.
#[derive(Debug)]
pub struct OspfArea {
    pub area_id: u32,
    pub interface_ids: Vec<String>,
    pub is_backbone: bool,
    pub area_type: OspfAreaType,
}

pub struct AreaView {
    pub area_id: u32,
    pub interface_ids: Seq<Seq<char>>,
    pub is_backbone: bool,
    pub area_type: OspfAreaType,
}

impl View for OspfArea {
    type V = AreaView;

    open spec fn view(&self) -> AreaView {
        AreaView {
            area_id: self.area_id,
            interface_ids: strings_view(self.interface_ids@),
            is_backbone: self.is_backbone,
            area_type: self.area_type,
        }
    }
}

#[derive(Debug, Clone, Copy, PartialEq, Eq, Structural)]
pub enum OspfAreaType {
    Normal,
    Stub,
    Nssa,
}

/// An OSPF adjacency as seen from one router.
#[derive(Debug)]
pub struct OspfNeighbor {
    pub neighbor_id: u32,
    pub state: OspfNeighborState,
    pub interface_id: String,
}

pub struct OspfNeighborView {
    pub neighbor_id: u32,
    pub state: OspfNeighborState,
    pub interface_id: Seq<char>,
}

impl View for OspfNeighbor {
    type V = OspfNeighborView;

    open spec fn view(&self) -> OspfNeighborView {
        OspfNeighborView {
            neighbor_id: self.neighbor_id,
            state: self.state,
            interface_id: self.interface_id@,
        }
    }
}

#[derive(Debug, Clone, Copy, PartialEq, Eq, Structural)]
pub enum OspfNeighborState {
    Down,
    Init,
    TwoWay,
    ExStart,
    Exchange,
    Loading,
    Full,
}

/// A link-state advertisement.
#[derive(Debug)]
pub struct Lsa {
    pub lsa_type: LsaType,
    pub advertising_router: u32,
    pub link_state_id: String,
    pub sequence_number: u32,
    pub age: u16,
    pub body: LsaBody,
}

pub struct LsaView {
    pub lsa_type: LsaType,
    pub advertising_router: u32,
    pub link_state_id: Seq<char>,
    pub sequence_number: u32,
    pub age: u16,
    pub body: LsaBodyView,
}

impl View for Lsa {
    type V = LsaView;

    open spec fn view(&self) -> LsaView {
        LsaView {
            lsa_type: self.lsa_type,
            advertising_router: self.advertising_router,
            link_state_id: self.link_state_id@,
            sequence_number: self.sequence_number,
            age: self.age,
            body: self.body@,
        }
    }
}

#[derive(Debug, Clone, Copy, PartialEq, Eq, Structural)]
pub enum LsaType {
    RouterLsa,
    NetworkLsa,
    SummaryLsa,
}

/// The content of an LSA, by type.
#[derive(Debug)]
pub enum LsaBody {
    Router { links: Vec<RouterLsaLink> },
    Network { attached_routers: Vec<u32>, network_mask: Ipv4Net },
    Summary { prefix: Ipv4Net, metric: u32 },
}

pub enum LsaBodyView {
    Router { links: Seq<LsaLinkView> },
    Network { attached_routers: Seq<u32>, network_mask: Ipv4Net },
    Summary { prefix: Ipv4Net, metric: u32 },
}

impl View for LsaBody {
    type V = LsaBodyView;

    open spec fn view(&self) -> LsaBodyView {
        match self {
            LsaBody::Router { links } => LsaBodyView::Router {
                links: links@.map_values(|l: RouterLsaLink| l@),
            },
            LsaBody::Network { attached_routers, network_mask } => LsaBodyView::Network {
                attached_routers: attached_routers@,
                network_mask: *network_mask,
            },
            LsaBody::Summary { prefix, metric } => LsaBodyView::Summary {
                prefix: *prefix,
                metric: *metric,
            },
        }
    }
}

/// One link of a router LSA.
#[derive(Debug)]
pub struct RouterLsaLink {
    pub link_id: String,
    pub link_data: u32,
    pub link_type: RouterLsaLinkType,
    pub metric: u32,
}

pub struct LsaLinkView {
    pub link_id: Seq<char>,
    pub link_data: u32,
    pub link_type: RouterLsaLinkType,
    pub metric: u32,
}

impl View for RouterLsaLink {
    type V = LsaLinkView;

    open spec fn view(&self) -> LsaLinkView {
        LsaLinkView {
            link_id: self.link_id@,
            link_data: self.link_data,
            link_type: self.link_type,
            metric: self.metric,
        }
    }
}

#[derive(Debug, Clone, Copy, PartialEq, Eq, Structural)]
pub enum RouterLsaLinkType {
    PointToPoint,
    TransitNetwork,
    StubNetwork,
}

/// A route computed by SPF.
#[derive(Debug)]
pub struct SpfResult {
    pub destination: Ipv4Net,
    pub cost: u32,
    pub next_hop: u32,
    pub next_hop_interface_id: String,
}

pub struct SpfView {
    pub destination: Ipv4Net,
    pub cost: u32,
    pub next_hop: u32,
    pub next_hop_interface_id: Seq<char>,
}

impl View for SpfResult {
    type V = SpfView;

    open spec fn view(&self) -> SpfView {
        SpfView {
            destination: self.destination,
            cost: self.cost,
            next_hop: self.next_hop,
            next_hop_interface_id: self.next_hop_interface_id@,
        }
    }
}

// ── BGP processes ──

/// A router's BGP process: neighbors, candidate routes per prefix
/// (Loc-RIB) and the selected best route per prefix.
#[derive(Debug)]
pub struct BgpProcess {
    pub local_asn: u32,
    pub router_id: u32,
    pub neighbors: Vec<(String, BgpNeighbor)>,
    pub loc_rib: Vec<(String, Vec<BgpRoute>)>,
    pub best_routes: Vec<(String, BgpRoute)>,
}

pub struct BgpProcessView {
    pub local_asn: u32,
    pub router_id: u32,
    pub neighbors: Seq<(Seq<char>, NeighborView)>,
    pub loc_rib: Seq<(Seq<char>, Seq<RouteView>)>,
    pub best_routes: Seq<(Seq<char>, RouteView)>,
}

impl View for BgpProcess {
    type V = BgpProcessView;

    open spec fn view(&self) -> BgpProcessView {
        BgpProcessView {
            local_asn: self.local_asn,
            router_id: self.router_id,
            neighbors: table_view(self.neighbors@),
            loc_rib: self.loc_rib@.map_values(
                |e: (String, Vec<BgpRoute>)| (e.0@, routes_view(e.1@)),
            ),
            best_routes: table_view(self.best_routes@),
        }
    }
}

/// A BGP neighbor (peer) and the routes exchanged with it.
#[derive(Debug)]
pub struct BgpNeighbor {
    pub neighbor_ip: u32,
    pub remote_asn: u32,
    pub state: BgpSessionState,
    pub is_ebgp: bool,
    pub adj_rib_in: Vec<(String, BgpRoute)>,
    pub adj_rib_out: Vec<(String, BgpRoute)>,
    pub import_policy: Option<String>,
    pub export_policy: Option<String>,
    pub uptime_ticks: u64,
}

pub struct NeighborView {
    pub neighbor_ip: u32,
    pub remote_asn: u32,
    pub state: BgpSessionState,
    pub is_ebgp: bool,
    pub adj_rib_in: Seq<(Seq<char>, RouteView)>,
    pub adj_rib_out: Seq<(Seq<char>, RouteView)>,
    pub import_policy: Option<Seq<char>>,
    pub export_policy: Option<Seq<char>>,
    pub uptime_ticks: u64,
}

impl View for BgpNeighbor {
    type V = NeighborView;

    open spec fn view(&self) -> NeighborView {
        NeighborView {
            neighbor_ip: self.neighbor_ip,
            remote_asn: self.remote_asn,
            state: self.state,
            is_ebgp: self.is_ebgp,
            adj_rib_in: table_view(self.adj_rib_in@),
            adj_rib_out: table_view(self.adj_rib_out@),
            import_policy: opt_string_view(self.import_policy),
            export_policy: opt_string_view(self.export_policy),
            uptime_ticks: self.uptime_ticks,
        }
    }
}

// ── Traffic ──

/// A source of traffic on a router towards a destination prefix.
#[derive(Debug)]
pub struct TrafficGenerator {
    pub id: String,
    pub source_router_id: String,
    pub dest_prefix: String,
    pub rate_bps: u64,
    pub is_active: bool,
}

pub struct GeneratorView {
    pub id: Seq<char>,
    pub source_router_id: Seq<char>,
    pub dest_prefix: Seq<char>,
    pub rate_bps: u64,
    pub is_active: bool,
}

impl View for TrafficGenerator {
    type V = GeneratorView;

    open spec fn view(&self) -> GeneratorView {
        GeneratorView {
            id: self.id@,
            source_router_id: self.source_router_id@,
            dest_prefix: self.dest_prefix@,
            rate_bps: self.rate_bps,
            is_active: self.is_active,
        }
    }
}

/// The traced path of a generator's traffic: the links it crosses, and
/// whether it is dropped before reaching its destination.
#[derive(Debug)]
pub struct TrafficFlow {
    pub generator_id: String,
    pub path: Vec<String>,
    pub rate_bps: u64,
    pub is_blackholed: bool,
}

pub struct FlowView {
    pub generator_id: Seq<char>,
    pub path: Seq<Seq<char>>,
    pub rate_bps: u64,
    pub is_blackholed: bool,
}

impl View for TrafficFlow {
    type V = FlowView;

    open spec fn view(&self) -> FlowView {
        FlowView {
            generator_id: self.generator_id@,
            path: strings_view(self.path@),
            rate_bps: self.rate_bps,
            is_blackholed: self.is_blackholed,
        }
    }
}

// ── Topology container ──

/// The whole simulated network.
#[derive(Debug)]
pub struct Topology {
    pub autonomous_systems: Vec<(String, AutonomousSystem)>,
    pub standalone_routers: Vec<(String, Router)>,
    pub links: Vec<(String, Link)>,
    pub policies: Vec<(String, RoutePolicy)>,
}

pub struct TopologyView {
    pub autonomous_systems: Seq<(Seq<char>, AsView)>,
    pub standalone_routers: Seq<(Seq<char>, RouterView)>,
    pub links: Seq<(Seq<char>, LinkView)>,
    pub policies: Seq<(Seq<char>, PolicyView)>,
}

impl View for Topology {
    type V = TopologyView;

    open spec fn view(&self) -> TopologyView {
        TopologyView {
            autonomous_systems: table_view(self.autonomous_systems@),
            standalone_routers: table_view(self.standalone_routers@),
            links: table_view(self.links@),
            policies: table_view(self.policies@),
        }
    }
}


fn clone_lsa_links(links: &Vec<RouterLsaLink>) -> (r: Vec<RouterLsaLink>)
    ensures
        r@.map_values(|x: RouterLsaLink| x@) == links@.map_values(|x: RouterLsaLink| x@),
{
    let mut out: Vec<RouterLsaLink> = Vec::new();
    let mut i: usize = 0;
    while i < links.len()
        invariant
            i <= links@.len(),
            out@.map_values(|x: RouterLsaLink| x@) == links@.take(i as int).map_values(
                |x: RouterLsaLink| x@,
            ),
        decreases links@.len() - i,
    {
        let k = &links[i];
        let ghost before = out@;
        out.push(
            RouterLsaLink {
                link_id: k.link_id.clone(),
                link_data: k.link_data,
                link_type: k.link_type,
                metric: k.metric,
            },
        );
        proof {
            assert(links@.take(i + 1) =~= links@.take(i as int).push(links@[i as int]));
            assert(out@.map_values(|x: RouterLsaLink| x@) =~= before.map_values(
                |x: RouterLsaLink| x@,
            ).push(links@[i as int]@));
            assert(links@.take(i + 1).map_values(|x: RouterLsaLink| x@) =~= links@.take(
                i as int,
            ).map_values(|x: RouterLsaLink| x@).push(links@[i as int]@));
        }
        i += 1;
    }
    proof {
        assert(links@.take(links@.len() as int) =~= links@);
    }
    out
}

/// A copy of an LSA.
pub fn clone_lsa(l: &Lsa) -> (r: Lsa)
    ensures
        r@ == l@,
{
    let body = match &l.body {
        LsaBody::Router { links } => LsaBody::Router { links: clone_lsa_links(links) },
        LsaBody::Network { attached_routers, network_mask } => LsaBody::Network {
            attached_routers: clone_u32s(attached_routers),
            network_mask: *network_mask,
        },
        LsaBody::Summary { prefix, metric } => LsaBody::Summary { prefix: *prefix, metric: *metric },
    };
    Lsa {
        lsa_type: l.lsa_type,
        advertising_router: l.advertising_router,
        link_state_id: l.link_state_id.clone(),
        sequence_number: l.sequence_number,
        age: l.age,
        body,
    }
}

} // verus!
