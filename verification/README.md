# netsim

A tick-based network simulator: autonomous systems of routers joined by
links, OSPF link-state routing (LSA origination and flooding, SPF, RIB and
FIB), BGP sessions and best-path selection with import and export route
policies, traffic generators traced hop by hop through the FIBs, and a
scheduled event queue that drives each tick.

The library in `src/` is written in Verus: each public function states what
it does in its `requires`/`ensures` contract over spec functions and views,
and the `law_*` proof functions state properties that hold across calls
(for instance, that an LSA is only replaced by a newer one, that delivered
traffic crosses only links that are up, or that a route rejected by an
import policy never reaches the Loc-RIB).

- `models`, `table`, `text`, `ipv4`: the data model, keyed tables, text and
  address helpers.
- `events`, `simulation`: the event queue and the engine's tick.
- `ospf`, `spf`, `ospf_tick`: LSAs, shortest paths, adjacencies, flooding.
- `bgp`, `bgp_tick`, `policies`: sessions, best paths, route policies.
- `traffic`: flow tracing and link loads.
- `store`, `requests`, `netops`, `topology`: building and changing networks.
- `export`, `gns3`: router configurations and GNS3 project layout.

`app/` is the HTTP and WebSocket service around the library (JSON encoding,
drawing positions, link delays and utilization fractions, the tick loop).
