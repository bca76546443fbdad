//! Building the initial world graph from a parsed map description.
//!
//! Parsing the level file itself is an external concern; this module
//! receives the already-parsed description and constructs the graph,
//! proving that the result is a well-formed world.

use vstd::prelude::*;
use crate::graph::{
    WorldGraph, EdgeV, graph_nodes, graph_edges, wg_new, wg_add_node, wg_add_edge,
    MAX_GRAPH_INDEX,
};
use crate::library::{Ipt, MAX_COORD};
use crate::plain_enum::TPlainEnum;
use crate::simulation::{
    Planet, Player, PlayerArr, HyperLane, LaneV, LANE_LENGTH, world_wf, world_view, WorldV,
    connects, edge_ok, send_all_ok, edges_simple, planet_wf,
};

verus! {

/// Global map attributes.
pub struct Globals {
    pub map_size: Vec<i64>,
}

/// One planet entry of a map description; `edges` names earlier planets.
pub struct MapPlanet {
    pub id: String,
    pub loc: Vec<i64>,
    pub owner: Option<i64>,
    pub count: Option<i64>,
    pub max_strength: Option<i64>,
    pub edges: Option<Vec<String>>,
}

/// A parsed map description.
pub struct LoadingMap {
    pub global: Globals,
    pub planet: Vec<MapPlanet>,
}

/// The player a map owner number denotes.
pub open spec fn spec_player_of(v: int) -> Player {
    if v == 0 {
        Player::PASSIVE
    } else if v == 1 {
        Player::P1
    } else {
        Player::P2
    }
}

/// An option's value, or a default.
pub open spec fn or_default(o: Option<i64>, d: int) -> int {
    match o {
        Some(v) => v as int,
        None => d,
    }
}

/// The lane names of one map planet, in order.
pub open spec fn edge_names(p: MapPlanet) -> Seq<Seq<char>> {
    match p.edges {
        Some(es) => Seq::new(es@.len(), |k: int| es@[k]@),
        None => Seq::empty(),
    }
}

/// The planet a map entry builds.
pub open spec fn built_planet(p: MapPlanet) -> Planet {
    let owner = spec_player_of(or_default(p.owner, 0));
    let ms = or_default(p.max_strength, 64) as u32;
    Planet {
        loc: Ipt { x: p.loc@[0] as i32, y: p.loc@[1] as i32 },
        count: PlayerArr::new_spec(0u32).upd(owner, or_default(p.count, 10) as u32),
        fight_progess: PlayerArr::new_spec(0u32),
        send_all: PlayerArr::new_spec(Option::<usize>::None),
        owner,
        owner_strength: ms,
        max_strength: ms,
        spawn_progress: 0,
    }
}

/// The nodes built from the first `i` map planets.
pub open spec fn built_nodes(planets: Seq<MapPlanet>, i: int) -> Seq<Planet> {
    Seq::new(i as nat, |j: int| built_planet(planets[j]))
}

/// The index of the earlier planet a lane name refers to.
pub open spec fn ref_index(planets: Seq<MapPlanet>, name: Seq<char>, i: int) -> int {
    choose|j: int| 0 <= j < i && planets[j].id@ == name
}

/// A fresh, empty lane view of the default length.
pub open spec fn empty_lane() -> LaneV {
    LaneV { length: LANE_LENGTH, transfers: Seq::empty() }
}

/// The first `k` lanes of map planet `i`, in order.
pub open spec fn built_edges_for(planets: Seq<MapPlanet>, i: int, k: int) -> Seq<EdgeV>
    decreases k,
{
    if k <= 0 {
        Seq::empty()
    } else {
        built_edges_for(planets, i, k - 1).push(
            EdgeV {
                a: i as usize,
                b: ref_index(planets, edge_names(planets[i])[k - 1], i) as usize,
                lane: empty_lane(),
            },
        )
    }
}

/// The lanes of the first `i` map planets, in order.
pub open spec fn built_edges(planets: Seq<MapPlanet>, i: int) -> Seq<EdgeV>
    decreases i,
{
    if i <= 0 {
        Seq::empty()
    } else {
        built_edges(planets, i - 1) + built_edges_for(
            planets,
            i - 1,
            edge_names(planets[i - 1]).len() as int,
        )
    }
}

/// Admissibility of a map description: bounded sizes, in-range values,
/// unique ids, and lane names that refer to distinct earlier planets.
pub open spec fn map_wf(planets: Seq<MapPlanet>) -> bool {
    &&& planets.len() <= MAX_GRAPH_INDEX
    &&& built_edges(planets, planets.len() as int).len() <= MAX_GRAPH_INDEX
    &&& forall|i: int|
        0 <= i < planets.len() ==> {
            let p = #[trigger] planets[i];
            &&& p.loc@.len() == 2
            &&& -MAX_COORD <= p.loc@[0] <= MAX_COORD
            &&& -MAX_COORD <= p.loc@[1] <= MAX_COORD
            &&& 0 <= or_default(p.owner, 0) < 3
            &&& 0 <= or_default(p.count, 10) <= u32::MAX
            &&& 0 <= or_default(p.max_strength, 64) <= u32::MAX
        }
    &&& forall|i: int, j: int|
        0 <= i < j < planets.len() ==> (#[trigger] planets[i]).id@ != (#[trigger] planets[j]).id@
    &&& forall|i: int, k: int|
        0 <= i < planets.len() && 0 <= k < edge_names(planets[i]).len() ==> exists|j: int|
            0 <= j < i && (#[trigger] planets[j]).id@ == #[trigger] edge_names(planets[i])[k]
    &&& forall|i: int, k1: int, k2: int|
        0 <= i < planets.len() && 0 <= k1 < k2 < edge_names(planets[i]).len()
            ==> #[trigger] edge_names(planets[i])[k1] != #[trigger] edge_names(planets[i])[k2]
}

/// The reference index is the unique earlier planet carrying the name.
proof fn lemma_ref_index(planets: Seq<MapPlanet>, name: Seq<char>, i: int)
    requires
        i <= planets.len(),
        forall|i2: int, j2: int|
            0 <= i2 < j2 < planets.len() ==> (#[trigger] planets[i2]).id@ != (
            #[trigger] planets[j2]).id@,
        exists|j: int| 0 <= j < i && (#[trigger] planets[j]).id@ == name,
    ensures
        0 <= ref_index(planets, name, i) < i,
        planets[ref_index(planets, name, i)].id@ == name,
        forall|j: int| 0 <= j < i && (#[trigger] planets[j]).id@ == name ==> j == ref_index(
            planets,
            name,
            i,
        ),
{
    let r = ref_index(planets, name, i);
    assert(0 <= r < i && planets[r].id@ == name);
}

/// Every built lane runs from its source planet back to a strictly
/// earlier one, carrying an empty default lane.
proof fn lemma_built_edges_shape(planets: Seq<MapPlanet>, i: int)
    requires
        map_wf(planets),
        0 <= i <= planets.len(),
    ensures
        forall|e: int|
            0 <= e < built_edges(planets, i).len() ==> {
                let ed = #[trigger] built_edges(planets, i)[e];
                ed.b < ed.a < i && ed.lane == empty_lane()
            },
    decreases i,
{
    if i > 0 {
        lemma_built_edges_shape(planets, i - 1);
        let names = edge_names(planets[i - 1]);
        lemma_built_edges_for_shape(planets, i - 1, names.len() as int);
        let pre = built_edges(planets, i - 1);
        let cur = built_edges(planets, i);
        assert forall|e: int| 0 <= e < cur.len() implies {
            let ed = #[trigger] cur[e];
            ed.b < ed.a < i && ed.lane == empty_lane()
        } by {
            if e < pre.len() {
                assert(cur[e] == pre[e]);
            } else {
                assert(cur[e] == built_edges_for(planets, i - 1, names.len() as int)[e
                    - pre.len()]);
            }
        }
    }
}

/// Shape of the lanes of a single planet.
proof fn lemma_built_edges_for_shape(planets: Seq<MapPlanet>, i: int, k: int)
    requires
        map_wf(planets),
        0 <= i < planets.len(),
        0 <= k <= edge_names(planets[i]).len(),
    ensures
        built_edges_for(planets, i, k).len() == k,
        forall|e: int|
            0 <= e < k ==> {
                let ed = #[trigger] built_edges_for(planets, i, k)[e];
                &&& ed.a == i
                &&& ed.b == ref_index(planets, edge_names(planets[i])[e], i)
                &&& ed.b < i
                &&& ed.lane == empty_lane()
            },
    decreases k,
{
    if k > 0 {
        lemma_built_edges_for_shape(planets, i, k - 1);
        lemma_ref_index(planets, edge_names(planets[i])[k - 1], i);
    }
}

/// A well-formed map builds a well-formed world.
proof fn lemma_built_world_wf(planets: Seq<MapPlanet>, i: int, k: int)
    requires
        map_wf(planets),
        0 <= i < planets.len() ==> 0 <= k <= edge_names(planets[i]).len(),
        i == planets.len() ==> k == 0,
        0 <= i <= planets.len(),
    ensures
        ({
            let w = WorldV {
                nodes: built_nodes(planets, planets.len() as int),
                edges: built_edges(planets, i) + built_edges_for(planets, i, k),
            };
            world_wf(w)
        }),
    decreases i, k,
{
    let n = planets.len() as int;
    let nodes = built_nodes(planets, n);
    let edges = built_edges(planets, i) + built_edges_for(planets, i, k);
    let w = WorldV { nodes, edges };
    lemma_built_edges_shape(planets, i);
    if i < planets.len() {
        lemma_built_edges_for_shape(planets, i, k);
    }
    assert forall|j: int| 0 <= j < nodes.len() implies planet_wf(#[trigger] nodes[j]) by {
        assert(nodes[j] == built_planet(planets[j]));
    }
    assert forall|e: int| 0 <= e < edges.len() implies edge_ok(w, #[trigger] edges[e]) by {
        if e < built_edges(planets, i).len() {
            assert(edges[e] == built_edges(planets, i)[e]);
        } else {
            assert(edges[e] == built_edges_for(planets, i, k)[e - built_edges(planets, i).len()]);
        }
    }
    assert(edges_simple(edges)) by {
        let pre = built_edges(planets, i);
        assert forall|e1: int, e2: int|
            0 <= e1 < edges.len() && 0 <= e2 < edges.len() && e1 != e2 implies !connects(
            #[trigger] edges[e2],
            (#[trigger] edges[e1]).a as int,
            edges[e1].b as int,
        ) by {
            lemma_pair_distinct(planets, i, k, e1, e2);
        }
    }
    assert forall|j: int, q: Player| 0 <= j < nodes.len() implies #[trigger] send_all_ok(
        w,
        j,
        q,
    ) by {
        assert(nodes[j] == built_planet(planets[j]));
        assert(nodes[j].send_all.sel(q) == Option::<usize>::None);
    }
}

/// No two built lanes join the same pair of planets.
proof fn lemma_pair_distinct(planets: Seq<MapPlanet>, i: int, k: int, e1: int, e2: int)
    requires
        map_wf(planets),
        0 <= i <= planets.len(),
        0 <= i < planets.len() ==> 0 <= k <= edge_names(planets[i]).len(),
        i == planets.len() ==> k == 0,
        0 <= e1 < built_edges(planets, i).len() + k,
        0 <= e2 < built_edges(planets, i).len() + k,
        e1 != e2,
    ensures
        ({
            let edges = built_edges(planets, i) + built_edges_for(planets, i, k);
            !connects(edges[e2], edges[e1].a as int, edges[e1].b as int)
        }),
    decreases i, k,
{
    let pre = built_edges(planets, i);
    let edges = pre + built_edges_for(planets, i, k);
    lemma_built_edges_shape(planets, i);
    if i < planets.len() {
        lemma_built_edges_for_shape(planets, i, k);
    }
    if e1 >= pre.len() && e2 >= pre.len() {
        // two lanes of the same planet: distinct names refer to distinct
        // earlier planets
        let n1 = edge_names(planets[i])[e1 - pre.len()];
        let n2 = edge_names(planets[i])[e2 - pre.len()];
        lemma_ref_index(planets, n1, i);
        lemma_ref_index(planets, n2, i);
        assert(n1 != n2);
        if ref_index(planets, n1, i) == ref_index(planets, n2, i) {
            assert(planets[ref_index(planets, n1, i)].id@ == n1);
            assert(planets[ref_index(planets, n2, i)].id@ == n2);
            assert(false);
        }
        assert(edges[e1].a == i && edges[e2].a == i);
        assert(edges[e1].b < i && edges[e2].b < i);
    } else if e1 < pre.len() && e2 < pre.len() {
        if i > 0 {
            let names = edge_names(planets[i - 1]);
            assert(pre =~= built_edges(planets, i - 1) + built_edges_for(
                planets,
                i - 1,
                names.len() as int,
            ));
            assert(edges[e1] == pre[e1] && edges[e2] == pre[e2]);
            lemma_built_edges_for_shape(planets, i - 1, names.len() as int);
            lemma_pair_distinct(planets, i - 1, names.len() as int, e1, e2);
            let inner = built_edges(planets, i - 1) + built_edges_for(
                planets,
                i - 1,
                names.len() as int,
            );
            assert(inner[e1] == pre[e1] && inner[e2] == pre[e2]);
        }
    } else {
        // one lane of planet i, one of an earlier planet: the earlier
        // lane's endpoints both lie below i
        if e1 < pre.len() {
            assert(edges[e1].b < edges[e1].a < i);
            assert(edges[e2].a == i && edges[e2].b < i);
        } else {
            assert(edges[e1].a == i && edges[e1].b < i);
            assert(edges[e2].b < edges[e2].a < i);
        }
    }
}

/// Looks a planet name up among the already-added ids.
fn find_id(ids: &Vec<String>, name: &String) -> (r: Option<usize>)
    ensures
        match r {
            Some(j) => j < ids@.len() && ids@[j as int]@ == name@,
            None => forall|j: int| 0 <= j < ids@.len() ==> (#[trigger] ids@[j])@ != name@,
        },
{
    let mut j: usize = 0;
    while j < ids.len()
        invariant
            j <= ids@.len(),
            forall|t: int| 0 <= t < j ==> (#[trigger] ids@[t])@ != name@,
        decreases ids@.len() - j,
    {
        if ids[j].eq(name) {
            return Some(j);
        }
        j = j + 1;
    }
    None
}

/// Builds the world graph a map description denotes: one planet per
/// entry, in order, and one default lane per named earlier planet, in
/// order. The result is a well-formed world.
#[verifier::loop_isolation(false)]
pub fn load_map(map: LoadingMap) -> (r: WorldGraph)
    requires
        map_wf(map.planet@),
    ensures
        graph_nodes(r) == built_nodes(map.planet@, map.planet@.len() as int),
        graph_edges(r) == built_edges(map.planet@, map.planet@.len() as int),
        world_wf(world_view(r)),
{
    let ghost planets = map.planet@;
    let mut g = wg_new();
    let mut ids: Vec<String> = Vec::new();
    let n = map.planet.len();
    let mut i: usize = 0;
    while i < n
        invariant
            i <= n,
            graph_nodes(g) == built_nodes(planets, i as int),
            graph_edges(g) == built_edges(planets, i as int),
            ids@.len() == i,
            forall|t: int| 0 <= t < i ==> (#[trigger] ids@[t])@ == planets[t].id@,
        decreases n - i,
    {
        let p = &map.planet[i];
        let owner_num: i64 = match p.owner {
            Some(v) => v,
            None => 0,
        };
        let owner = Player::from_usize(owner_num as usize);
        proof {
            assert(owner == spec_player_of(or_default(p.owner, 0)));
        }
        let ms: u32 = (match p.max_strength {
            Some(v) => v,
            None => 64,
        }) as u32;
        let cnt: u32 = (match p.count {
            Some(v) => v,
            None => 10,
        }) as u32;
        let mut count: PlayerArr<u32> = PlayerArr::new(0);
        count.put(owner, cnt);
        let node = Planet {
            loc: crate::library::ipt(p.loc[0] as i32, p.loc[1] as i32),
            count,
            fight_progess: PlayerArr::new(0),
            send_all: PlayerArr::new(None),
            owner,
            owner_strength: ms,
            max_strength: ms,
            spawn_progress: 0,
        };
        proof {
            assert(node == built_planet(planets[i as int]));
            assert(graph_nodes(g).len() < MAX_GRAPH_INDEX);
        }
        let ind = wg_add_node(&mut g, node);
        proof {
            assert(graph_nodes(g) =~= built_nodes(planets, i as int + 1));
            assert(built_edges_for(planets, i as int, 0) =~= Seq::empty());
            assert(graph_edges(g) =~= built_edges(planets, i as int) + built_edges_for(
                planets,
                i as int,
                0,
            ));
        }
        match &p.edges {
            Some(es) => {
                let ecount = es.len();
                proof {
                    assert(edge_names(planets[i as int]).len() == ecount);
                }
                let mut k: usize = 0;
                while k < ecount
                    invariant
                        k <= ecount,
                        graph_nodes(g) == built_nodes(planets, i as int + 1),
                        graph_edges(g) == built_edges(planets, i as int) + built_edges_for(
                            planets,
                            i as int,
                            k as int,
                        ),
                        ind == i,
                        es@ == (match planets[i as int].edges {
                            Some(v) => v@,
                            None => Seq::<String>::empty(),
                        }),
                    decreases ecount - k,
                {
                    let name = &es[k];
                    proof {
                        assert(name@ == edge_names(planets[i as int])[k as int]);
                    }
                    let found = find_id(&ids, name);
                    let other: usize = match found {
                        Some(j) => j,
                        None => {
                            proof {
                                lemma_ref_index(planets, name@, i as int);
                                let jr = ref_index(planets, name@, i as int);
                                assert(ids@[jr]@ == name@);
                                assert(false);
                            }
                            0
                        },
                    };
                    proof {
                        lemma_ref_index(planets, name@, i as int);
                        assert(other as int == ref_index(planets, name@, i as int));
                        lemma_built_edges_shape(planets, planets.len() as int);
                        lemma_built_edges_for_shape(planets, i as int, k as int);
                        lemma_edge_budget(planets, i as int, k as int + 1);
                    }
                    let lane = HyperLane::new();
                    proof {
                        assert(lane@ == empty_lane());
                    }
                    let added = wg_add_edge(&mut g, ind, other, lane);
                    k = k + 1;
                    proof {
                        assert(graph_edges(g) =~= built_edges(planets, i as int)
                            + built_edges_for(planets, i as int, k as int));
                    }
                }
            },
            None => {
                proof {
                    assert(edge_names(planets[i as int]).len() == 0);
                }
            },
        }
        ids.push(p.id.clone());
        i = i + 1;
        proof {
            assert(graph_edges(g) =~= built_edges(planets, i as int));
        }
    }
    proof {
        lemma_built_world_wf(planets, planets.len() as int, 0);
        assert(built_edges(planets, planets.len() as int) + built_edges_for(
            planets,
            planets.len() as int,
            0,
        ) =~= built_edges(planets, planets.len() as int));
    }
    g
}

/// A partially built edge list stays within the index budget.
proof fn lemma_edge_budget(planets: Seq<MapPlanet>, i: int, k: int)
    requires
        map_wf(planets),
        0 <= i < planets.len(),
        0 <= k <= edge_names(planets[i]).len(),
    ensures
        built_edges(planets, i).len() + k <= built_edges(planets, planets.len() as int).len(),
{
    lemma_edge_budget_step(planets, i + 1, planets.len() as int);
    lemma_built_edges_for_shape(planets, i, k);
    lemma_built_edges_for_shape(planets, i, edge_names(planets[i]).len() as int);
}

/// Edge lists of longer prefixes are no shorter.
proof fn lemma_edge_budget_step(planets: Seq<MapPlanet>, i1: int, i2: int)
    requires
        0 <= i1 <= i2,
    ensures
        built_edges(planets, i1).len() <= built_edges(planets, i2).len(),
    decreases i2 - i1,
{
    if i1 < i2 {
        lemma_edge_budget_step(planets, i1, i2 - 1);
    }
}

} // verus!
