use chronox::map_loading::{Globals, LoadingMap, MapPlanet, load_map};
use chronox::simulation::{Player, Simulation};
use chronox::timeline::Timeline;
use petgraph::graph::NodeIndex;

fn planet(
    id: &str,
    x: i64,
    y: i64,
    owner: Option<i64>,
    count: Option<i64>,
    edges: Option<Vec<&str>>,
) -> MapPlanet {
    MapPlanet {
        id: id.to_string(),
        loc: vec![x, y],
        owner,
        count,
        max_strength: None,
        edges: edges.map(|es| es.into_iter().map(|e| e.to_string()).collect()),
    }
}

fn demo_map() -> LoadingMap {
    LoadingMap {
        global: Globals { map_size: vec![3000, 1000] },
        planet: vec![
            planet("alpha", 200, 500, Some(1), Some(12), None),
            planet("beta", 1500, 500, None, None, Some(vec!["alpha"])),
            planet("gamma", 2800, 500, Some(2), Some(9), Some(vec!["beta"])),
        ],
    }
}

#[test]
fn load_map_builds_planets_in_order() {
    let g = load_map(demo_map());
    assert_eq!(g.node_count(), 3);
    assert_eq!(g.edge_count(), 2);
    let alpha = &g[NodeIndex::<u16>::new(0)];
    assert_eq!(alpha.owner, Player::P1);
    assert_eq!(alpha.count.p1, 12);
    assert_eq!(alpha.loc.x, 200);
    let beta = &g[NodeIndex::<u16>::new(1)];
    assert_eq!(beta.owner, Player::PASSIVE);
    assert_eq!(beta.count.passive, 10);
    assert_eq!(beta.owner_strength, 64);
    let gamma = &g[NodeIndex::<u16>::new(2)];
    assert_eq!(gamma.owner, Player::P2);
    assert_eq!(gamma.count.p2, 9);
}

#[test]
fn load_map_wires_lanes_to_earlier_planets() {
    let g = load_map(demo_map());
    let a = NodeIndex::<u16>::new(0);
    let b = NodeIndex::<u16>::new(1);
    let c = NodeIndex::<u16>::new(2);
    assert!(g.contains_edge(b, a));
    assert!(g.contains_edge(c, b));
    assert!(!g.contains_edge(a, c));
    for e in g.edge_indices() {
        assert_eq!(g[e].length, 5000);
        assert!(g[e].transfers.is_empty());
    }
}

#[test]
fn loaded_map_drives_the_timeline() {
    let g = load_map(demo_map());
    let mut tl = Timeline::new(Simulation::new(g));
    for _ in 0..10 {
        tl.evaluate_timestep(Vec::new());
    }
    assert_eq!(tl.present, 10);
    let frontier = tl.left_edge + tl.multiverse.len() as u32 - 1;
    let md = tl.get_metadata(frontier);
    // both owners keep spawning on their own planets
    assert!(md.total_planet.p1 >= 12);
    assert!(md.total_planet.p2 >= 9);
}
