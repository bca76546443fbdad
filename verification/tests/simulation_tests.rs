use chronox::graph::WorldGraph;
use chronox::library::{ipt, dist2, Ipt};
use chronox::orders::{ChronalCommand, ChronalCommandTypes, TransportCommand, SendAllCommand};
use chronox::plain_enum::TPlainEnum;
use chronox::simulation::{
    find_sides_node, HyperLane, Planet, Player, PlayerArr, SimMetadata, Simulation,
};
use petgraph::graph::NodeIndex;

fn empty_planet(x: i32, y: i32) -> Planet {
    Planet {
        loc: ipt(x, y),
        count: PlayerArr::new(0),
        fight_progess: PlayerArr::new(0),
        send_all: PlayerArr::new(None),
        owner: Player::PASSIVE,
        owner_strength: 64,
        max_strength: 64,
        spawn_progress: 0,
    }
}

/// A three-node line A - B - C; A holds 10 units of P1.
fn line3() -> (WorldGraph, usize, usize, usize) {
    let mut g: WorldGraph = petgraph::graph::Graph::with_capacity(3, 2);
    let a = g.add_node(Planet::new(ipt(0, 0), Player::P1));
    let b = g.add_node(empty_planet(1000, 0));
    let c = g.add_node(empty_planet(2000, 0));
    g.add_edge(a, b, HyperLane::new());
    g.add_edge(b, c, HyperLane::new());
    (g, a.index(), b.index(), c.index())
}

fn node(sim: &Simulation, i: usize) -> &Planet {
    &sim.world[NodeIndex::<u16>::new(i)]
}

#[test]
fn player_enum_is_total() {
    assert_eq!(Player::size(), 3);
    let vs = Player::values();
    assert_eq!(vs, vec![Player::PASSIVE, Player::P1, Player::P2]);
    for (i, p) in vs.iter().enumerate() {
        assert!(Player::valid_usize(i));
        assert_eq!(p.to_usize(), i);
        assert_eq!(Player::from_usize(i), *p);
        assert_eq!(Player::checked_from_usize(i), Some(*p));
    }
    assert_eq!(Player::checked_from_usize(3), None);
    assert_eq!(Player::wrapped_from_usize(4), Player::P1);
    assert_eq!(Player::P2.wrapping_add(2), Player::P1);
    assert_eq!(Player::P1.wrapped_difference(Player::P2), 2);
}

#[test]
fn dist2_exact() {
    assert_eq!(dist2(&ipt(0, 0), &ipt(3, 4)), 25);
    assert_eq!(dist2(&ipt(-2, 1), &ipt(1, -3)), 25);
    assert_eq!(dist2(&ipt(7, 7), &ipt(7, 7)), 0);
}

#[test]
fn find_sides_lists_present_players() {
    let mut p = empty_planet(0, 0);
    assert_eq!(find_sides_node(&p), vec![]);
    p.count.put(Player::P2, 4);
    assert_eq!(find_sides_node(&p), vec![Player::P2]);
    p.count.put(Player::PASSIVE, 1);
    assert_eq!(find_sides_node(&p), vec![Player::PASSIVE, Player::P2]);
}

#[test]
fn spawning_carries_remainder() {
    let (g, a, _, _) = line3();
    let mut sim = Simulation::new(g);
    // spawn rate 10 against a threshold of 64: the first unit appears on
    // the seventh tick, with a remainder of 6
    for _ in 0..6 {
        let (next, _) = sim.update(&Vec::new());
        sim = next;
    }
    assert_eq!(node(&sim, a).spawn_progress, 60);
    assert_eq!(node(&sim, a).count.p1, 10);
    let (next, _) = sim.update(&Vec::new());
    assert_eq!(node(&next, a).spawn_progress, 6);
    assert_eq!(node(&next, a).count.p1, 11);
}

#[test]
fn transport_moves_half_onto_lane() {
    let (g, a, b, _) = line3();
    let sim = Simulation::new(g);
    let order = ChronalCommand {
        time: 0,
        target: Some(a),
        player: Player::P1,
        command: ChronalCommandTypes::Transport(TransportCommand { to: b, percent: 50 }),
    };
    let (next, _) = sim.update(&vec![order]);
    assert_eq!(node(&next, a).count.p1, 5);
    let lane = next.world.find_edge_undirected(
        NodeIndex::<u16>::new(a),
        NodeIndex::<u16>::new(b),
    ).unwrap().0;
    let lane = &next.world[lane];
    assert_eq!(lane.transfers.len(), 1);
    assert_eq!(lane.transfers[0].count, 5);
    assert_eq!(lane.transfers[0].player, Player::P1);
    assert_eq!(lane.transfers[0].progress, 0);
}

#[test]
fn transit_group_arrives_after_lane_length() {
    let (g, a, b, _) = line3();
    let mut sim = Simulation::new(g);
    let order = ChronalCommand {
        time: 0,
        target: Some(a),
        player: Player::P1,
        command: ChronalCommandTypes::Transport(TransportCommand { to: b, percent: 50 }),
    };
    let (next, _) = sim.update(&vec![order]);
    sim = next;
    // lane length 5000, speed 100: progress exceeds the length and the
    // group is delivered on a later tick
    for _ in 0..55 {
        let (next, _) = sim.update(&Vec::new());
        sim = next;
    }
    assert_eq!(node(&sim, b).count.p1, 5);
    for e in sim.world.edge_indices() {
        assert!(sim.world[e].transfers.is_empty());
    }
}

#[test]
fn send_all_repeats_every_fifth_tick() {
    let (g, a, b, _) = line3();
    let mut sim = Simulation::new(g);
    let order = ChronalCommand {
        time: 0,
        target: Some(a),
        player: Player::P1,
        command: ChronalCommandTypes::SendAll(SendAllCommand { to: Some(b) }),
    };
    let (next, _) = sim.update(&vec![order]);
    sim = next;
    assert_eq!(node(&sim, a).send_all.p1, Some(b));
    let mut dispatches = 0;
    for step in 1..16 {
        let (next, _) = sim.update(&Vec::new());
        sim = next;
        if step % 5 == 0 {
            // on every fifth tick the whole garrison is forwarded
            assert_eq!(node(&sim, a).count.p1, 0, "tick {}", step);
            dispatches += 1;
        }
    }
    assert_eq!(dispatches, 3);
    // the standing order stays in place across cycles
    assert_eq!(node(&sim, a).send_all.p1, Some(b));
}

#[test]
fn combat_reads_pre_iteration_snapshot() {
    let (g, a, _, _) = line3();
    let mut sim = Simulation::new(g);
    {
        let p = &mut sim.world[NodeIndex::<u16>::new(a)];
        p.owner = Player::PASSIVE;
        p.count = PlayerArr::new(0);
        p.count.put(Player::P1, 60);
        p.count.put(Player::P2, 50);
    }
    let (s1, _) = sim.update(&Vec::new());
    // first tick: accumulators load, nobody crosses the threshold of 100
    assert_eq!(node(&s1, a).count.p1, 60);
    assert_eq!(node(&s1, a).count.p2, 50);
    assert_eq!(node(&s1, a).fight_progess.p1, 60);
    assert_eq!(node(&s1, a).fight_progess.p2, 50);
    let (s2, md) = s1.update(&Vec::new());
    // second tick: 120 and 100 both cross once; each side loses one unit,
    // computed from the pre-iteration garrison counts
    assert_eq!(node(&s2, a).count.p1, 59);
    assert_eq!(node(&s2, a).count.p2, 49);
    assert_eq!(node(&s2, a).fight_progess.p1, 20);
    assert_eq!(node(&s2, a).fight_progess.p2, 0);
    assert_eq!(md.total_dead.p1, 1);
    assert_eq!(md.total_dead.p2, 1);
}

#[test]
fn combat_clamps_at_zero() {
    let (g, a, _, _) = line3();
    let mut sim = Simulation::new(g);
    {
        let p = &mut sim.world[NodeIndex::<u16>::new(a)];
        p.owner = Player::PASSIVE;
        p.count = PlayerArr::new(0);
        p.count.put(Player::P1, 500);
        p.count.put(Player::P2, 2);
        p.fight_progess.put(Player::P1, 99);
    }
    // P1 crosses the threshold five times at once; P2's two units are
    // wiped out rather than wrapping below zero
    let (s1, md) = sim.update(&Vec::new());
    assert_eq!(node(&s1, a).count.p2, 0);
    assert_eq!(node(&s1, a).count.p1, 500);
    assert_eq!(md.total_dead.p2, 2);
}

#[test]
fn update_is_deterministic() {
    let build = || {
        let (g, a, _, _) = line3();
        let mut sim = Simulation::new(g);
        sim.world[NodeIndex::<u16>::new(a)].count.put(Player::P2, 7);
        sim
    };
    let s1 = build();
    let s2 = build();
    let order = |src: usize| ChronalCommand {
        time: 0,
        target: Some(src),
        player: Player::P1,
        command: ChronalCommandTypes::Transport(TransportCommand { to: 1, percent: 30 }),
    };
    let (r1, m1) = s1.update(&vec![order(0)]);
    let (r2, m2) = s2.update(&vec![order(0)]);
    assert_eq!(m1, m2);
    assert_eq!(r1.timestep, r2.timestep);
    for i in r1.world.node_indices() {
        assert_eq!(r1.world[i], r2.world[i]);
    }
    for e in r1.world.edge_indices() {
        assert_eq!(r1.world[e].transfers, r2.world[e].transfers);
    }
}

#[test]
fn units_conserved_without_combat() {
    let total = |sim: &Simulation, q: Player| -> u64 {
        let mut t: u64 = 0;
        for i in sim.world.node_indices() {
            t += *sim.world[i].count.get(q) as u64;
        }
        for e in sim.world.edge_indices() {
            for gr in &sim.world[e].transfers {
                if gr.player == q {
                    t += gr.count as u64;
                }
            }
        }
        t
    };
    let (g, a, b, _) = line3();
    let mut sim = Simulation::new(g);
    let order = ChronalCommand {
        time: 0,
        target: Some(a),
        player: Player::P1,
        command: ChronalCommandTypes::Transport(TransportCommand { to: b, percent: 40 }),
    };
    let (next, _) = sim.update(&vec![order]);
    sim = next;
    let mut prev = total(&sim, Player::P1);
    for _ in 0..20 {
        let (next, _) = sim.update(&Vec::new());
        sim = next;
        let now = total(&sim, Player::P1);
        // non-decreasing: transit and transfers conserve, spawning adds
        assert!(now >= prev);
        assert!(now <= prev + sim.world.node_count() as u64);
        prev = now;
    }
}

#[test]
fn metadata_counts_population_and_transit() {
    let (g, a, b, _) = line3();
    let sim = Simulation::new(g);
    let order = ChronalCommand {
        time: 0,
        target: Some(a),
        player: Player::P1,
        command: ChronalCommandTypes::Transport(TransportCommand { to: b, percent: 50 }),
    };
    let (s1, md1) = sim.update(&vec![order]);
    assert_eq!(md1.total_planet.p1, 10);
    assert_eq!(md1.total_transit.p1, 0);
    let (_, md2) = s1.update(&Vec::new());
    assert_eq!(md2.total_planet.p1, 5);
    assert_eq!(md2.total_transit.p1, 5);
}

#[test]
fn check_planets_picks_nearest_within_range() {
    let (g, a, b, _) = line3();
    let sim = Simulation::new(g);
    assert_eq!(sim.check_planets(ipt(10, 10), 96), Some(a));
    assert_eq!(sim.check_planets(ipt(990, 5), 96), Some(b));
    assert_eq!(sim.check_planets(ipt(500, 0), 96), None);
    assert_eq!(sim.check_planets(ipt(5, 0), 1), None);
}

#[test]
fn zero_transfer_is_a_no_op() {
    let (g, a, b, _) = line3();
    let sim = Simulation::new(g);
    let order = ChronalCommand {
        time: 0,
        target: Some(a),
        player: Player::P2,
        command: ChronalCommandTypes::Transport(TransportCommand { to: b, percent: 50 }),
    };
    // P2 has no garrison at A: nothing moves and no group appears
    let (next, _) = sim.update(&vec![order]);
    assert_eq!(node(&next, a).count.p2, 0);
    for e in next.world.edge_indices() {
        assert!(next.world[e].transfers.is_empty());
    }
}

#[test]
fn metadata_new_is_zero() {
    let md = SimMetadata::new();
    assert_eq!(md.total_planet, PlayerArr::new(0));
    assert_eq!(md.total_dead, PlayerArr::new(0));
    assert_eq!(md.total_transit, PlayerArr::new(0));
}

#[test]
fn planet_new_garrisons_owner() {
    let p = Planet::new(Ipt { x: 3, y: 4 }, Player::P2);
    assert_eq!(p.count.p2, 10);
    assert_eq!(p.count.p1, 0);
    assert_eq!(p.owner, Player::P2);
    assert_eq!(p.owner_strength, 64);
    assert_eq!(p.max_strength, 64);
}

#[test]
fn sole_intruder_wears_down_and_captures() {
    let (g, a, _, _) = line3();
    let mut sim = Simulation::new(g);
    {
        let p = &mut sim.world[NodeIndex::<u16>::new(a)];
        p.owner = Player::PASSIVE;
        p.count = PlayerArr::new(0);
        p.count.put(Player::P2, 3);
        p.owner_strength = 2;
    }
    // two ticks wear the neutral fortification from 2 to 0; the sole
    // present player then captures the planet outright
    let (s1, _) = sim.update(&Vec::new());
    assert_eq!(node(&s1, a).owner, Player::PASSIVE);
    assert_eq!(node(&s1, a).owner_strength, 1);
    let (s2, _) = s1.update(&Vec::new());
    assert_eq!(node(&s2, a).owner, Player::P2);
    assert_eq!(node(&s2, a).owner_strength, 0);
}

#[test]
fn ousted_owner_falls_back_to_neutral_with_reset() {
    let (g, a, _, _) = line3();
    let mut sim = Simulation::new(g);
    {
        let p = &mut sim.world[NodeIndex::<u16>::new(a)];
        p.owner = Player::P1;
        p.count = PlayerArr::new(0);
        p.count.put(Player::P2, 3);
        p.owner_strength = 1;
    }
    // the owned planet first falls back to neutral, fortification reset
    // to maximum, before the intruder can start capturing it
    let (s1, _) = sim.update(&Vec::new());
    assert_eq!(node(&s1, a).owner, Player::PASSIVE);
    assert_eq!(node(&s1, a).owner_strength, 64);
}

#[test]
fn holding_owner_regenerates_fortification() {
    let (g, a, _, _) = line3();
    let mut sim = Simulation::new(g);
    {
        let p = &mut sim.world[NodeIndex::<u16>::new(a)];
        p.owner_strength = 62;
    }
    let (s1, _) = sim.update(&Vec::new());
    assert_eq!(node(&s1, a).owner_strength, 63);
    let (s2, _) = s1.update(&Vec::new());
    assert_eq!(node(&s2, a).owner_strength, 64);
    // clamped at the maximum
    let (s3, _) = s2.update(&Vec::new());
    assert_eq!(node(&s3, a).owner_strength, 64);
}
