use chronox::graph::WorldGraph;
use chronox::library::ipt;
use chronox::orders::{
    AchronalCommand, AchronalCommandTypes, ChronalCommand, ChronalCommandTypes, ClearCommand,
    TransportCommand,
};
use chronox::simulation::{HyperLane, Planet, Player, PlayerArr, Simulation};
use chronox::timeline::Timeline;
use petgraph::graph::NodeIndex;

fn empty_planet(x: i32, y: i32) -> Planet {
    Planet {
        loc: ipt(x, y),
        count: PlayerArr::new(0),
        fight_progess: PlayerArr::new(0),
        send_all: PlayerArr::new(None),
        owner: Player::PASSIVE,
        owner_strength: 64,
        max_strength: 64,
        spawn_progress: 0,
    }
}

fn line3_timeline() -> (Timeline, usize, usize, usize) {
    let mut g: WorldGraph = petgraph::graph::Graph::with_capacity(3, 2);
    let a = g.add_node(Planet::new(ipt(0, 0), Player::P1));
    let b = g.add_node(empty_planet(1000, 0));
    let c = g.add_node(empty_planet(2000, 0));
    g.add_edge(a, b, HyperLane::new());
    g.add_edge(b, c, HyperLane::new());
    (Timeline::new(Simulation::new(g)), a.index(), b.index(), c.index())
}

fn transport(time: u32, from: usize, to: usize, player: Player, percent: u8) -> AchronalCommand {
    AchronalCommand {
        player,
        event: AchronalCommandTypes::Chronal(ChronalCommand {
            time,
            target: Some(from),
            player,
            command: ChronalCommandTypes::Transport(TransportCommand { to, percent }),
        }),
    }
}

fn planet_at(tl: &Timeline, tick: u32, i: usize) -> Planet {
    let idx = (tick - tl.left_edge) as usize;
    tl.multiverse[idx].world.world[NodeIndex::<u16>::new(i)]
}

fn lane_groups(tl: &Timeline, tick: u32, e: usize) -> Vec<(u32, Player, i32)> {
    let idx = (tick - tl.left_edge) as usize;
    let sim = &tl.multiverse[idx].world;
    sim.world[petgraph::graph::EdgeIndex::<u16>::new(e)]
        .transfers
        .iter()
        .map(|g| (g.count, g.player, g.progress))
        .collect()
}

#[test]
fn new_timeline_shape() {
    let (tl, _, _, _) = line3_timeline();
    assert_eq!(tl.left_edge, 0);
    assert_eq!(tl.right_edge, 1);
    assert_eq!(tl.present, 0);
    assert_eq!(tl.multiverse.len(), 1);
    assert_eq!(tl.timewaves.len(), 1);
    assert_eq!(tl.timewaves[0].time, 0);
    assert_eq!(tl.timewaves[0].speed, 2);
    assert_eq!(*tl.chrono_energy.get(Player::P1), 450);
}

#[test]
fn chrono_cost_and_limit_formulas() {
    let (mut tl, _, _, _) = line3_timeline();
    for _ in 0..10 {
        tl.evaluate_timestep(Vec::new());
    }
    assert_eq!(tl.present, 10);
    assert_eq!(tl.chrono_cost(10), 0);
    assert_eq!(tl.chrono_cost(12), 0);
    assert_eq!(tl.chrono_cost(3), 7);
    assert_eq!(tl.chrono_energy_limit(4), 6);
    assert_eq!(tl.chrono_energy_limit(500), 0);
}

#[test]
fn energy_regenerates_to_cap() {
    let (mut tl, _, _, _) = line3_timeline();
    for _ in 0..100 {
        tl.evaluate_timestep(Vec::new());
    }
    // 450 starting energy, one point per evaluation, capped at 500
    assert_eq!(*tl.chrono_energy.get(Player::P1), 500);
}

#[test]
fn scenario_retroactive_transport_cascades() {
    let (mut tl, a, b, _) = line3_timeline();
    tl.evaluate_timestep(vec![transport(0, a, b, Player::P1, 50)]);
    // after one resimulated tick the source garrison is halved and the
    // lane holds the five units in transit
    assert_eq!(planet_at(&tl, 1, a).count.p1, 5);
    assert_eq!(lane_groups(&tl, 1, 0), vec![(5, Player::P1, 0)]);
    // the transfer list empties once the group has crossed the lane, and
    // the destination garrison has grown by five
    for _ in 0..60 {
        tl.evaluate_timestep(Vec::new());
    }
    assert_eq!(planet_at(&tl, 60, b).count.p1, 5);
    assert!(lane_groups(&tl, 60, 0).is_empty());
    assert!(lane_groups(&tl, 60, 1).is_empty());
}

#[test]
fn rewrite_cascade_changes_only_downstream_ticks() {
    let (mut tl, a, b, _) = line3_timeline();
    for _ in 0..30 {
        tl.evaluate_timestep(Vec::new());
    }
    // keep copies of a past tick and its successor
    let before_t4 = planet_at(&tl, 4, a);
    let before_t5 = planet_at(&tl, 5, a);
    let before_t20 = planet_at(&tl, 20, a);
    // inject a command into the past, at tick 5
    tl.evaluate_timestep(vec![transport(5, a, b, Player::P1, 50)]);
    // run until every downstream tick has been reswept by ambient waves
    for _ in 0..800 {
        tl.evaluate_timestep(Vec::new());
    }
    // ticks at or before the injection point kept their worlds while they
    // were retained; downstream ticks were rewritten
    assert_eq!(planet_at(&tl, 4, a), before_t4);
    assert_eq!(planet_at(&tl, 5, a), before_t5);
    let after_t20 = planet_at(&tl, 20, a);
    assert_ne!(after_t20, before_t20);
    // the rewritten history carries the halved garrison forward
    assert!(after_t20.count.p1 < before_t20.count.p1);
}

#[test]
fn energy_gate_drops_unaffordable_commands() {
    let (mut tl, a, b, _) = line3_timeline();
    for _ in 0..600 {
        tl.evaluate_timestep(Vec::new());
    }
    assert_eq!(tl.present, 600);
    assert_eq!(*tl.chrono_energy.get(Player::P1), 500);
    // cost 550 exceeds the 500 energy: silently dropped
    let unaffordable: u32 = 50;
    let commands_before = tl.multiverse[unaffordable as usize].commands.clone();
    tl.evaluate_timestep(vec![transport(unaffordable, a, b, Player::P1, 10)]);
    assert_eq!(tl.multiverse[unaffordable as usize].commands, commands_before);
    assert_eq!(*tl.chrono_energy.get(Player::P1), 500);
    // cost 201 is affordable: filed, and the cost deducted
    let affordable: u32 = 400;
    tl.evaluate_timestep(vec![transport(affordable, a, b, Player::P1, 10)]);
    assert_eq!(tl.multiverse[affordable as usize].commands.len(), 1);
    assert_eq!(*tl.chrono_energy.get(Player::P1), 299);
}

#[test]
fn clear_commands_removes_filed_orders() {
    let (mut tl, a, b, _) = line3_timeline();
    for _ in 0..20 {
        tl.evaluate_timestep(Vec::new());
    }
    tl.evaluate_timestep(vec![transport(25, a, b, Player::P1, 10)]);
    tl.evaluate_timestep(vec![transport(30, a, b, Player::P1, 10)]);
    assert_eq!(tl.multiverse[25].commands.len(), 1);
    assert_eq!(tl.multiverse[30].commands.len(), 1);
    // a clear from tick 26 onward removes only the order at tick 30
    let clear = AchronalCommand {
        player: Player::P1,
        event: AchronalCommandTypes::ClearCommands(ClearCommand { time: 26, target: a }),
    };
    tl.evaluate_timestep(vec![clear]);
    assert_eq!(tl.multiverse[25].commands.len(), 1);
    assert_eq!(tl.multiverse[30].commands.len(), 0);
}

#[test]
fn timejump_moves_only_the_players_wave() {
    let (mut tl, _, _, _) = line3_timeline();
    for _ in 0..10 {
        tl.evaluate_timestep(Vec::new());
    }
    let jump = AchronalCommand {
        player: Player::P2,
        event: AchronalCommandTypes::Timejump(4),
    };
    let p1_before = tl.player_timewaves.get(Player::P1).time;
    tl.evaluate_timestep(vec![jump]);
    // the jumping player's wave relocated (then advanced one step);
    // everyone else's advanced normally
    assert_eq!(tl.player_timewaves.get(Player::P2).time, 5);
    assert_eq!(tl.player_timewaves.get(Player::P1).time, p1_before + 1);
    let sim = tl.player_world(Player::P2);
    assert_eq!(sim.timestep, 5);
}

#[test]
fn window_widens_then_slides() {
    let (mut tl, _, _, _) = line3_timeline();
    for _ in 0..5 {
        tl.evaluate_timestep(Vec::new());
    }
    // during warm-up the left edge stays put and the right edge runs ahead
    assert_eq!(tl.left_edge, 0);
    assert_eq!(tl.right_edge, 11);
    assert_eq!(tl.present, 5);
}

#[test]
fn eviction_unreaches_old_ticks() {
    let (mut tl, _, _, _) = line3_timeline();
    for _ in 0..1010 {
        tl.evaluate_timestep(Vec::new());
    }
    // past the warm-up threshold both edges advance and old points fall off
    assert_eq!(tl.present, 1010);
    assert_eq!(tl.left_edge, 10);
    // an evicted tick is only reachable through the fallback: the oldest
    // retained statistics
    let oldest = *tl.get_metadata(tl.left_edge);
    assert_eq!(*tl.get_metadata(0), oldest);
    assert_eq!(*tl.get_metadata(5), oldest);
}

#[test]
fn get_metadata_falls_back_to_latest() {
    let (mut tl, _, _, _) = line3_timeline();
    for _ in 0..10 {
        tl.evaluate_timestep(Vec::new());
    }
    let frontier = tl.left_edge + (tl.multiverse.len() as u32) - 1;
    let latest = *tl.get_metadata(frontier);
    // a tick beyond the computed frontier reports the newest statistics
    assert_eq!(*tl.get_metadata(frontier + 100), latest);
}
