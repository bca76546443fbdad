//! The Timeline scheduler: a sliding window of historical snapshots,
//! time-targeted command admission under an energy budget, and the
//! deterministic resimulation cascade.
//!
//! Every mutation of the timeline is specified by pure spec functions over
//! the timeline view (`eval_spec` and its phases); `evaluate_timestep` is
//! proved to compute exactly that function.

use vstd::prelude::*;
use crate::orders::{ChronalTime, ChronalCommand, AchronalCommand, AchronalCommandTypes};
use crate::simulation::{
    Planet, PlayerArr, Player, SimMetadata, Simulation, sim_wf, world_view, world_wf, WorldV,
    same_topo, order_ok, sim_step_world, sim_step_meta, lemma_same_topo_trans, lemma_order_ok_topo,
};
use crate::graph::{EdgeV, graph_nodes, graph_edges, wg_new};

verus! {

/// Hard cap on a player's time-travel energy.
pub const MAX_CHRONOENERGY: u16 = 500;

/// Evaluations before the window stops widening and starts sliding.
pub const WARMUP_PRESENT: u32 = 1000;

/// One tick's snapshot plus the commands filed against it and its cached
/// statistics.
pub struct TimePoint {
    pub world: Simulation,
    pub commands: Vec<ChronalCommand>,
    pub metadata: SimMetadata,
}

/// Mathematical view of a time point.
pub ghost struct TimePointV {
    pub nodes: Seq<Planet>,
    pub edges: Seq<EdgeV>,
    pub timestep: u32,
    pub commands: Seq<ChronalCommand>,
    pub metadata: SimMetadata,
}

impl View for TimePoint {
    type V = TimePointV;

    open spec fn view(&self) -> TimePointV {
        TimePointV {
            nodes: graph_nodes(self.world.world),
            edges: graph_edges(self.world.world),
            timestep: self.world.timestep,
            commands: self.commands@,
            metadata: self.metadata,
        }
    }
}

/// The world a time point holds.
pub open spec fn tp_world(tp: TimePointV) -> WorldV {
    WorldV { nodes: tp.nodes, edges: tp.edges }
}

/// A moving cursor over ticks marking a resimulation or viewing frontier.
#[derive(Copy, Clone, PartialEq, Eq, Structural, Debug)]
pub struct Timewave {
    pub time: ChronalTime,
    pub speed: u8,
}

/// The timeline: an ordered sliding window of time points, ambient and
/// per-player timewaves, and the per-player time-travel energy budget.
pub struct Timeline {
    pub multiverse: Vec<TimePoint>,
    pub left_edge: ChronalTime,
    pub right_edge: ChronalTime,
    pub present: ChronalTime,
    pub timewaves: Vec<Timewave>,
    pub player_timewaves: PlayerArr<Timewave>,
    pub chrono_energy: PlayerArr<u16>,
    pub next_wave: i64,
}

/// Mathematical view of the timeline.
pub ghost struct TimelineV {
    pub points: Seq<TimePointV>,
    pub left: u32,
    pub right: u32,
    pub present: u32,
    pub waves: Seq<Timewave>,
    pub player_waves: PlayerArr<Timewave>,
    pub energy: PlayerArr<u16>,
    pub next_wave: i64,
}

impl View for Timeline {
    type V = TimelineV;

    open spec fn view(&self) -> TimelineV {
        TimelineV {
            points: self.multiverse@.map_values(|tp: TimePoint| tp@),
            left: self.left_edge,
            right: self.right_edge,
            present: self.present,
            waves: self.timewaves@,
            player_waves: self.player_timewaves,
            energy: self.chrono_energy,
            next_wave: self.next_wave,
        }
    }
}

/// Well-formedness of the time point at window offset `i`: its timestep
/// matches its slot, its world is well-formed with the same topology as
/// the window's oldest snapshot, and every filed command is admissible
/// and addressed to this very tick.
pub open spec fn tp_wf(t: TimelineV, i: int) -> bool {
    let tp = t.points[i];
    &&& tp.timestep == t.left + i
    &&& world_wf(tp_world(tp))
    &&& same_topo(tp_world(t.points[0]), tp_world(tp))
    &&& forall|k: int|
        0 <= k < tp.commands.len() ==> order_ok(tp_world(tp), #[trigger] tp.commands[k])
            && tp.commands[k].time == tp.timestep
}

/// A wave sits inside the retained window and moves at a positive speed.
pub open spec fn wave_wf(t: TimelineV, w: Timewave) -> bool {
    &&& t.left <= w.time
    &&& w.time - t.left < t.points.len()
    &&& w.speed >= 1
}

/// Between evaluations every wave sits strictly ahead of the left edge
/// (except in the freshly constructed timeline).
pub open spec fn waves_ahead(t: TimelineV) -> bool {
    t.present > 0 ==> (forall|i: int| 0 <= i < t.waves.len() ==> (#[trigger] t.waves[i]).time > t.left)
        && t.player_waves.sel(Player::PASSIVE).time > t.left && t.player_waves.sel(
        Player::P1,
    ).time > t.left && t.player_waves.sel(Player::P2).time > t.left
}

/// The core invariant of the timeline window, waves and budget.
pub open spec fn core_wf(t: TimelineV) -> bool {
    &&& t.points.len() >= 1
    &&& t.left + t.points.len() <= t.right
    &&& (if t.present < WARMUP_PRESENT {
        t.left == 0
    } else {
        t.left == t.present - WARMUP_PRESENT
    })
    &&& forall|i: int| 0 <= i < t.points.len() ==> #[trigger] tp_wf(t, i)
    &&& forall|i: int| 0 <= i < t.waves.len() ==> wave_wf(t, #[trigger] t.waves[i])
    &&& wave_wf(t, t.player_waves.sel(Player::PASSIVE))
    &&& wave_wf(t, t.player_waves.sel(Player::P1))
    &&& wave_wf(t, t.player_waves.sel(Player::P2))
    &&& -40 <= t.next_wave <= t.left as int
}

/// Full well-formedness between evaluations.
pub open spec fn timeline_wf(t: TimelineV) -> bool {
    core_wf(t) && waves_ahead(t)
}

/// The energy cost of addressing tick `time` while the present is
/// `present`: one point per tick of distance into the past.
pub open spec fn cost_of(present: u32, time: u32) -> int {
    if time < present {
        present - time
    } else {
        0
    }
}

impl Timeline {
    /// A fresh timeline holding `starting` as tick 0, with one ambient
    /// wave at the right edge and full starting budgets.
    pub fn new(starting: Simulation) -> (r: Timeline)
        requires
            sim_wf(starting),
            starting.timestep == 0,
        ensures
            r@.left == 0,
            r@.right == 1,
            r@.present == 0,
            r@.points.len() == 1,
            r@.points[0].nodes == graph_nodes(starting.world),
            r@.points[0].edges == graph_edges(starting.world),
            r@.points[0].timestep == 0,
            r@.points[0].commands == Seq::<ChronalCommand>::empty(),
            r@.points[0].metadata == SimMetadata::spec_init(),
            r@.waves == seq![Timewave { time: 0u32, speed: 2u8 }],
            r@.player_waves == PlayerArr::new_spec(Timewave { time: 0u32, speed: 1u8 }),
            r@.energy == PlayerArr::new_spec(450u16),
            r@.next_wave == -1,
            timeline_wf(r@),
    {
        let mut multiverse: Vec<TimePoint> = Vec::new();
        let timepoint = TimePoint {
            commands: Vec::new(),
            world: starting,
            metadata: SimMetadata::new(),
        };
        multiverse.push(timepoint);
        let mut timewaves: Vec<Timewave> = Vec::new();
        timewaves.push(Timewave { time: 0, speed: 2 });
        let player_timewaves = PlayerArr::new(Timewave { time: 0, speed: 1 });
        let chrono_energy = PlayerArr::new(450u16);
        let r = Timeline {
            multiverse,
            left_edge: 0,
            right_edge: 1,
            present: 0,
            timewaves,
            player_timewaves,
            chrono_energy,
            next_wave: -1,
        };
        proof {
            assert(r@.points =~= seq![r.multiverse@[0]@]);
            assert(r@.waves =~= seq![Timewave { time: 0u32, speed: 2u8 }]);
            assert(tp_wf(r@, 0)) by {
                assert(same_topo(tp_world(r@.points[0]), tp_world(r@.points[0])));
            }
        }
        r
    }

    /// Whether tick `time` is retained in the window.
    fn exists_time(&self, time: ChronalTime) -> (r: bool)
        requires
            time >= self.left_edge,
        ensures
            r <==> time - self@.left < self@.points.len(),
    {
        let index = (time - self.left_edge) as usize;
        index < self.multiverse.len()
    }

    /// The cached statistics for `time`, falling back to the nearest
    /// earlier retained tick — or the oldest retained one — when `time`
    /// was evicted or not yet computed.
    pub fn get_metadata(&self, time: ChronalTime) -> (r: &SimMetadata)
        requires
            self@.points.len() >= 1,
        ensures
            *r == self@.points[
                if time <= self@.left {
                    0
                } else if time - self@.left < self@.points.len() {
                    time - self@.left
                } else {
                    self@.points.len() - 1
                }
            ].metadata,
    {
        let idx: usize = if time <= self.left_edge {
            0
        } else {
            let off = (time - self.left_edge) as usize;
            if off < self.multiverse.len() {
                off
            } else {
                self.multiverse.len() - 1
            }
        };
        &self.multiverse[idx].metadata
    }

    /// The energy cost of addressing tick `time` now.
    pub fn chrono_cost(&self, time: ChronalTime) -> (r: u16)
        requires
            self@.present - time <= u16::MAX,
        ensures
            r == cost_of(self@.present, time),
    {
        if time < self.present {
            (self.present - time) as u16
        } else {
            0
        }
    }

    /// The earliest tick affordable with `energy` points.
    pub fn chrono_energy_limit(&self, energy: u16) -> (r: ChronalTime)
        ensures
            r == if self@.present > energy {
                self@.present - energy
            } else {
                0
            },
    {
        if self.present > energy as ChronalTime {
            self.present - energy as ChronalTime
        } else {
            0
        }
    }

    /// The snapshot at `player`'s current timewave tick.
    pub fn player_world(&self, player: Player) -> (r: &Simulation)
        requires
            core_wf(self@),
        ensures
            graph_nodes(r.world) == self@.points[self@.player_waves.sel(player).time
                - self@.left].nodes,
            graph_edges(r.world) == self@.points[self@.player_waves.sel(player).time
                - self@.left].edges,
            r.timestep == self@.points[self@.player_waves.sel(player).time - self@.left].timestep,
            sim_wf(*r),
    {
        proof {
            assert(wave_wf(self@, self@.player_waves.sel(player))) by {
                match player {
                    Player::PASSIVE => {},
                    Player::P1 => {},
                    Player::P2 => {},
                }
            }
        }
        let wave = *self.player_timewaves.get(player);
        let idx = (wave.time - self.left_edge) as usize;
        proof {
            assert(tp_wf(self@, idx as int));
        }
        &self.multiverse[idx].world
    }
}

/// One player's energy after regeneration: one point, up to the cap.
pub open spec fn regen_one(e: u16) -> u16 {
    if e < MAX_CHRONOENERGY {
        (e + 1) as u16
    } else {
        e
    }
}

/// The energy-regeneration phase.
pub open spec fn regen_spec(t: TimelineV) -> TimelineV {
    TimelineV {
        energy: PlayerArr {
            passive: regen_one(t.energy.passive),
            p1: regen_one(t.energy.p1),
            p2: regen_one(t.energy.p2),
        },
        ..t
    }
}

/// The commands that survive a clear by player `q` against node `target`.
pub open spec fn retained_commands(s: Seq<ChronalCommand>, q: Player, target: usize) -> Seq<
    ChronalCommand,
>
    decreases s.len(),
{
    if s.len() == 0 {
        Seq::empty()
    } else {
        retained_commands(s.drop_last(), q, target) + (if s.last().player == q && s.last().target
            == Some(target) {
            Seq::empty()
        } else {
            seq![s.last()]
        })
    }
}

/// The window with every point from offset `from` on cleared of `q`'s
/// commands against `target`.
pub open spec fn clear_points(points: Seq<TimePointV>, from: int, q: Player, target: usize) -> Seq<
    TimePointV,
> {
    Seq::new(
        points.len(),
        |j: int|
            if j >= from {
                TimePointV {
                    commands: retained_commands(points[j].commands, q, target),
                    ..points[j]
                }
            } else {
                points[j]
            },
    )
}

/// Admission of one batch entry: a world order is filed against its tick
/// if the issuer's energy strictly exceeds its cost (which is then
/// deducted), a time jump relocates the issuer's personal wave for free,
/// and a clear removes the issuer's filed orders against one node from
/// its tick through the right edge, under the same cost gate.
pub open spec fn admit_one(t: TimelineV, o: AchronalCommand) -> TimelineV {
    match o.event {
        AchronalCommandTypes::Chronal(data) => {
            let cost = cost_of(t.present, data.time);
            if cost < t.energy.sel(o.player) {
                let i = data.time - t.left;
                TimelineV {
                    energy: t.energy.upd(o.player, (t.energy.sel(o.player) - cost) as u16),
                    points: t.points.update(
                        i,
                        TimePointV { commands: t.points[i].commands.push(data), ..t.points[i] },
                    ),
                    ..t
                }
            } else {
                t
            }
        },
        AchronalCommandTypes::Timejump(tm) => TimelineV {
            player_waves: t.player_waves.upd(
                o.player,
                Timewave { time: tm, speed: t.player_waves.sel(o.player).speed },
            ),
            ..t
        },
        AchronalCommandTypes::ClearCommands(data) => {
            let cost = cost_of(t.present, data.time);
            if cost < t.energy.sel(o.player) {
                TimelineV {
                    energy: t.energy.upd(o.player, (t.energy.sel(o.player) - cost) as u16),
                    points: clear_points(t.points, data.time - t.left, o.player, data.target),
                    ..t
                }
            } else {
                t
            }
        },
    }
}

/// Admission of the first `k` batch entries, in batch order.
pub open spec fn admit_fold(t: TimelineV, cmds: Seq<AchronalCommand>, k: int) -> TimelineV
    decreases k,
{
    if k <= 0 {
        t
    } else {
        admit_one(admit_fold(t, cmds, k - 1), cmds[k - 1])
    }
}

/// Admissibility of one batch entry against the timeline: world orders
/// and clears must address a retained tick (and a world order must be
/// admissible against that tick's world and carry its tick); a time jump
/// must land inside the window, past the left edge.
pub open spec fn batch_ok(t: TimelineV, o: AchronalCommand) -> bool {
    match o.event {
        AchronalCommandTypes::Chronal(data) => {
            &&& t.left <= data.time
            &&& data.time - t.left < t.points.len()
            &&& order_ok(tp_world(t.points[data.time - t.left]), data)
        },
        AchronalCommandTypes::Timejump(tm) => t.left < tm && tm - t.left < t.points.len(),
        AchronalCommandTypes::ClearCommands(data) => {
            &&& t.left <= data.time
            &&& data.time - t.left < t.points.len()
        },
    }
}

/// The window-growth phase: while warming up the right edge advances by
/// two and the window widens; afterwards both edges advance by one and
/// the point behind the left edge is evicted. The present then advances.
pub open spec fn window_spec(t: TimelineV) -> TimelineV {
    if t.present < WARMUP_PRESENT {
        TimelineV { right: (t.right + 2) as u32, present: (t.present + 1) as u32, ..t }
    } else {
        TimelineV {
            right: (t.right + 1) as u32,
            left: (t.left + 1) as u32,
            present: (t.present + 1) as u32,
            points: t.points.drop_first(),
            ..t
        }
    }
}

/// The ambient-wave spawn phase: on a periodic countdown, a fresh wave
/// appears at the left edge.
pub open spec fn spawn_spec(t: TimelineV) -> TimelineV {
    let nw = t.next_wave + 3;
    if (t.left as int) < nw {
        TimelineV {
            next_wave: (nw - 40) as i64,
            waves: seq![Timewave { time: t.left, speed: 3u8 }] + t.waves,
            ..t
        }
    } else {
        TimelineV { next_wave: nw as i64, ..t }
    }
}

/// Every retained command was among the originals.
proof fn lemma_retained_sub(s: Seq<ChronalCommand>, q: Player, target: usize)
    ensures
        forall|k: int|
            0 <= k < retained_commands(s, q, target).len() ==> exists|j: int|
                0 <= j < s.len() && #[trigger] retained_commands(s, q, target)[k] == s[j],
    decreases s.len(),
{
    let r = retained_commands(s, q, target);
    if s.len() > 0 {
        lemma_retained_sub(s.drop_last(), q, target);
        let pre = retained_commands(s.drop_last(), q, target);
        assert forall|k: int| 0 <= k < r.len() implies exists|j: int|
            0 <= j < s.len() && #[trigger] r[k] == s[j] by {
            if k < pre.len() {
                assert(r[k] == pre[k]);
                let j = choose|j: int| 0 <= j < s.drop_last().len() && pre[k] == s.drop_last()[j];
                assert(r[k] == s[j]);
            } else {
                assert(r[k] == s[s.len() - 1]);
            }
        }
    }
}

/// Admitting one admissible entry preserves the core invariant, the
/// window frame, and the admissibility of any other entry.
proof fn lemma_admit_one_wf(t: TimelineV, o: AchronalCommand)
    requires
        core_wf(t),
        batch_ok(t, o),
    ensures
        ({
            let t1 = admit_one(t, o);
            &&& core_wf(t1)
            &&& t1.points.len() == t.points.len()
            &&& t1.left == t.left
            &&& t1.right == t.right
            &&& t1.present == t.present
            &&& t1.waves == t.waves
            &&& t1.next_wave == t.next_wave
            &&& (waves_ahead(t) ==> waves_ahead(t1))
            &&& forall|o2: AchronalCommand| batch_ok(t, o2) ==> #[trigger] batch_ok(t1, o2)
        }),
{
    let t1 = admit_one(t, o);
    match o.event {
        AchronalCommandTypes::Chronal(data) => {
            let cost = cost_of(t.present, data.time);
            if cost < t.energy.sel(o.player) {
                let i = data.time - t.left;
                assert(tp_wf(t, i));
                assert forall|j: int| 0 <= j < t1.points.len() implies #[trigger] tp_wf(t1, j) by {
                    assert(tp_wf(t, j));
                    assert(t1.points[0].nodes == t.points[0].nodes);
                    assert(t1.points[0].edges == t.points[0].edges);
                }
                assert forall|o2: AchronalCommand| batch_ok(t, o2) implies #[trigger] batch_ok(
                    t1,
                    o2,
                ) by {
                    match o2.event {
                        AchronalCommandTypes::Chronal(d2) => {
                            assert(t1.points[d2.time - t1.left].nodes == t.points[d2.time
                                - t.left].nodes);
                            assert(t1.points[d2.time - t1.left].edges == t.points[d2.time
                                - t.left].edges);
                        },
                        AchronalCommandTypes::Timejump(_) => {},
                        AchronalCommandTypes::ClearCommands(_) => {},
                    }
                }
            }
        },
        AchronalCommandTypes::Timejump(tm) => {
            assert(wave_wf(t1, t1.player_waves.sel(Player::PASSIVE))) by {
                if o.player == Player::PASSIVE {
                } else {
                    assert(t1.player_waves.sel(Player::PASSIVE) == t.player_waves.sel(
                        Player::PASSIVE,
                    ));
                }
            }
            assert(wave_wf(t1, t1.player_waves.sel(Player::P1))) by {
                if o.player == Player::P1 {
                } else {
                    assert(t1.player_waves.sel(Player::P1) == t.player_waves.sel(Player::P1));
                }
            }
            assert(wave_wf(t1, t1.player_waves.sel(Player::P2))) by {
                if o.player == Player::P2 {
                } else {
                    assert(t1.player_waves.sel(Player::P2) == t.player_waves.sel(Player::P2));
                }
            }
            assert forall|j: int| 0 <= j < t1.points.len() implies #[trigger] tp_wf(t1, j) by {
                assert(tp_wf(t, j));
            }
        },
        AchronalCommandTypes::ClearCommands(data) => {
            let cost = cost_of(t.present, data.time);
            if cost < t.energy.sel(o.player) {
                let from = data.time - t.left;
                assert forall|j: int| 0 <= j < t1.points.len() implies #[trigger] tp_wf(t1, j) by {
                    assert(tp_wf(t, j));
                    assert(t1.points[0].nodes == t.points[0].nodes);
                    assert(t1.points[0].edges == t.points[0].edges);
                    if j >= from {
                        lemma_retained_sub(t.points[j].commands, o.player, data.target);
                        let r = retained_commands(t.points[j].commands, o.player, data.target);
                        assert forall|k: int| 0 <= k < r.len() implies order_ok(
                            tp_world(t1.points[j]),
                            #[trigger] r[k],
                        ) && r[k].time == t1.points[j].timestep by {
                            let jj = choose|jj: int|
                                0 <= jj < t.points[j].commands.len() && r[k]
                                    == t.points[j].commands[jj];
                            assert(order_ok(tp_world(t.points[j]), t.points[j].commands[jj]));
                        }
                    }
                }
                assert forall|o2: AchronalCommand| batch_ok(t, o2) implies #[trigger] batch_ok(
                    t1,
                    o2,
                ) by {
                    match o2.event {
                        AchronalCommandTypes::Chronal(d2) => {
                            assert(t1.points[d2.time - t1.left].nodes == t.points[d2.time
                                - t.left].nodes);
                            assert(t1.points[d2.time - t1.left].edges == t.points[d2.time
                                - t.left].edges);
                        },
                        AchronalCommandTypes::Timejump(_) => {},
                        AchronalCommandTypes::ClearCommands(_) => {},
                    }
                }
            }
        },
    }
}

/// A placeholder time point used to swap window entries out for editing.
fn scratch_timepoint() -> (r: TimePoint) {
    TimePoint {
        world: Simulation::new(wg_new()),
        commands: Vec::new(),
        metadata: SimMetadata::new(),
    }
}

/// The commands of `cmds` that survive a clear by `q` against `target`.
#[verifier::loop_isolation(false)]
fn retain_commands(cmds: &Vec<ChronalCommand>, q: Player, target: usize) -> (r: Vec<
    ChronalCommand,
>)
    ensures
        r@ == retained_commands(cmds@, q, target),
{
    let mut r: Vec<ChronalCommand> = Vec::new();
    proof {
        assert(cmds@.take(0) =~= Seq::empty());
    }
    let clen = cmds.len();
    let mut k: usize = 0;
    while k < clen
        invariant
            k <= clen,
            r@ == retained_commands(cmds@.take(k as int), q, target),
        decreases clen - k,
    {
        let c = cmds[k];
        let drop_it = c.player == q && (match c.target {
            Some(t) => t == target,
            None => false,
        });
        if !drop_it {
            r.push(c);
        }
        k = k + 1;
        proof {
            let cur = cmds@.take(k as int);
            assert(cur.drop_last() =~= cmds@.take(k as int - 1));
            assert(cur.last() == cmds@[k as int - 1]);
            assert(r@ =~= retained_commands(cur, q, target));
        }
    }
    proof {
        assert(cmds@.take(clen as int) =~= cmds@);
    }
    r
}

impl Timeline {
    /// Regenerates one energy point for every player, up to the cap.
    fn regen_energy(&mut self)
        ensures
            final(self)@ == regen_spec(old(self)@),
    {
        let e0 = *self.chrono_energy.get(Player::PASSIVE);
        if e0 < MAX_CHRONOENERGY {
            self.chrono_energy.put(Player::PASSIVE, e0 + 1);
        }
        let e1 = *self.chrono_energy.get(Player::P1);
        if e1 < MAX_CHRONOENERGY {
            self.chrono_energy.put(Player::P1, e1 + 1);
        }
        let e2 = *self.chrono_energy.get(Player::P2);
        if e2 < MAX_CHRONOENERGY {
            self.chrono_energy.put(Player::P2, e2 + 1);
        }
    }

    /// Files, jumps or clears every batch entry, in batch order, under the
    /// time-travel energy gate.
    #[verifier::loop_isolation(false)]
    fn admit_commands(&mut self, commands: &Vec<AchronalCommand>)
        requires
            core_wf(old(self)@),
            forall|k: int|
                0 <= k < commands@.len() ==> batch_ok(old(self)@, #[trigger] commands@[k]),
        ensures
            final(self)@ == admit_fold(old(self)@, commands@, commands@.len() as int),
            core_wf(final(self)@),
            waves_ahead(old(self)@) ==> waves_ahead(final(self)@),
            final(self)@.points.len() == old(self)@.points.len(),
            final(self)@.left == old(self)@.left,
            final(self)@.right == old(self)@.right,
            final(self)@.present == old(self)@.present,
            final(self)@.waves == old(self)@.waves,
            final(self)@.next_wave == old(self)@.next_wave,
    {
        let ghost t0 = self@;
        let mut scratch = scratch_timepoint();
        let clen = commands.len();
        let mut ci: usize = 0;
        while ci < clen
            invariant
                ci <= clen,
                self@ == admit_fold(t0, commands@, ci as int),
                core_wf(self@),
                waves_ahead(t0) ==> waves_ahead(self@),
                self@.points.len() == t0.points.len(),
                self@.left == t0.left,
                self@.right == t0.right,
                self@.present == t0.present,
                self@.waves == t0.waves,
                self@.next_wave == t0.next_wave,
                forall|k: int| 0 <= k < commands@.len() ==> batch_ok(self@, #[trigger] commands@[k]),
            decreases clen - ci,
        {
            let ghost tpre = self@;
            let order = commands[ci];
            proof {
                assert(batch_ok(tpre, order));
                lemma_admit_one_wf(tpre, order);
            }
            let player = order.player;
            match order.event {
                AchronalCommandTypes::Chronal(data) => {
                    let cost = self.chrono_cost(data.time);
                    let energy = *self.chrono_energy.get(player);
                    if cost < energy {
                        self.chrono_energy.put(player, energy - cost);
                        let idx = (data.time - self.left_edge) as usize;
                        self.multiverse.set_and_swap(idx, &mut scratch);
                        scratch.commands.push(data);
                        self.multiverse.set_and_swap(idx, &mut scratch);
                        proof {
                            assert(self@.points =~= admit_one(tpre, order).points);
                        }
                    }
                },
                AchronalCommandTypes::Timejump(tm) => {
                    let wv = *self.player_timewaves.get(player);
                    self.player_timewaves.put(player, Timewave { time: tm, speed: wv.speed });
                },
                AchronalCommandTypes::ClearCommands(data) => {
                    let cost = self.chrono_cost(data.time);
                    let energy = *self.chrono_energy.get(player);
                    if cost < energy {
                        self.chrono_energy.put(player, energy - cost);
                        let ghost pts0 = self@.points;
                        let from_time = (data.time - self.left_edge) as usize;
                        let mlen = self.multiverse.len();
                        let mut idx2: usize = from_time;
                        proof {
                            assert(self@.points =~~= Seq::new(
                                pts0.len(),
                                |j: int|
                                    if from_time <= j < from_time {
                                        TimePointV {
                                            commands: retained_commands(
                                                pts0[j].commands,
                                                player,
                                                data.target,
                                            ),
                                            ..pts0[j]
                                        }
                                    } else {
                                        pts0[j]
                                    },
                            ));
                        }
                        while idx2 < mlen
                            invariant
                                from_time <= idx2 <= mlen,
                                mlen == self@.points.len(),
                                self@.points.len() == pts0.len(),
                                self@.points == Seq::new(
                                    pts0.len(),
                                    |j: int|
                                        if from_time <= j < idx2 {
                                            TimePointV {
                                                commands: retained_commands(
                                                    pts0[j].commands,
                                                    player,
                                                    data.target,
                                                ),
                                                ..pts0[j]
                                            }
                                        } else {
                                            pts0[j]
                                        },
                                ),
                                self@.left == tpre.left,
                                self@.right == tpre.right,
                                self@.present == tpre.present,
                                self@.waves == tpre.waves,
                                self@.player_waves == tpre.player_waves,
                                self@.energy == tpre.energy.upd(
                                    player,
                                    (tpre.energy.sel(player) - cost_of(tpre.present, data.time))
                                        as u16,
                                ),
                                self@.next_wave == tpre.next_wave,
                            decreases mlen - idx2,
                        {
                            let ghost before = self@.points;
                            self.multiverse.set_and_swap(idx2, &mut scratch);
                            let filtered = retain_commands(&scratch.commands, player, data.target);
                            scratch.commands = filtered;
                            self.multiverse.set_and_swap(idx2, &mut scratch);
                            idx2 = idx2 + 1;
                            proof {
                                let rhs = Seq::new(
                                    pts0.len(),
                                    |j: int|
                                        if from_time <= j < idx2 {
                                            TimePointV {
                                                commands: retained_commands(
                                                    pts0[j].commands,
                                                    player,
                                                    data.target,
                                                ),
                                                ..pts0[j]
                                            }
                                        } else {
                                            pts0[j]
                                        },
                                );
                                assert forall|j: int| 0 <= j < pts0.len() implies self@.points[j]
                                    == rhs[j] by {
                                    if j == idx2 - 1 {
                                        assert(before[j] == pts0[j]);
                                        assert(self@.points[j].commands == retained_commands(
                                            pts0[j].commands,
                                            player,
                                            data.target,
                                        ));
                                        assert(self@.points[j].nodes == pts0[j].nodes);
                                        assert(self@.points[j].edges == pts0[j].edges);
                                        assert(self@.points[j].timestep == pts0[j].timestep);
                                        assert(self@.points[j].metadata == pts0[j].metadata);
                                    } else {
                                        assert(self@.points[j] == before[j]);
                                        assert(before[j] == rhs[j]);
                                    }
                                }
                                assert(self@.points =~= rhs);
                            }
                        }
                        proof {
                            assert(self@.points =~~= clear_points(
                                pts0,
                                from_time as int,
                                player,
                                data.target,
                            ));
                            assert(self@ == admit_one(tpre, order));
                        }
                    }
                },
            }
            ci = ci + 1;
            proof {
                assert(self@ == admit_one(tpre, order));
                assert(self@ == admit_fold(t0, commands@, ci as int));
            }
        }
    }

    /// Advances the window edges, evicting the point behind the left edge
    /// once the warm-up is over, and moves the present forward.
    fn advance_window(&mut self)
        requires
            core_wf(old(self)@),
            waves_ahead(old(self)@),
            old(self)@.right + 2 <= u32::MAX,
            old(self)@.present < u32::MAX,
        ensures
            final(self)@ == window_spec(old(self)@),
            core_wf(final(self)@),
            final(self)@.left + final(self)@.points.len() + 1 <= final(self)@.right,
    {
        let ghost t0 = self@;
        if self.present < WARMUP_PRESENT {
            self.right_edge = self.right_edge + 2;
        } else {
            self.right_edge = self.right_edge + 1;
            self.left_edge = self.left_edge + 1;
            proof {
                assert(t0.present > 0);
                assert(wave_wf(t0, t0.player_waves.sel(Player::PASSIVE)));
                assert(t0.player_waves.sel(Player::PASSIVE).time > t0.left);
                assert(t0.points.len() >= 2);
            }
            let evicted = self.multiverse.remove(0);
            proof {
                assert(self@.points =~= t0.points.drop_first());
            }
        }
        self.present = self.present + 1;
        let ghost t1 = self@;
        proof {
            assert(t1 == window_spec(t0));
            if t0.present < WARMUP_PRESENT {
                assert forall|i: int| 0 <= i < t1.points.len() implies #[trigger] tp_wf(t1, i) by {
                    assert(tp_wf(t0, i));
                }
            } else {
                assert forall|i: int| 0 <= i < t1.points.len() implies #[trigger] tp_wf(t1, i) by {
                    assert(tp_wf(t0, i + 1));
                    assert(tp_wf(t0, 1));
                    assert(t1.points[0] == t0.points[1]);
                    assert(same_topo(tp_world(t0.points[0]), tp_world(t0.points[1])));
                    assert(same_topo(tp_world(t0.points[0]), tp_world(t0.points[i + 1])));
                    assert(same_topo(tp_world(t1.points[0]), tp_world(t1.points[i])));
                }
                assert forall|i: int| 0 <= i < t1.waves.len() implies wave_wf(
                    t1,
                    #[trigger] t1.waves[i],
                ) by {
                    assert(wave_wf(t0, t0.waves[i]));
                    assert(t0.waves[i].time > t0.left);
                }
                assert(wave_wf(t1, t1.player_waves.sel(Player::PASSIVE)));
                assert(wave_wf(t1, t1.player_waves.sel(Player::P1)));
                assert(wave_wf(t1, t1.player_waves.sel(Player::P2)));
            }
        }
    }

    /// Spawns an ambient wave at the left edge when the countdown expires.
    fn spawn_wave(&mut self)
        requires
            core_wf(old(self)@),
        ensures
            final(self)@ == spawn_spec(old(self)@),
            core_wf(final(self)@),
            final(self)@.points == old(self)@.points,
            final(self)@.left == old(self)@.left,
            final(self)@.right == old(self)@.right,
            final(self)@.present == old(self)@.present,
    {
        let ghost t0 = self@;
        self.next_wave = self.next_wave + 3;
        if (self.left_edge as i64) < self.next_wave {
            self.next_wave = self.next_wave - 40;
            self.timewaves.insert(0, Timewave { time: self.left_edge, speed: 3 });
            proof {
                assert(self@.waves =~= seq![Timewave { time: t0.left, speed: 3u8 }] + t0.waves);
            }
        }
        let ghost t1 = self@;
        proof {
            assert(t1 == spawn_spec(t0));
            assert forall|i: int| 0 <= i < t1.points.len() implies #[trigger] tp_wf(t1, i) by {
                assert(tp_wf(t0, i));
            }
            assert forall|i: int| 0 <= i < t1.waves.len() implies wave_wf(
                t1,
                #[trigger] t1.waves[i],
            ) by {
                if (t0.left as int) < t0.next_wave + 3 && i >= 1 {
                    assert(t1.waves[i] == t0.waves[i - 1]);
                    assert(wave_wf(t0, t0.waves[i - 1]));
                } else {
                    if !((t0.left as int) < t0.next_wave + 3) {
                        assert(wave_wf(t0, t0.waves[i]));
                    }
                }
            }
        }
    }
}

/// A strictly increasing sequence of ticks.
pub open spec fn sorted_unique(s: Seq<u32>) -> bool {
    forall|i: int, j: int| 0 <= i < j < s.len() ==> s[i] < s[j]
}

/// Whether `s` contains the tick `x`.
pub open spec fn seq_has(s: Seq<u32>, x: u32) -> bool {
    exists|i: int| 0 <= i < s.len() && s[i] == x
}

/// Whether the sweep of wave `w` this round marks tick `u` for
/// recomputation: `u` lies under the wave's stride and its successor is
/// still inside the frontier.
pub open spec fn wave_covers(right: u32, w: Timewave, u: u32) -> bool {
    w.time <= u < w.time + w.speed && u + 1 < right
}

/// Whether any wave (a player's or an ambient one) marks tick `u` this
/// round.
pub open spec fn time_needed(t: TimelineV, u: u32) -> bool {
    ||| wave_covers(t.right, t.player_waves.sel(Player::PASSIVE), u)
    ||| wave_covers(t.right, t.player_waves.sel(Player::P1), u)
    ||| wave_covers(t.right, t.player_waves.sel(Player::P2), u)
    ||| exists|i: int| 0 <= i < t.waves.len() && wave_covers(t.right, #[trigger] t.waves[i], u)
}

/// A wave after its step: a full stride if it fits under the right edge,
/// else a single-tick step at throttled speed.
pub open spec fn wave_advanced(right: u32, w: Timewave) -> Timewave {
    if w.time + w.speed < right {
        Timewave { time: (w.time + w.speed) as u32, speed: w.speed }
    } else {
        Timewave { time: (w.time + 1) as u32, speed: 1u8 }
    }
}

/// The ambient waves after their step, in order; waves whose stride would
/// cross the right edge are discarded.
pub open spec fn ambient_advanced(right: u32, s: Seq<Timewave>) -> Seq<Timewave>
    decreases s.len(),
{
    if s.len() == 0 {
        Seq::empty()
    } else {
        ambient_advanced(right, s.drop_last()) + (if s.last().time + s.last().speed < right {
            seq![wave_advanced(right, s.last())]
        } else {
            Seq::empty()
        })
    }
}

/// The wave-advance phase: every player wave steps (throttling at the
/// right edge), ambient waves step or are discarded.
pub open spec fn waves_spec(t: TimelineV) -> TimelineV {
    TimelineV {
        player_waves: PlayerArr {
            passive: wave_advanced(t.right, t.player_waves.passive),
            p1: wave_advanced(t.right, t.player_waves.p1),
            p2: wave_advanced(t.right, t.player_waves.p2),
        },
        waves: ambient_advanced(t.right, t.waves),
        ..t
    }
}

/// Inserts `x` into a strictly sorted tick list, keeping it sorted and
/// duplicate-free.
#[verifier::loop_isolation(false)]
fn times_insert(v: &mut Vec<u32>, x: u32)
    requires
        sorted_unique(old(v)@),
    ensures
        sorted_unique(final(v)@),
        forall|u: u32| seq_has(final(v)@, u) <==> seq_has(old(v)@, u) || u == x,
{
    let vlen = v.len();
    let mut i: usize = 0;
    while i < vlen && v[i] < x
        invariant
            i <= vlen,
            forall|j: int| 0 <= j < i ==> v@[j] < x,
        decreases vlen - i,
    {
        i = i + 1;
    }
    if i < vlen && v[i] == x {
        proof {
            assert(v@ == old(v)@);
            assert forall|u: u32| seq_has(v@, u) <==> seq_has(old(v)@, u) || u == x by {
                if u == x {
                    assert(v@[i as int] == x);
                    assert(seq_has(v@, u));
                }
            }
        }
    } else {
        let ghost pre = v@;
        v.insert(i, x);
        proof {
            pre.insert_ensures(i as int, x);
            assert forall|p: int, q: int| 0 <= p < q < v@.len() implies v@[p] < v@[q] by {
                if q < i {
                    assert(v@[p] == pre[p] && v@[q] == pre[q]);
                } else if p > i {
                    assert(v@[p] == pre[p - 1] && v@[q] == pre[q - 1]);
                } else if p == i {
                    assert(v@[p] == x && v@[q] == pre[q - 1]);
                    assert(i < pre.len() ==> pre[i as int] > x || pre[i as int] == x);
                    assert(pre[q - 1] >= pre[i as int] || q - 1 == i);
                } else if q == i {
                    assert(v@[p] == pre[p] && v@[q] == x);
                } else {
                    assert(p < i && q > i);
                    assert(v@[p] == pre[p] && v@[q] == pre[q - 1]);
                }
            }
            assert forall|u: u32| seq_has(v@, u) <==> seq_has(pre, u) || u == x by {
                if seq_has(v@, u) {
                    let j = choose|j: int| 0 <= j < v@.len() && v@[j] == u;
                    if j < i {
                        assert(pre[j] == u);
                    } else if j > i {
                        assert(pre[j - 1] == u);
                    }
                }
                if seq_has(pre, u) {
                    let j = choose|j: int| 0 <= j < pre.len() && pre[j] == u;
                    if j < i {
                        assert(v@[j] == u);
                    } else {
                        assert(v@[j + 1] == u);
                    }
                }
                if u == x {
                    assert(v@[i as int] == u);
                }
            }
        }
    }
}

impl Timeline {
    /// Collects the ticks wave `wave` sweeps this round into
    /// `times_wanted` and reports whether its full stride fit under the
    /// right edge. On failure the partial sweep stays collected; the
    /// caller discards or throttles the wave.
    #[verifier::loop_isolation(false)]
    fn timecheck(&self, wave: Timewave, times_wanted: &mut Vec<ChronalTime>) -> (normal: bool)
        requires
            sorted_unique(old(times_wanted)@),
            wave.time + wave.speed <= u32::MAX,
            wave.speed >= 1,
        ensures
            normal <==> (wave.time + wave.speed < self@.right),
            sorted_unique(final(times_wanted)@),
            forall|u: u32|
                seq_has(final(times_wanted)@, u) <==> seq_has(old(times_wanted)@, u)
                    || wave_covers(self@.right, wave, u),
    {
        let mut offset: u8 = 0;
        while offset < wave.speed
            invariant
                offset <= wave.speed,
                sorted_unique(times_wanted@),
                offset > 0 ==> wave.time + offset < self@.right,
                forall|u: u32|
                    seq_has(times_wanted@, u) <==> seq_has(old(times_wanted)@, u) || (wave.time
                        <= u < wave.time + offset && u + 1 < self@.right),
            decreases wave.speed - offset,
        {
            let prev_time = wave.time + (offset as u32);
            if prev_time + 1 < self.right_edge {
                times_insert(times_wanted, prev_time);
            } else {
                proof {
                    assert forall|u: u32|
                        seq_has(times_wanted@, u) <==> seq_has(old(times_wanted)@, u)
                            || wave_covers(self@.right, wave, u) by {
                        if wave_covers(self@.right, wave, u) {
                            assert(u + 1 < self@.right);
                            assert(u < prev_time + 1);
                            assert(u < wave.time + offset || u + 1 == prev_time + 1);
                        }
                    }
                }
                return false;
            }
            offset = offset + 1;
        }
        true
    }
}

impl Timeline {
    /// Advances every timewave one round, collecting the full, ascending,
    /// deduplicated set of source ticks swept: player waves throttle at
    /// the right edge, ambient waves die there.
    #[verifier::loop_isolation(false)]
    #[verifier::rlimit(100)]
    fn advance_waves(&mut self) -> (times: Vec<ChronalTime>)
        requires
            core_wf(old(self)@),
            old(self)@.right <= 0xFFFF0500u32,
        ensures
            final(self)@ == waves_spec(old(self)@),
            sorted_unique(times@),
            forall|u: u32| seq_has(times@, u) <==> time_needed(old(self)@, u),
    {
        let ghost base = self@;
        let mut times_to_update: Vec<ChronalTime> = Vec::new();
        // the players' personal waves
        proof {
            assert(wave_wf(base, base.player_waves.sel(Player::PASSIVE)));
            assert(wave_wf(base, base.player_waves.sel(Player::P1)));
            assert(wave_wf(base, base.player_waves.sel(Player::P2)));
        }
        let wv0 = *self.player_timewaves.get(Player::PASSIVE);
        let normal0 = self.timecheck(wv0, &mut times_to_update);
        if !normal0 {
            self.player_timewaves.put(Player::PASSIVE, Timewave { time: wv0.time, speed: 1 });
        }
        let wva = *self.player_timewaves.get(Player::PASSIVE);
        self.player_timewaves.put(
            Player::PASSIVE,
            Timewave { time: wva.time + (wva.speed as u32), speed: wva.speed },
        );
        let wv1 = *self.player_timewaves.get(Player::P1);
        let normal1 = self.timecheck(wv1, &mut times_to_update);
        if !normal1 {
            self.player_timewaves.put(Player::P1, Timewave { time: wv1.time, speed: 1 });
        }
        let wvb = *self.player_timewaves.get(Player::P1);
        self.player_timewaves.put(
            Player::P1,
            Timewave { time: wvb.time + (wvb.speed as u32), speed: wvb.speed },
        );
        let wv2 = *self.player_timewaves.get(Player::P2);
        let normal2 = self.timecheck(wv2, &mut times_to_update);
        if !normal2 {
            self.player_timewaves.put(Player::P2, Timewave { time: wv2.time, speed: 1 });
        }
        let wvc = *self.player_timewaves.get(Player::P2);
        self.player_timewaves.put(
            Player::P2,
            Timewave { time: wvc.time + (wvc.speed as u32), speed: wvc.speed },
        );
        proof {
            assert(self@.player_waves.sel(Player::PASSIVE) == wave_advanced(
                base.right,
                base.player_waves.sel(Player::PASSIVE),
            ));
            assert(self@.player_waves.sel(Player::P1) == wave_advanced(
                base.right,
                base.player_waves.sel(Player::P1),
            ));
            assert(self@.player_waves.sel(Player::P2) == wave_advanced(
                base.right,
                base.player_waves.sel(Player::P2),
            ));
        }
        // the ambient waves
        let ghost waves0 = base.waves;
        let ghost mut consumed: int = 0;
        proof {
            assert(waves0.take(0) =~= Seq::empty());
            assert(self@.waves =~= ambient_advanced(base.right, waves0.take(0)) + waves0.skip(0));
        }
        let mut i: usize = 0;
        while i < self.timewaves.len()
            invariant
                0 <= consumed <= waves0.len(),
                self@.waves == ambient_advanced(base.right, waves0.take(consumed)) + waves0.skip(
                    consumed,
                ),
                i as int == ambient_advanced(base.right, waves0.take(consumed)).len(),
                self@.player_waves == waves_spec(base).player_waves,
                self@.points == base.points,
                self@.left == base.left,
                self@.right == base.right,
                self@.present == base.present,
                self@.energy == base.energy,
                self@.next_wave == base.next_wave,
                sorted_unique(times_to_update@),
                forall|u: u32|
                    seq_has(times_to_update@, u) <==> ({
                        ||| wave_covers(base.right, base.player_waves.sel(Player::PASSIVE), u)
                        ||| wave_covers(base.right, base.player_waves.sel(Player::P1), u)
                        ||| wave_covers(base.right, base.player_waves.sel(Player::P2), u)
                        ||| exists|j: int|
                            0 <= j < consumed && wave_covers(base.right, #[trigger] waves0[j], u)
                    }),
            decreases self.timewaves.len() - i,
        {
            let wave = self.timewaves[i];
            proof {
                assert(self@.waves[i as int] == waves0.skip(consumed)[0]);
                assert(waves0.skip(consumed)[0] == waves0[consumed]);
                assert(wave_wf(base, waves0[consumed]));
            }
            let ghost times_pre = times_to_update@;
            let normal = self.timecheck(wave, &mut times_to_update);
            if normal {
                self.timewaves.set(
                    i,
                    Timewave { time: wave.time + (wave.speed as u32), speed: wave.speed },
                );
                i = i + 1;
            } else {
                let _ = self.timewaves.remove(i);
            }
            proof {
                consumed = consumed + 1;
                let tk = waves0.take(consumed);
                assert(tk.drop_last() =~= waves0.take(consumed - 1));
                assert(tk.last() == waves0[consumed - 1]);
                assert(self@.waves =~= ambient_advanced(base.right, tk) + waves0.skip(consumed));
                assert forall|u: u32|
                    seq_has(times_to_update@, u) <==> ({
                        ||| wave_covers(base.right, base.player_waves.sel(Player::PASSIVE), u)
                        ||| wave_covers(base.right, base.player_waves.sel(Player::P1), u)
                        ||| wave_covers(base.right, base.player_waves.sel(Player::P2), u)
                        ||| exists|j: int|
                            0 <= j < consumed && wave_covers(base.right, #[trigger] waves0[j], u)
                    }) by {
                    if seq_has(times_to_update@, u) {
                        if !seq_has(times_pre, u) {
                            assert(wave_covers(base.right, waves0[consumed - 1], u));
                        }
                    }
                    if exists|j: int|
                        0 <= j < consumed && wave_covers(base.right, #[trigger] waves0[j], u) {
                        let j = choose|j: int|
                            0 <= j < consumed && wave_covers(base.right, #[trigger] waves0[j], u);
                        if j == consumed - 1 {
                            assert(seq_has(times_to_update@, u));
                        } else {
                            assert(seq_has(times_pre, u));
                        }
                    }
                }
            }
        }
        proof {
            assert(waves0.skip(consumed).len() == 0);
            assert(consumed == waves0.len());
            assert(waves0.take(consumed) =~= waves0);
            assert(self@.waves =~= ambient_advanced(base.right, waves0));
            assert(self@ == waves_spec(base));
            assert forall|u: u32|
                seq_has(times_to_update@, u) <==> time_needed(base, u) by {}
        }
        times_to_update
    }
}

/// Recomputing the successor of tick `u` from tick `u`'s snapshot and
/// filed commands: an existing successor point is overwritten (keeping
/// its filed commands), a missing one is appended with none.
pub open spec fn resim_one(t: TimelineV, u: u32) -> TimelineV {
    let i = u - t.left;
    let tp = t.points[i];
    let w1 = sim_step_world(tp_world(tp), u, tp.commands);
    let md = sim_step_meta(tp_world(tp));
    if u + 1 - t.left < t.points.len() {
        TimelineV {
            points: t.points.update(
                i + 1,
                TimePointV {
                    nodes: w1.nodes,
                    edges: w1.edges,
                    timestep: (u + 1) as u32,
                    commands: t.points[i + 1].commands,
                    metadata: md,
                },
            ),
            ..t
        }
    } else {
        TimelineV {
            points: t.points.push(
                TimePointV {
                    nodes: w1.nodes,
                    edges: w1.edges,
                    timestep: (u + 1) as u32,
                    commands: Seq::empty(),
                    metadata: md,
                },
            ),
            ..t
        }
    }
}

/// Recomputation of the first `k` ticks at and after the left edge, in
/// ascending order, restricted to those some wave swept this round (the
/// sweep is judged against the pre-advance state `base`).
pub open spec fn resim_range(t: TimelineV, base: TimelineV, k: int) -> TimelineV
    decreases k,
{
    if k <= 0 {
        t
    } else {
        let prev = resim_range(t, base, k - 1);
        let u = (base.left + k - 1) as u32;
        if time_needed(base, u) {
            resim_one(prev, u)
        } else {
            prev
        }
    }
}

/// The whole evaluation: energy regeneration, command admission, window
/// growth and eviction, ambient-wave spawn, wave advance, and the
/// ascending resimulation cascade over every swept tick.
pub open spec fn eval_spec(t0: TimelineV, cmds: Seq<AchronalCommand>) -> TimelineV {
    let t2 = admit_fold(regen_spec(t0), cmds, cmds.len() as int);
    let t4 = spawn_spec(window_spec(t2));
    resim_range(waves_spec(t4), t4, t4.right - 1 - t4.left)
}

/// Resimulation skips ranges no wave swept.
proof fn lemma_resim_skip(t: TimelineV, base: TimelineV, k1: int, k2: int)
    requires
        0 <= k1 <= k2,
        base.left + k2 <= u32::MAX,
        forall|v: u32| base.left + k1 <= v < base.left + k2 ==> !time_needed(base, v),
    ensures
        resim_range(t, base, k2) == resim_range(t, base, k1),
    decreases k2 - k1,
{
    if k2 > k1 {
        lemma_resim_skip(t, base, k1, k2 - 1);
        let u = (base.left + k2 - 1) as u32;
        assert(!time_needed(base, u));
    }
}

/// A swept tick lies at or after the left edge, and either inside the
/// pre-resimulation window or right after another swept tick.
pub proof fn lemma_needed_step(base: TimelineV, u: u32)
    requires
        time_needed(base, u),
        forall|i: int| 0 <= i < base.waves.len() ==> wave_wf(base, #[trigger] base.waves[i]),
        wave_wf(base, base.player_waves.sel(Player::PASSIVE)),
        wave_wf(base, base.player_waves.sel(Player::P1)),
        wave_wf(base, base.player_waves.sel(Player::P2)),
    ensures
        base.left <= u,
        u - base.left < base.points.len() || (u >= 1 && time_needed(base, (u - 1) as u32)),
{
    if wave_covers(base.right, base.player_waves.sel(Player::PASSIVE), u) {
        lemma_needed_wave(base, base.player_waves.sel(Player::PASSIVE), u);
    } else if wave_covers(base.right, base.player_waves.sel(Player::P1), u) {
        lemma_needed_wave(base, base.player_waves.sel(Player::P1), u);
    } else if wave_covers(base.right, base.player_waves.sel(Player::P2), u) {
        lemma_needed_wave(base, base.player_waves.sel(Player::P2), u);
    } else {
        let i = choose|i: int|
            0 <= i < base.waves.len() && wave_covers(base.right, #[trigger] base.waves[i], u);
        lemma_needed_wave(base, base.waves[i], u);
        if u - base.left >= base.points.len() {
            assert(wave_covers(base.right, base.waves[i], (u - 1) as u32));
        }
    }
}

/// The single-wave case of `lemma_needed_step`.
proof fn lemma_needed_wave(base: TimelineV, w: Timewave, u: u32)
    requires
        wave_covers(base.right, w, u),
        wave_wf(base, w),
    ensures
        base.left <= u,
        u - base.left < base.points.len() || (u >= 1 && wave_covers(base.right, w, (u - 1) as u32)),
{
    if u == w.time {
        assert(u - base.left < base.points.len());
    } else {
        assert(w.time <= u - 1 < w.time + w.speed);
        assert(u - 1 + 1 < base.right);
    }
}

/// Every advanced ambient wave stems from an original whose full stride
/// fit under the right edge.
proof fn lemma_ambient_sub(right: u32, s: Seq<Timewave>)
    ensures
        forall|i: int|
            0 <= i < ambient_advanced(right, s).len() ==> exists|j: int|
                0 <= j < s.len() && #[trigger] ambient_advanced(right, s)[i] == wave_advanced(
                    right,
                    s[j],
                ) && s[j].time + s[j].speed < right,
    decreases s.len(),
{
    let r = ambient_advanced(right, s);
    if s.len() > 0 {
        lemma_ambient_sub(right, s.drop_last());
        let pre = ambient_advanced(right, s.drop_last());
        assert forall|i: int| 0 <= i < r.len() implies exists|j: int|
            0 <= j < s.len() && #[trigger] r[i] == wave_advanced(right, s[j]) && s[j].time
                + s[j].speed < right by {
            if i < pre.len() {
                assert(r[i] == pre[i]);
                let j = choose|j: int|
                    0 <= j < s.drop_last().len() && pre[i] == wave_advanced(
                        right,
                        s.drop_last()[j],
                    ) && s.drop_last()[j].time + s.drop_last()[j].speed < right;
                assert(r[i] == wave_advanced(right, s[j]) && s[j].time + s[j].speed < right);
            } else {
                assert(r[i] == wave_advanced(right, s[s.len() - 1]));
            }
        }
    }
}

impl Timeline {
    /// Recomputes, in ascending tick order, the successor of every swept
    /// tick: overwriting a retained successor (keeping its filed
    /// commands) or appending a fresh point at the frontier.
    #[verifier::loop_isolation(false)]
    #[verifier::rlimit(100)]
    fn resimulate(&mut self, times: &Vec<ChronalTime>, Ghost(base): Ghost<TimelineV>)
        requires
            old(self)@.points == base.points,
            old(self)@.left == base.left,
            old(self)@.right == base.right,
            base.points.len() >= 1,
            base.left + base.points.len() + 1 <= base.right,
            base.right <= u32::MAX - 1,
            forall|i: int| 0 <= i < base.points.len() ==> tp_wf(base, i),
            sorted_unique(times@),
            forall|u: u32| seq_has(times@, u) <==> time_needed(base, u),
            forall|i: int| 0 <= i < base.waves.len() ==> wave_wf(base, #[trigger] base.waves[i]),
            wave_wf(base, base.player_waves.sel(Player::PASSIVE)),
            wave_wf(base, base.player_waves.sel(Player::P1)),
            wave_wf(base, base.player_waves.sel(Player::P2)),
        ensures
            final(self)@ == resim_range(old(self)@, base, base.right - 1 - base.left),
            final(self)@.points.len() >= base.points.len(),
            base.left + final(self)@.points.len() <= base.right,
            forall|i: int| 0 <= i < final(self)@.points.len() ==> tp_wf(final(self)@, i),
            forall|u: u32| time_needed(base, u) ==> u + 1 - base.left < final(self)@.points.len(),
            final(self)@.left == base.left,
            final(self)@.right == base.right,
            final(self)@.present == old(self)@.present,
            final(self)@.waves == old(self)@.waves,
            final(self)@.player_waves == old(self)@.player_waves,
            final(self)@.energy == old(self)@.energy,
            final(self)@.next_wave == old(self)@.next_wave,
    {
        let ghost t5 = self@;
        proof {
            assert forall|i: int| 0 <= i < self@.points.len() implies tp_wf(self@, i) by {
                assert(tp_wf(base, i));
            }
        }
        let mut scratch = scratch_timepoint();
        let ghost mut kdone: int = 0;
        let tcount = times.len();
        let mut ti: usize = 0;
        while ti < tcount
            invariant
                ti <= tcount,
                self@ == resim_range(t5, base, kdone),
                0 <= kdone <= base.right - 1 - base.left,
                ti == 0 ==> kdone == 0,
                ti > 0 ==> kdone == times@[ti - 1] + 1 - base.left,
                forall|j: int| 0 <= j < ti ==> times@[j] + 1 - base.left < self@.points.len(),
                self@.points.len() >= base.points.len(),
                base.left + self@.points.len() <= base.right,
                forall|i: int| 0 <= i < self@.points.len() ==> tp_wf(self@, i),
                self@.left == base.left,
                self@.right == base.right,
                self@.present == t5.present,
                self@.waves == t5.waves,
                self@.player_waves == t5.player_waves,
                self@.energy == t5.energy,
                self@.next_wave == t5.next_wave,
            decreases tcount - ti,
        {
            let u = times[ti];
            proof {
                assert(seq_has(times@, u));
                assert(time_needed(base, u));
                lemma_needed_step(base, u);
                assert(u + 1 < base.right);
                if u - base.left >= base.points.len() {
                    assert(time_needed(base, (u - 1) as u32));
                    assert(seq_has(times@, (u - 1) as u32));
                    let j = choose|j: int| 0 <= j < times@.len() && times@[j] == (u - 1) as u32;
                    assert(times@[j] < times@[ti as int]);
                    assert(j < ti);
                    assert(times@[j] + 1 - base.left < self@.points.len());
                }
                assert(u - base.left < self@.points.len());
                assert forall|v: u32|
                    base.left + kdone <= v < base.left + (u - base.left) implies !time_needed(
                    base,
                    v,
                ) by {
                    if time_needed(base, v) {
                        assert(seq_has(times@, v));
                        let j = choose|j: int| 0 <= j < times@.len() && times@[j] == v;
                        assert(times@[j] < times@[ti as int]);
                        assert(j < ti);
                        assert(ti > 0);
                        assert(times@[j] <= times@[ti - 1]);
                        assert(false);
                    }
                }
                lemma_resim_skip(t5, base, kdone, u - base.left);
                kdone = u - base.left;
            }
            let ghost tpre = self@;
            let idx = (u - self.left_edge) as usize;
            proof {
                assert(tp_wf(tpre, idx as int));
            }
            let prev_ref = &self.multiverse[idx];
            proof {
                assert(prev_ref@ == tpre.points[idx as int]);
                assert(world_view(prev_ref.world.world) == tp_world(tpre.points[idx as int]));
            }
            let pair = prev_ref.world.update(&prev_ref.commands);
            let time_next = u + 1;
            let ghost written = TimePointV {
                nodes: graph_nodes(pair.0.world),
                edges: graph_edges(pair.0.world),
                timestep: time_next,
                commands: Seq::empty(),
                metadata: pair.1,
            };
            if self.exists_time(time_next) {
                let idx2 = (time_next - self.left_edge) as usize;
                self.multiverse.set_and_swap(idx2, &mut scratch);
                scratch.world = pair.0;
                scratch.metadata = pair.1;
                self.multiverse.set_and_swap(idx2, &mut scratch);
                proof {
                    assert(self@.points =~~= tpre.points.update(
                        idx2 as int,
                        TimePointV { commands: tpre.points[idx2 as int].commands, ..written },
                    ));
                }
            } else {
                let timepoint = TimePoint {
                    commands: Vec::new(),
                    world: pair.0,
                    metadata: pair.1,
                };
                self.multiverse.push(timepoint);
                proof {
                    assert(self@.points =~~= tpre.points.push(written));
                }
            }
            ti = ti + 1;
            proof {
                kdone = kdone + 1;
                assert(self@ == resim_one(tpre, u));
                assert(self@ == resim_range(t5, base, kdone));
                let i2 = u + 1 - base.left;
                assert(self@.points[i2].timestep == base.left + i2);
                assert forall|i: int| 0 <= i < self@.points.len() implies tp_wf(self@, i) by {
                    assert(self@.points[0] == tpre.points[0]);
                    if i == i2 {
                        assert(same_topo(
                            tp_world(tpre.points[0]),
                            tp_world(tpre.points[idx as int]),
                        ));
                        assert(same_topo(
                            tp_world(tpre.points[idx as int]),
                            world_view(pair.0.world),
                        ));
                        lemma_same_topo_trans(
                            tp_world(tpre.points[0]),
                            tp_world(tpre.points[idx as int]),
                            world_view(pair.0.world),
                        );
                        assert(tp_world(self@.points[i2]) == world_view(pair.0.world));
                        if i2 < tpre.points.len() {
                            assert(tp_wf(tpre, i2));
                            assert(self@.points[i2].commands == tpre.points[i2].commands);
                            assert(same_topo(
                                tp_world(tpre.points[i2]),
                                tp_world(tpre.points[0]),
                            )) by {
                                assert(same_topo(
                                    tp_world(tpre.points[0]),
                                    tp_world(tpre.points[i2]),
                                ));
                            }
                            lemma_same_topo_trans(
                                tp_world(tpre.points[i2]),
                                tp_world(tpre.points[0]),
                                tp_world(self@.points[i2]),
                            );
                            assert forall|k: int|
                                0 <= k < self@.points[i2].commands.len() implies order_ok(
                                tp_world(self@.points[i2]),
                                #[trigger] self@.points[i2].commands[k],
                            ) && self@.points[i2].commands[k].time == self@.points[i2].timestep by {
                                assert(order_ok(
                                    tp_world(tpre.points[i2]),
                                    tpre.points[i2].commands[k],
                                ));
                                lemma_order_ok_topo(
                                    tp_world(tpre.points[i2]),
                                    tp_world(self@.points[i2]),
                                    tpre.points[i2].commands[k],
                                );
                            }
                        }
                        assert(tp_wf(self@, i));
                    } else {
                        assert(self@.points[i] == tpre.points[i]);
                        assert(tp_wf(tpre, i));
                    }
                }
            }
        }
        proof {
            let kmax = base.right - 1 - base.left;
            assert forall|v: u32| base.left + kdone <= v < base.left + kmax implies !time_needed(
                base,
                v,
            ) by {
                if time_needed(base, v) {
                    assert(seq_has(times@, v));
                    let j = choose|j: int| 0 <= j < times@.len() && times@[j] == v;
                    assert(ti > 0 ==> times@[j] <= times@[ti - 1]);
                    assert(false);
                }
            }
            lemma_resim_skip(t5, base, kdone, kmax);
            assert forall|u: u32| time_needed(base, u) implies u + 1 - base.left
                < self@.points.len() by {
                assert(seq_has(times@, u));
                let j = choose|j: int| 0 <= j < times@.len() && times@[j] == u;
            }
        }
    }

    /// One evaluation step: regenerate energy, admit the batch, advance
    /// the window, possibly spawn an ambient wave, advance every
    /// timewave, and recompute every tick downstream of a swept one, in
    /// ascending order, within this same call.
    pub fn evaluate_timestep(&mut self, commands: Vec<AchronalCommand>)
        requires
            timeline_wf(old(self)@),
            old(self)@.right <= 0xFFFF0000u32,
            forall|k: int|
                0 <= k < commands@.len() ==> batch_ok(old(self)@, #[trigger] commands@[k]),
        ensures
            final(self)@ == eval_spec(old(self)@, commands@),
            timeline_wf(final(self)@),
    {
        let ghost t0 = self@;
        self.regen_energy();
        let ghost t1 = self@;
        proof {
            assert(core_wf(t1)) by {
                assert forall|i: int| 0 <= i < t1.points.len() implies #[trigger] tp_wf(t1, i) by {
                    assert(tp_wf(t0, i));
                }
                assert forall|i: int| 0 <= i < t1.waves.len() implies wave_wf(
                    t1,
                    #[trigger] t1.waves[i],
                ) by {
                    assert(wave_wf(t0, t0.waves[i]));
                }
            }
            assert forall|k: int| 0 <= k < commands@.len() implies batch_ok(
                t1,
                #[trigger] commands@[k],
            ) by {
                assert(batch_ok(t0, commands@[k]));
            }
        }
        self.admit_commands(&commands);
        proof {
            assert(waves_ahead(t0) ==> waves_ahead(self@));
        }
        self.advance_window();
        self.spawn_wave();
        let ghost t4 = self@;
        let times = self.advance_waves();
        proof {
            assert(self@.points == t4.points);
            assert(core_wf(t4));
        }
        self.resimulate(&times, Ghost(t4));
        let ghost tf = self@;
        proof {
            assert(tf == eval_spec(t0, commands@));
            // the window invariant and every wave's place are restored
            assert(timeline_wf(tf)) by {
                let right = t4.right;
                assert forall|i: int| 0 <= i < tf.waves.len() implies wave_wf(
                    tf,
                    #[trigger] tf.waves[i],
                ) && tf.waves[i].time > tf.left by {
                    lemma_ambient_sub(right, t4.waves);
                    let j = choose|j: int|
                        0 <= j < t4.waves.len() && tf.waves[i] == wave_advanced(
                            right,
                            t4.waves[j],
                        ) && t4.waves[j].time + t4.waves[j].speed < right;
                    assert(wave_wf(t4, t4.waves[j]));
                    lemma_wave_settles(t4, tf, t4.waves[j]);
                }
                assert(wave_wf(t4, t4.player_waves.sel(Player::PASSIVE)));
                lemma_wave_settles(t4, tf, t4.player_waves.sel(Player::PASSIVE));
                assert(wave_wf(t4, t4.player_waves.sel(Player::P1)));
                lemma_wave_settles(t4, tf, t4.player_waves.sel(Player::P1));
                assert(wave_wf(t4, t4.player_waves.sel(Player::P2)));
                lemma_wave_settles(t4, tf, t4.player_waves.sel(Player::P2));
                assert(tf.player_waves.sel(Player::PASSIVE) == wave_advanced(
                    right,
                    t4.player_waves.sel(Player::PASSIVE),
                ));
                assert(tf.player_waves.sel(Player::P1) == wave_advanced(
                    right,
                    t4.player_waves.sel(Player::P1),
                ));
                assert(tf.player_waves.sel(Player::P2) == wave_advanced(
                    right,
                    t4.player_waves.sel(Player::P2),
                ));
            }
        }
    }
}

/// After the cascade, an advanced wave sits strictly between the left
/// edge and the new frontier.
proof fn lemma_wave_settles(t4: TimelineV, tf: TimelineV, w: Timewave)
    requires
        wave_wf(t4, w),
        t4.left + t4.points.len() + 1 <= t4.right,
        tf.left == t4.left,
        tf.points.len() >= t4.points.len(),
        forall|u: u32| time_needed(t4, u) ==> u + 1 - t4.left < tf.points.len(),
        forall|u: u32| wave_covers(t4.right, w, u) ==> time_needed(t4, u),
    ensures
        wave_wf(tf, wave_advanced(t4.right, w)),
        wave_advanced(t4.right, w).time > tf.left,
{
    let w1 = wave_advanced(t4.right, w);
    if w.time + w.speed < t4.right {
        let u = (w.time + w.speed - 1) as u32;
        assert(wave_covers(t4.right, w, u));
        assert(time_needed(t4, u));
        assert(u + 1 - t4.left < tf.points.len());
    } else {
        let u = w.time;
        assert(w.time - t4.left < t4.points.len());
        assert(w.time + 1 < t4.right);
        assert(wave_covers(t4.right, w, u));
        assert(time_needed(t4, u));
        assert(u + 1 - t4.left < tf.points.len());
    }
}

} // verus!
