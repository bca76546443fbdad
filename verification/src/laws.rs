//! System-wide laws: determinism of the transition, combat
//! non-negativity, energy gating, and the rewrite cascade.

use vstd::prelude::*;
use crate::orders::{ChronalCommand, ChronalCommandTypes, AchronalCommand, AchronalCommandTypes};
use crate::simulation::{
    Planet, Player, Simulation, world_view, sim_step_world, sim_step_meta, planet_wf, planet_step,
    planet_spawned, nsides, is_present, incoming_kills, count_after_combat, ArmyGroup, WorldV,
    DIR, send_out_spec, lane_between, lane_index, world_wf, order_ok, stepped_nodes,
    stepped_edges, kept_groups, group_advanced, lane_arrivals, all_arrivals, apply_arrivals,
    sat_add32, lemma_apply_arrivals_shape, send_step, send_all_pass, apply_orders,
    order_src, send_all_ok, connects, lemma_lane_unique, lemma_send_out_wf,
    lemma_sendall_order_wf, lemma_send_step_topo, lemma_same_topo_trans, lemma_order_ok_topo,
    same_topo, lemma_phase_wf,
};
use crate::graph::EdgeV;
use crate::timeline::{
    TimelineV, admit_one, cost_of, time_needed, resim_range, resim_one, tp_world, wave_wf,
    lemma_needed_step,
};

verus! {

/// Law (determinism): identical snapshot and command-list inputs to the
/// transition function yield an identical successor world and identical
/// statistics. Together with `Simulation::update`'s contract — whose
/// result equals these spec functions of its input — two calls on equal
/// inputs return equal values.
pub proof fn lemma_update_deterministic(
    a: Simulation,
    b: Simulation,
    oa: Seq<ChronalCommand>,
    ob: Seq<ChronalCommand>,
)
    requires
        world_view(a.world) == world_view(b.world),
        a.timestep == b.timestep,
        oa == ob,
    ensures
        sim_step_world(world_view(a.world), a.timestep, oa) == sim_step_world(
            world_view(b.world),
            b.timestep,
            ob,
        ),
        sim_step_meta(world_view(a.world)) == sim_step_meta(world_view(b.world)),
{
}

/// Law (combat non-negativity): a combat step clamps every garrison at
/// zero rather than wrapping; a garrison under fire never grows, and it
/// strictly shrinks once some other present player's accumulator crosses
/// the kill threshold.
pub proof fn lemma_combat_nonnegative(p: Planet, q: Player)
    requires
        planet_wf(p),
        nsides(planet_spawned(p)) >= 2,
    ensures
        planet_step(p).count.sel(q) >= 0,
        planet_step(p).count.sel(q) == count_after_combat(planet_spawned(p), q),
        planet_step(p).count.sel(q) <= planet_spawned(p).count.sel(q),
        is_present(planet_spawned(p), q) && incoming_kills(planet_spawned(p), q) > 0
            ==> planet_step(p).count.sel(q) < planet_spawned(p).count.sel(q),
{
    let ps = planet_spawned(p);
    match q {
        Player::PASSIVE => {},
        Player::P1 => {},
        Player::P2 => {},
    }
}

/// Law (energy gating): a world order addressed to tick `T` while the
/// present is `P` costs `max(0, P - T)`; when the issuer's energy does
/// not strictly exceed that cost, admission leaves the whole timeline —
/// in particular every time point — unchanged.
pub proof fn lemma_energy_gating(t: TimelineV, o: AchronalCommand, data: ChronalCommand)
    requires
        o.event == AchronalCommandTypes::Chronal(data),
        cost_of(t.present, data.time) >= t.energy.sel(o.player),
    ensures
        admit_one(t, o) == t,
        admit_one(t, o).points == t.points,
{
}

/// The invariant bundle of the resimulation cascade, established once by
/// induction over the processed range: the window only grows at the
/// frontier, filed commands are never touched, every tick strictly below
/// every swept one keeps its point, and the successor of every swept tick
/// processed so far holds exactly the transition of the (possibly itself
/// recomputed) point before it.
pub proof fn lemma_cascade_ind(t5: TimelineV, base: TimelineV, k: int)
    requires
        t5.points == base.points,
        t5.left == base.left,
        t5.right == base.right,
        base.points.len() >= 1,
        base.left + base.points.len() + 1 <= base.right,
        base.right <= u32::MAX - 1,
        forall|i: int| 0 <= i < base.waves.len() ==> wave_wf(base, #[trigger] base.waves[i]),
        wave_wf(base, base.player_waves.sel(Player::PASSIVE)),
        wave_wf(base, base.player_waves.sel(Player::P1)),
        wave_wf(base, base.player_waves.sel(Player::P2)),
        0 <= k <= base.right - 1 - base.left,
    ensures
        ({
            let r = resim_range(t5, base, k);
            &&& r.left == base.left
            &&& r.points.len() >= base.points.len()
            &&& base.left + r.points.len() <= base.right
            &&& forall|i: int|
                0 <= i < r.points.len() ==> (#[trigger] r.points[i]).commands == (if i
                    < base.points.len() {
                    base.points[i].commands
                } else {
                    Seq::<ChronalCommand>::empty()
                })
            &&& forall|i: int|
                0 <= i < base.points.len() && (forall|v: u32|
                    time_needed(base, v) ==> v + 1 - base.left > i) ==> #[trigger] r.points[i]
                    == base.points[i]
            &&& forall|u: u32|
                #[trigger] time_needed(base, u) && u - base.left < k ==> u + 1 - base.left
                    < r.points.len() && u - base.left < r.points.len() && r.points[u + 1
                    - base.left].timestep == u + 1 && tp_world(r.points[u + 1 - base.left])
                    == sim_step_world(
                    tp_world(r.points[u - base.left]),
                    u,
                    r.points[u - base.left].commands,
                ) && r.points[u + 1 - base.left].metadata == sim_step_meta(
                    tp_world(r.points[u - base.left]),
                )
        }),
    decreases k,
{
    if k > 0 {
        lemma_cascade_ind(t5, base, k - 1);
        let prev = resim_range(t5, base, k - 1);
        let r = resim_range(t5, base, k);
        let v = (base.left + k - 1) as u32;
        if time_needed(base, v) {
            lemma_needed_step(base, v);
            // the processed tick lies inside the already-computed part
            assert(v - base.left < prev.points.len()) by {
                if v - base.left >= base.points.len() {
                    assert(time_needed(base, (v - 1) as u32));
                    assert((v - 1) - base.left < k - 1);
                }
            }
            assert(r == resim_one(prev, v));
            let i2 = v + 1 - base.left;
            assert(r.points.len() >= prev.points.len());
            assert(i2 < r.points.len());
            assert forall|u: u32|
                #[trigger] time_needed(base, u) && u - base.left < k implies u + 1 - base.left
                < r.points.len() && u - base.left < r.points.len() && r.points[u + 1
                - base.left].timestep == u + 1 && tp_world(r.points[u + 1 - base.left])
                == sim_step_world(
                tp_world(r.points[u - base.left]),
                u,
                r.points[u - base.left].commands,
            ) && r.points[u + 1 - base.left].metadata == sim_step_meta(
                tp_world(r.points[u - base.left]),
            ) by {
                if u == v {
                } else {
                    assert(u - base.left < k - 1);
                    assert(u + 1 - base.left < i2);
                    assert(r.points[u + 1 - base.left] == prev.points[u + 1 - base.left]);
                    assert(r.points[u - base.left] == prev.points[u - base.left]);
                }
            }
            assert forall|i: int|
                0 <= i < base.points.len() && (forall|v2: u32|
                    time_needed(base, v2) ==> v2 + 1 - base.left > i) implies #[trigger] r.points[i]
                == base.points[i] by {
                assert(v + 1 - base.left > i);
                assert(prev.points[i] == base.points[i]);
            }
        }
    }
}

/// Law (rewrite cascade): within one evaluation, for every tick `u` some
/// wave swept, the retained point at `u + 1` afterwards holds exactly the
/// transition of the point at `u` as it stands after the same cascade —
/// so a change injected at a swept tick propagates through every
/// downstream swept tick, in ascending order, in that one call. Ticks
/// strictly below every swept tick are untouched.
pub proof fn lemma_rewrite_cascade(t5: TimelineV, base: TimelineV, u: u32)
    requires
        t5.points == base.points,
        t5.left == base.left,
        t5.right == base.right,
        base.points.len() >= 1,
        base.left + base.points.len() + 1 <= base.right,
        base.right <= u32::MAX - 1,
        forall|i: int| 0 <= i < base.waves.len() ==> wave_wf(base, #[trigger] base.waves[i]),
        wave_wf(base, base.player_waves.sel(Player::PASSIVE)),
        wave_wf(base, base.player_waves.sel(Player::P1)),
        wave_wf(base, base.player_waves.sel(Player::P2)),
        time_needed(base, u),
    ensures
        ({
            let r = resim_range(t5, base, base.right - 1 - base.left);
            &&& u + 1 - base.left < r.points.len()
            &&& r.points[u + 1 - base.left].timestep == u + 1
            &&& tp_world(r.points[u + 1 - base.left]) == sim_step_world(
                tp_world(r.points[u - base.left]),
                u,
                r.points[u - base.left].commands,
            )
            &&& r.points[u + 1 - base.left].metadata == sim_step_meta(
                tp_world(r.points[u - base.left]),
            )
            &&& r.points[u + 1 - base.left].commands == (if u + 1 - base.left
                < base.points.len() {
                base.points[u + 1 - base.left].commands
            } else {
                Seq::<ChronalCommand>::empty()
            })
            &&& forall|i: int|
                0 <= i < base.points.len() && (forall|v: u32|
                    time_needed(base, v) ==> v + 1 - base.left > i) ==> #[trigger] r.points[i]
                    == base.points[i]
        }),
{
    lemma_cascade_ind(t5, base, base.right - 1 - base.left);
    assert(u + 1 < base.right);
    assert(u - base.left < base.right - 1 - base.left);
}

/// Total garrison of player `q` over the first `i` planets.
pub open spec fn garrison_total(nodes: Seq<Planet>, q: Player, i: int) -> int
    decreases i,
{
    if i <= 0 {
        0
    } else {
        garrison_total(nodes, q, i - 1) + nodes[i - 1].count.sel(q)
    }
}

/// Units of player `q` among the first `k` groups of one lane.
pub open spec fn lane_total(s: Seq<ArmyGroup>, q: Player, k: int) -> int
    decreases k,
{
    if k <= 0 {
        0
    } else {
        lane_total(s, q, k - 1) + (if s[k - 1].player == q {
            s[k - 1].count as int
        } else {
            0
        })
    }
}

/// Units of player `q` in transit over the first `e` lanes.
pub open spec fn transit_total(edges: Seq<EdgeV>, q: Player, e: int) -> int
    decreases e,
{
    if e <= 0 {
        0
    } else {
        transit_total(edges, q, e - 1) + lane_total(
            edges[e - 1].lane.transfers,
            q,
            edges[e - 1].lane.transfers.len() as int,
        )
    }
}

/// Player `q`'s total units: garrisoned plus in transit.
pub open spec fn total_units(w: WorldV, q: Player) -> int {
    garrison_total(w.nodes, q, w.nodes.len() as int) + transit_total(
        w.edges,
        q,
        w.edges.len() as int,
    )
}

/// Units of player `q` among the first `j` queued arrivals.
pub open spec fn arrivals_total(arr: Seq<(usize, Player, u32)>, q: Player, j: int) -> int
    decreases j,
{
    if j <= 0 {
        0
    } else {
        arrivals_total(arr, q, j - 1) + (if arr[j - 1].1 == q {
            arr[j - 1].2 as int
        } else {
            0
        })
    }
}

proof fn lemma_garrison_nonneg(nodes: Seq<Planet>, q: Player, i: int)
    ensures
        garrison_total(nodes, q, i) >= 0,
    decreases i,
{
    if i > 0 {
        lemma_garrison_nonneg(nodes, q, i - 1);
    }
}

proof fn lemma_lane_total_nonneg(s: Seq<ArmyGroup>, q: Player, k: int)
    ensures
        lane_total(s, q, k) >= 0,
    decreases k,
{
    if k > 0 {
        lemma_lane_total_nonneg(s, q, k - 1);
    }
}

proof fn lemma_transit_nonneg(edges: Seq<EdgeV>, q: Player, e: int)
    ensures
        transit_total(edges, q, e) >= 0,
    decreases e,
{
    if e > 0 {
        lemma_transit_nonneg(edges, q, e - 1);
        lemma_lane_total_nonneg(
            edges[e - 1].lane.transfers,
            q,
            edges[e - 1].lane.transfers.len() as int,
        );
    }
}

proof fn lemma_arrivals_total_nonneg(arr: Seq<(usize, Player, u32)>, q: Player, j: int)
    ensures
        arrivals_total(arr, q, j) >= 0,
        forall|j2: int| 0 <= j2 <= j ==> #[trigger] arrivals_total(arr, q, j2) <= arrivals_total(
            arr,
            q,
            j,
        ),
    decreases j,
{
    if j > 0 {
        lemma_arrivals_total_nonneg(arr, q, j - 1);
    }
}

/// One planet's garrison is at most the total over all planets.
proof fn lemma_garrison_le(nodes: Seq<Planet>, q: Player, d: int, i: int)
    requires
        0 <= d < i,
    ensures
        nodes[d].count.sel(q) <= garrison_total(nodes, q, i),
    decreases i,
{
    lemma_garrison_nonneg(nodes, q, d);
    if d == i - 1 {
        lemma_garrison_nonneg(nodes, q, i - 1);
    } else {
        lemma_garrison_le(nodes, q, d, i - 1);
    }
}

/// Updating one planet shifts the garrison total by exactly its change.
proof fn lemma_garrison_update(nodes: Seq<Planet>, q: Player, d: int, p: Planet, i: int)
    requires
        0 <= d < nodes.len(),
        i <= nodes.len(),
    ensures
        garrison_total(nodes.update(d, p), q, i) == garrison_total(nodes, q, i) + (if d < i {
            p.count.sel(q) - nodes[d].count.sel(q)
        } else {
            0
        }),
    decreases i,
{
    if i > 0 {
        lemma_garrison_update(nodes, q, d, p, i - 1);
    }
}

/// Updating one lane shifts the transit total by exactly its change.
proof fn lemma_transit_update(edges: Seq<EdgeV>, q: Player, d: int, ed: EdgeV, e: int)
    requires
        0 <= d < edges.len(),
        e <= edges.len(),
    ensures
        transit_total(edges.update(d, ed), q, e) == transit_total(edges, q, e) + (if d < e {
            lane_total(ed.lane.transfers, q, ed.lane.transfers.len() as int) - lane_total(
                edges[d].lane.transfers,
                q,
                edges[d].lane.transfers.len() as int,
            )
        } else {
            0
        }),
    decreases e,
{
    if e > 0 {
        lemma_transit_update(edges, q, d, ed, e - 1);
    }
}

/// Appending one group adds exactly its units to the lane total.
proof fn lemma_lane_push(s: Seq<ArmyGroup>, g: ArmyGroup, q: Player)
    ensures
        lane_total(s.push(g), q, s.len() as int + 1) == lane_total(s, q, s.len() as int) + (if g.player
            == q {
            g.count as int
        } else {
            0
        }),
    decreases s.len(),
{
    let s1 = s.push(g);
    assert forall|k: int| 0 <= k < s.len() implies #[trigger] lane_total(s1, q, k) == lane_total(
        s,
        q,
        k,
    ) by {
        lemma_lane_prefix(s1, s, q, k);
    }
    assert(lane_total(s1, q, s.len() as int) == lane_total(s, q, s.len() as int)) by {
        lemma_lane_prefix(s1, s, q, s.len() as int);
    }
}

/// Lane totals agree on a common prefix.
proof fn lemma_lane_prefix(s1: Seq<ArmyGroup>, s2: Seq<ArmyGroup>, q: Player, k: int)
    requires
        k <= s1.len(),
        k <= s2.len(),
        forall|j: int| 0 <= j < k ==> s1[j] == s2[j],
    ensures
        lane_total(s1, q, k) == lane_total(s2, q, k),
    decreases k,
{
    if k > 0 {
        lemma_lane_prefix(s1, s2, q, k - 1);
    }
}

/// Sending units out moves them from the garrison to a lane: the total is
/// exactly preserved.
proof fn lemma_send_total(w: WorldV, from: int, to: int, qq: Player, percent: int, q: Player)
    requires
        0 <= from < w.nodes.len(),
        0 <= percent <= 100,
        lane_between(w.edges, from, to) ==> 0 <= lane_index(w.edges, from, to) < w.edges.len(),
    ensures
        total_units(send_out_spec(w, from, to, qq, percent), q) == total_units(w, q),
{
    if lane_between(w.edges, from, to) {
        let e = lane_index(w.edges, from, to);
        let cnt = w.nodes[from].count.sel(qq);
        let amount = cnt * percent / 100;
        assert(0 <= amount <= cnt) by (nonlinear_arith)
            requires
                0 <= percent <= 100,
                0 <= cnt,
                amount == cnt * percent / 100,
        ;
        if amount > 0 {
            let r = send_out_spec(w, from, to, qq, percent);
            let node1 = r.nodes[from];
            lemma_garrison_update(w.nodes, q, from, node1, w.nodes.len() as int);
            lemma_transit_update(w.edges, q, e, r.edges[e], w.edges.len() as int);
            let g = ArmyGroup {
                direction: if w.edges[e].a == from {
                    DIR::FORWARD
                } else {
                    DIR::BACKWARD
                },
                progress: 0,
                count: amount as u32,
                player: qq,
            };
            lemma_lane_push(w.edges[e].lane.transfers, g, q);
        }
    }
}

/// Totals of two arrival queues concatenate additively.
proof fn lemma_arr_concat(x: Seq<(usize, Player, u32)>, y: Seq<(usize, Player, u32)>, q: Player)
    ensures
        arrivals_total(x + y, q, x.len() as int + y.len() as int) == arrivals_total(x, q, x.len() as int)
            + arrivals_total(y, q, y.len() as int),
    decreases y.len(),
{
    if y.len() == 0 {
        assert(x + y =~= x);
        lemma_arr_prefix(x + y, x, q, x.len() as int);
    } else {
        lemma_arr_concat(x, y.drop_last(), q);
        assert(x + y.drop_last() =~= (x + y).take(x.len() + y.len() - 1));
        lemma_arr_prefix(x + y.drop_last(), x + y, q, x.len() as int + y.len() as int - 1);
        lemma_arr_prefix(y, y.drop_last(), q, y.len() as int - 1);
        assert((x + y)[x.len() + y.len() - 1] == y[y.len() - 1]);
    }
}

/// Arrival totals agree on a common prefix.
proof fn lemma_arr_prefix(
    s1: Seq<(usize, Player, u32)>,
    s2: Seq<(usize, Player, u32)>,
    q: Player,
    k: int,
)
    requires
        k <= s1.len(),
        k <= s2.len(),
        forall|j: int| 0 <= j < k ==> s1[j] == s2[j],
    ensures
        arrivals_total(s1, q, k) == arrivals_total(s2, q, k),
    decreases k,
{
    if k > 0 {
        lemma_arr_prefix(s1, s2, q, k - 1);
    }
}

/// A spawned-but-uncontested planet's garrison never shrinks, and grows
/// by at most the one spawned unit.
proof fn lemma_step_grows(p: Planet, q: Player)
    requires
        nsides(planet_spawned(p)) < 2,
    ensures
        planet_step(p).count.sel(q) >= p.count.sel(q),
        planet_step(p).count.sel(q) <= p.count.sel(q) + 1,
{
    match q {
        Player::PASSIVE => {},
        Player::P1 => {},
        Player::P2 => {},
    }
}

/// The node advance can only grow garrisons while no planet is contested,
/// and by at most one unit per planet.
proof fn lemma_garrison_step(nodes: Seq<Planet>, q: Player, i: int)
    requires
        forall|j: int| 0 <= j < nodes.len() ==> nsides(planet_spawned(#[trigger] nodes[j])) < 2,
        0 <= i <= nodes.len(),
    ensures
        garrison_total(stepped_nodes(nodes), q, i) >= garrison_total(nodes, q, i),
        garrison_total(stepped_nodes(nodes), q, i) <= garrison_total(nodes, q, i) + i,
    decreases i,
{
    if i > 0 {
        lemma_garrison_step(nodes, q, i - 1);
        lemma_step_grows(nodes[i - 1], q);
    }
}

/// One lane's advance splits its units exactly between the kept groups
/// and the arrivals.
proof fn lemma_lane_split(a: usize, b: usize, len: i32, s: Seq<ArmyGroup>, q: Player)
    ensures
        lane_total(kept_groups(s, len), q, kept_groups(s, len).len() as int) + arrivals_total(
            lane_arrivals(a, b, len, s),
            q,
            lane_arrivals(a, b, len, s).len() as int,
        ) == lane_total(s, q, s.len() as int),
    decreases s.len(),
{
    if s.len() > 0 {
        lemma_lane_split(a, b, len, s.drop_last(), q);
        let dl = s.drop_last();
        let last = s.last();
        assert(forall|j: int| 0 <= j < dl.len() ==> dl[j] == s[j]);
        lemma_lane_prefix(s, dl, q, dl.len() as int);
        assert(lane_total(s, q, s.len() as int) == lane_total(dl, q, dl.len() as int) + (
        if last.player == q {
            last.count as int
        } else {
            0
        }));
        if last.progress > len {
            assert(kept_groups(s, len) =~= kept_groups(dl, len));
            lemma_lane_prefix(kept_groups(s, len), kept_groups(dl, len), q, kept_groups(dl, len).len() as int);
            assert(lane_arrivals(a, b, len, s) =~= lane_arrivals(a, b, len, dl).push(
                (
                    match last.direction {
                        DIR::FORWARD => b,
                        DIR::BACKWARD => a,
                    },
                    last.player,
                    last.count,
                ),
            ));
            lemma_arr_concat(
                lane_arrivals(a, b, len, dl),
                seq![
                    (
                        match last.direction {
                            DIR::FORWARD => b,
                            DIR::BACKWARD => a,
                        },
                        last.player,
                        last.count,
                    ),
                ],
                q,
            );
            assert(lane_arrivals(a, b, len, s) == lane_arrivals(a, b, len, dl) + seq![
                (
                    match last.direction {
                        DIR::FORWARD => b,
                        DIR::BACKWARD => a,
                    },
                    last.player,
                    last.count,
                ),
            ]);

            assert(lane_total(kept_groups(s, len), q, kept_groups(s, len).len() as int)
                == lane_total(kept_groups(dl, len), q, kept_groups(dl, len).len() as int));
            assert(arrivals_total(lane_arrivals(a, b, len, s), q, lane_arrivals(a, b, len, s).len() as int)
                == arrivals_total(lane_arrivals(a, b, len, dl), q, lane_arrivals(a, b, len, dl).len() as int)
                + (if last.player == q { last.count as int } else { 0 })) by {
                reveal_with_fuel(arrivals_total, 3);
            }
            assert(lane_total(kept_groups(s, len), q, kept_groups(s, len).len() as int)
                + arrivals_total(
                lane_arrivals(a, b, len, s),
                q,
                lane_arrivals(a, b, len, s).len() as int,
            ) == lane_total(s, q, s.len() as int));
        } else {
            assert(kept_groups(s, len) =~= kept_groups(dl, len).push(group_advanced(last)));
            lemma_lane_push(kept_groups(dl, len), group_advanced(last), q);
            assert(lane_arrivals(a, b, len, s) =~= lane_arrivals(a, b, len, dl));
            lemma_arr_prefix(
                lane_arrivals(a, b, len, s),
                lane_arrivals(a, b, len, dl),
                q,
                lane_arrivals(a, b, len, dl).len() as int,
            );
            assert(lane_total(kept_groups(s, len), q, kept_groups(s, len).len() as int)
                + arrivals_total(
                lane_arrivals(a, b, len, s),
                q,
                lane_arrivals(a, b, len, s).len() as int,
            ) == lane_total(s, q, s.len() as int));
        }
    }
}

/// The lane advance splits all in-transit units exactly between the
/// stepped lanes and the queued arrivals.
proof fn lemma_transit_split(edges: Seq<EdgeV>, q: Player, e: int)
    requires
        0 <= e <= edges.len(),
    ensures
        transit_total(stepped_edges(edges), q, e) + arrivals_total(
            all_arrivals(edges, e),
            q,
            all_arrivals(edges, e).len() as int,
        ) == transit_total(edges, q, e),
    decreases e,
{
    if e > 0 {
        lemma_transit_split(edges, q, e - 1);
        let ed = edges[e - 1];
        lemma_lane_split(ed.a, ed.b, ed.lane.length, ed.lane.transfers, q);
        lemma_arr_concat(
            all_arrivals(edges, e - 1),
            lane_arrivals(ed.a, ed.b, ed.lane.length, ed.lane.transfers),
            q,
        );
        assert(stepped_edges(edges)[e - 1].lane.transfers == kept_groups(
            ed.lane.transfers,
            ed.lane.length,
        ));
    }
}

/// Crediting arrivals moves exactly the queued units into garrisons, as
/// long as the grand total stays below the counter cap.
proof fn lemma_apply_arr(nodes: Seq<Planet>, arr: Seq<(usize, Player, u32)>, j: int, q: Player)
    requires
        forall|k: int| 0 <= k < arr.len() ==> (#[trigger] arr[k]).0 < nodes.len(),
        0 <= j <= arr.len(),
        garrison_total(nodes, q, nodes.len() as int) + arrivals_total(arr, q, arr.len() as int)
            <= u32::MAX,
    ensures
        garrison_total(apply_arrivals(nodes, arr, j), q, nodes.len() as int) == garrison_total(
            nodes,
            q,
            nodes.len() as int,
        ) + arrivals_total(arr, q, j),
    decreases j,
{
    let n = nodes.len() as int;
    if j > 0 {
        lemma_apply_arr(nodes, arr, j - 1, q);
        lemma_apply_arrivals_shape(nodes, arr, j - 1);
        lemma_apply_arrivals_shape(nodes, arr, j);
        let prev = apply_arrivals(nodes, arr, j - 1);
        let d = arr[j - 1].0 as int;
        let qq = arr[j - 1].1;
        let c = arr[j - 1].2;
        let cur = prev[d].count.sel(qq);
        let pnew = Planet { count: prev[d].count.upd(qq, sat_add32(cur, c)), ..prev[d] };
        lemma_garrison_update(prev, q, d, pnew, n);
        lemma_garrison_le(prev, q, d, n);
        lemma_arrivals_total_nonneg(arr, q, arr.len() as int);
        if qq == q {
            assert(cur <= garrison_total(prev, q, n));
            assert(arrivals_total(arr, q, j) <= arrivals_total(arr, q, arr.len() as int));
            assert(cur + c <= u32::MAX);
            assert(pnew.count.sel(q) == cur + c);
        } else {
            assert(pnew.count.sel(q) == prev[d].count.sel(q));
        }
    }
}

/// One standing-order dispatch preserves every player's total exactly.
proof fn lemma_send_step_total(w: WorldV, i: int, q2: Player, q: Player)
    requires
        world_wf(w),
        0 <= i < w.nodes.len(),
    ensures
        total_units(send_step(w, i, q2), q) == total_units(w, q),
        world_wf(send_step(w, i, q2)),
        same_topo(w, send_step(w, i, q2)),
        send_step(w, i, q2).nodes.len() == w.nodes.len(),
{
    assert(send_all_ok(w, i, q2));
    lemma_send_step_topo(w, i, q2);
    match w.nodes[i].send_all.sel(q2) {
        Some(t) => {
            assert(lane_between(w.edges, i, t as int));
            let e = choose|e: int|
                0 <= e < w.edges.len() && connects(#[trigger] w.edges[e], i, t as int);
            lemma_lane_unique(w.edges, i, t as int, e);
            lemma_send_total(w, i, t as int, q2, 100, q);
        },
        None => {},
    }
}

/// The standing-order pass preserves every player's total exactly.
proof fn lemma_send_all_pass_total(w: WorldV, i: int, q: Player)
    requires
        world_wf(w),
        0 <= i <= w.nodes.len(),
    ensures
        total_units(send_all_pass(w, i), q) == total_units(w, q),
        world_wf(send_all_pass(w, i)),
        same_topo(w, send_all_pass(w, i)),
        send_all_pass(w, i).nodes.len() == w.nodes.len(),
    decreases i,
{
    assert(same_topo(w, w));
    if i > 0 {
        lemma_send_all_pass_total(w, i - 1, q);
        let w1 = send_all_pass(w, i - 1);
        lemma_send_step_total(w1, i - 1, Player::PASSIVE, q);
        let w2 = send_step(w1, i - 1, Player::PASSIVE);
        lemma_send_step_total(w2, i - 1, Player::P1, q);
        let w3 = send_step(w2, i - 1, Player::P1);
        lemma_send_step_total(w3, i - 1, Player::P2, q);
        lemma_same_topo_trans(w, w1, w2);
        lemma_same_topo_trans(w, w2, w3);
        lemma_same_topo_trans(w, w3, send_step(w3, i - 1, Player::P2));
    }
}

/// Applying filed orders preserves every player's total exactly.
proof fn lemma_apply_orders_total(w: WorldV, orders: Seq<ChronalCommand>, k: int, q: Player)
    requires
        world_wf(w),
        0 <= k <= orders.len(),
        forall|j: int| 0 <= j < orders.len() ==> order_ok(w, #[trigger] orders[j]),
    ensures
        total_units(apply_orders(w, orders, k), q) == total_units(w, q),
        world_wf(apply_orders(w, orders, k)),
        same_topo(w, apply_orders(w, orders, k)),
        apply_orders(w, orders, k).nodes.len() == w.nodes.len(),
    decreases k,
{
    assert(same_topo(w, w));
    if k > 0 {
        lemma_apply_orders_total(w, orders, k - 1, q);
        let w1 = apply_orders(w, orders, k - 1);
        let o = orders[k - 1];
        assert(order_ok(w, o));
        lemma_order_ok_topo(w, w1, o);
        match o.command {
            ChronalCommandTypes::Transport(tc) => {
                let src = order_src(o);
                assert(lane_between(w1.edges, src, tc.to as int));
                let e = choose|e: int|
                    0 <= e < w1.edges.len() && connects(#[trigger] w1.edges[e], src, tc.to as int);
                lemma_lane_unique(w1.edges, src, tc.to as int, e);
                lemma_send_total(w1, src, tc.to as int, o.player, tc.percent as int, q);
                lemma_send_out_wf(w1, src, tc.to as int, o.player, tc.percent as int);
                lemma_same_topo_trans(w, w1, apply_orders(w, orders, k));
            },
            ChronalCommandTypes::SendAll(sc) => {
                let src = order_src(o);
                let pnew = Planet {
                    send_all: w1.nodes[src].send_all.upd(o.player, sc.to),
                    ..w1.nodes[src]
                };
                lemma_garrison_update(w1.nodes, q, src, pnew, w1.nodes.len() as int);
                lemma_sendall_order_wf(w1, src, o.player, sc.to);
                lemma_same_topo_trans(w, w1, apply_orders(w, orders, k));
            },
        }
    }
}

/// Law (conservation): on a tick where no planet sees two or more present
/// players — so no combat occurs — every player's total unit count
/// (garrisoned plus in transit) is non-decreasing under the transition;
/// the only growth is spawning, at most one unit per planet. The totals
/// must sit far enough below the counter cap that no addition saturates.
pub proof fn lemma_conservation(w: WorldV, timestep: u32, orders: Seq<ChronalCommand>, q: Player)
    requires
        world_wf(w),
        forall|j: int| 0 <= j < orders.len() ==> order_ok(w, #[trigger] orders[j]),
        forall|i: int| 0 <= i < w.nodes.len() ==> nsides(planet_spawned(#[trigger] w.nodes[i])) < 2,
        total_units(w, q) + w.nodes.len() <= u32::MAX,
    ensures
        total_units(sim_step_world(w, timestep, orders), q) >= total_units(w, q),
        total_units(sim_step_world(w, timestep, orders), q) <= total_units(w, q) + w.nodes.len(),
{
    let n = w.nodes.len() as int;
    let m = w.edges.len() as int;
    let arr = all_arrivals(w.edges, m);
    let sn = stepped_nodes(w.nodes);
    let w2 = WorldV {
        nodes: apply_arrivals(sn, arr, arr.len() as int),
        edges: stepped_edges(w.edges),
    };
    lemma_garrison_step(w.nodes, q, n);
    lemma_transit_split(w.edges, q, m);
    lemma_transit_nonneg(stepped_edges(w.edges), q, m);
    lemma_transit_nonneg(w.edges, q, m);
    lemma_arrivals_total_nonneg(arr, q, arr.len() as int);
    lemma_garrison_nonneg(w.nodes, q, n);
    lemma_garrison_nonneg(sn, q, n);
    crate::simulation::lemma_all_arrivals_dest(w, m);
    lemma_apply_arrivals_shape(sn, arr, arr.len() as int);
    lemma_apply_arr(sn, arr, arr.len() as int, q);
    assert(total_units(w2, q) == garrison_total(sn, q, n) + transit_total(w.edges, q, m));
    assert(total_units(w2, q) >= total_units(w, q));
    assert(total_units(w2, q) <= total_units(w, q) + n);
    lemma_phase_wf(w);
    let w3 = if timestep % 5 == 0 {
        send_all_pass(w2, w2.nodes.len() as int)
    } else {
        w2
    };
    lemma_apply_arrivals_shape(sn, arr, arr.len() as int);
    if timestep % 5 == 0 {
        lemma_send_all_pass_total(w2, w2.nodes.len() as int, q);
    }
    assert(total_units(w3, q) == total_units(w2, q));
    assert(world_wf(w3));
    assert(same_topo(w, w3)) by {
        if timestep % 5 == 0 {
            lemma_same_topo_trans(w, w2, w3);
        }
    }
    assert forall|j: int| 0 <= j < orders.len() implies order_ok(w3, #[trigger] orders[j]) by {
        lemma_order_ok_topo(w, w3, orders[j]);
    }
    assert(w3.nodes.len() == w.nodes.len());
    lemma_apply_orders_total(w3, orders, orders.len() as int, q);
}

} // verus!
