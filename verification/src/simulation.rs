//! World state: players, planets, hyperlanes, and the per-tick transition.
//!
//! The transition is specified by pure spec functions (`planet_step`,
//! `sim_step_world`, `sim_step_meta`) over a mathematical view of the world
//! graph; the executable code is proved to compute exactly those functions.

use vstd::prelude::*;
use crate::plain_enum::{TPlainEnum, TEnumMapType};
use crate::library::Ipt;
use crate::library::{MAX_COORD, spec_dist2};
use crate::orders::{ChronalTime, ChronalCommand, ChronalCommandTypes};
use crate::graph::{WorldGraph, EdgeV, graph_nodes, graph_edges, wg_find_edge_undirected, wg_get_node, wg_set_node, wg_get_lane, wg_set_lane, wg_node_count, wg_edge_count, wg_edge_ends, wg_clone};

verus! {

/// The closed player set: the neutral `PASSIVE` side plus the real players.
#[derive(Copy, Clone, PartialEq, Eq, Structural, Debug, Hash)]
pub enum Player {
    PASSIVE,
    P1,
    P2,
}

impl TPlainEnum for Player {
    open spec fn arity() -> usize {
        3
    }

    open spec fn as_usize(self) -> usize {
        match self {
            Player::PASSIVE => 0,
            Player::P1 => 1,
            Player::P2 => 2,
        }
    }

    fn size() -> (n: usize) {
        3
    }

    fn valid_usize(u: usize) -> (r: bool) {
        u < 3
    }

    fn from_usize(u: usize) -> (r: Self) {
        if u == 0 {
            Player::PASSIVE
        } else if u == 1 {
            Player::P1
        } else {
            Player::P2
        }
    }

    fn checked_from_usize(u: usize) -> (r: Option<Self>) {
        if u < 3 {
            Some(Self::from_usize(u))
        } else {
            None
        }
    }

    fn wrapped_from_usize(u: usize) -> (r: Self) {
        Self::from_usize(u % 3)
    }

    fn wrapped_difference(self, e_other: Self) -> (r: usize) {
        (self.to_usize() + 3 - e_other.to_usize()) % 3
    }

    fn to_usize(self) -> (r: usize) {
        match self {
            Player::PASSIVE => 0,
            Player::P1 => 1,
            Player::P2 => 2,
        }
    }

    fn values() -> (r: Vec<Self>) {
        let mut v: Vec<Player> = Vec::new();
        v.push(Player::PASSIVE);
        v.push(Player::P1);
        v.push(Player::P2);
        proof {
            assert(forall|i: int| 0 <= i < v@.len() ==> (#[trigger] v@[i]).as_usize() == i);
        }
        v
    }

    fn wrapping_add(self, n_offset: usize) -> (r: Self) {
        Self::from_usize((self.to_usize() + n_offset) % 3)
    }
}

/// A total, array-backed map from `Player` to `T`.
#[derive(Copy, Clone, PartialEq, Eq, Debug)]
pub struct PlayerArr<T> {
    pub passive: T,
    pub p1: T,
    pub p2: T,
}

impl<T> TEnumMapType<T> for Player {
    type MapType = PlayerArr<T>;
}

impl<T> PlayerArr<T> {
    /// The entry for player `q`.
    pub open spec fn sel(self, q: Player) -> T {
        match q {
            Player::PASSIVE => self.passive,
            Player::P1 => self.p1,
            Player::P2 => self.p2,
        }
    }

    /// The map with the entry for `q` replaced by `v`.
    pub open spec fn upd(self, q: Player, v: T) -> PlayerArr<T> {
        match q {
            Player::PASSIVE => PlayerArr { passive: v, ..self },
            Player::P1 => PlayerArr { p1: v, ..self },
            Player::P2 => PlayerArr { p2: v, ..self },
        }
    }

    /// Reads the entry for player `q`.
    pub fn get(&self, q: Player) -> (r: &T)
        ensures
            *r == self.sel(q),
    {
        match q {
            Player::PASSIVE => &self.passive,
            Player::P1 => &self.p1,
            Player::P2 => &self.p2,
        }
    }

    /// Replaces the entry for player `q`.
    pub fn put(&mut self, q: Player, v: T)
        ensures
            *final(self) == old(self).upd(q, v),
    {
        match q {
            Player::PASSIVE => {
                self.passive = v;
            },
            Player::P1 => {
                self.p1 = v;
            },
            Player::P2 => {
                self.p2 = v;
            },
        }
    }
}

impl<T: Copy> PlayerArr<T> {
    /// A map holding `val` for every player.
    pub fn new(val: T) -> (r: PlayerArr<T>)
        ensures
            r == PlayerArr::new_spec(val),
            forall|q: Player| #[trigger] r.sel(q) == val,
    {
        PlayerArr { passive: val, p1: val, p2: val }
    }
}

/// Distance an in-flight army group advances per tick.
pub const ARMY_SPEED: i32 = 100;

/// Spawn progress needed before an owned planet produces one unit.
pub const SPAWN_NEEDED: u32 = 64;

/// Spawn progress accumulated per tick on an owned planet.
pub const SPAWN_RATE: u32 = 10;

/// Combat accumulator threshold for one kill.
pub const KILL_NEEDED: u32 = 100;

/// Largest admissible lane length; keeps progress arithmetic inside `i32`.
pub const MAX_LANE_LENGTH: i32 = 1000000000;

/// `a + b` clamped to `u32`.
pub open spec fn sat_add32(a: u32, b: u32) -> u32 {
    if a + b > u32::MAX {
        u32::MAX
    } else {
        (a + b) as u32
    }
}

/// `a - b` clamped at zero.
pub open spec fn sat_sub32(a: u32, b: u32) -> u32 {
    if a >= b {
        (a - b) as u32
    } else {
        0
    }
}

/// Per-tick, per-player aggregates, recomputed for observability.
#[derive(Copy, Clone, PartialEq, Eq, Debug)]
pub struct SimMetadata {
    pub total_planet: PlayerArr<u32>,
    pub total_dead: PlayerArr<u32>,
    pub total_transit: PlayerArr<u32>,
}

impl SimMetadata {
    /// The all-zero statistics record.
    pub open spec fn spec_init() -> SimMetadata {
        SimMetadata {
            total_planet: PlayerArr { passive: 0u32, p1: 0u32, p2: 0u32 },
            total_dead: PlayerArr { passive: 0u32, p1: 0u32, p2: 0u32 },
            total_transit: PlayerArr { passive: 0u32, p1: 0u32, p2: 0u32 },
        }
    }

    /// Fresh all-zero statistics.
    pub fn new() -> (r: SimMetadata)
        ensures
            r == SimMetadata::spec_init(),
    {
        SimMetadata {
            total_planet: PlayerArr::new(0),
            total_dead: PlayerArr::new(0),
            total_transit: PlayerArr::new(0),
        }
    }
}

/// A graph node: one planet with its garrisons and standing orders.
#[derive(Copy, Clone, PartialEq, Eq, Debug)]
pub struct Planet {
    pub loc: Ipt,
    pub count: PlayerArr<u32>,
    pub fight_progess: PlayerArr<u32>,
    pub send_all: PlayerArr<Option<usize>>,
    pub owner: Player,
    pub owner_strength: u32,
    pub max_strength: u32,
    pub spawn_progress: u32,
}

/// Well-formedness of a single planet, preserved by every tick.
pub open spec fn planet_wf(p: Planet) -> bool {
    &&& p.owner_strength <= p.max_strength
    &&& p.spawn_progress < SPAWN_NEEDED
    &&& forall|q: Player| #[trigger] p.fight_progess.sel(q) < KILL_NEEDED
    &&& -MAX_COORD <= p.loc.x <= MAX_COORD
    &&& -MAX_COORD <= p.loc.y <= MAX_COORD
}

impl Planet {
    /// A fresh planet at `loc` owned by `owner`, garrisoned with 10 units.
    pub fn new(loc: Ipt, owner: Player) -> (r: Planet)
        ensures
            r.loc == loc,
            r.owner == owner,
            r.count == PlayerArr::new_spec(0u32).upd(owner, 10u32),
            r.fight_progess == PlayerArr::new_spec(0u32),
            r.send_all == PlayerArr::new_spec(Option::<usize>::None),
            r.owner_strength == 64u32,
            r.max_strength == 64u32,
            r.spawn_progress == 0u32,
    {
        let mut count: PlayerArr<u32> = PlayerArr::new(0);
        count.put(owner, 10);
        proof {
            assert(count == PlayerArr::new_spec(0u32).upd(owner, 10u32));
        }
        Planet {
            loc,
            count,
            fight_progess: PlayerArr { passive: 0, p1: 0, p2: 0 },
            send_all: PlayerArr { passive: None, p1: None, p2: None },
            owner,
            owner_strength: 64,
            max_strength: 64,
            spawn_progress: 0,
        }
    }
}

impl<T> PlayerArr<T> {
    /// The constant map holding `v` everywhere.
    pub open spec fn new_spec(v: T) -> PlayerArr<T> {
        PlayerArr { passive: v, p1: v, p2: v }
    }
}

/// Whether player `q` has a nonzero garrison at `p`.
pub open spec fn is_present(p: Planet, q: Player) -> bool {
    p.count.sel(q) > 0
}

/// The players present at `p`, in numbering order.
pub open spec fn sides_seq(p: Planet) -> Seq<Player> {
    (if is_present(p, Player::PASSIVE) {
        seq![Player::PASSIVE]
    } else {
        Seq::empty()
    }) + (if is_present(p, Player::P1) {
        seq![Player::P1]
    } else {
        Seq::empty()
    }) + (if is_present(p, Player::P2) {
        seq![Player::P2]
    } else {
        Seq::empty()
    })
}

/// How many players are present at `p`.
pub open spec fn nsides(p: Planet) -> int {
    sides_seq(p).len() as int
}

/// Spawning: an owned planet accumulates progress and, on overflow, one unit.
pub open spec fn planet_spawned(p: Planet) -> Planet {
    if p.owner != Player::PASSIVE {
        let sp = p.spawn_progress + SPAWN_RATE;
        if sp >= SPAWN_NEEDED {
            Planet {
                spawn_progress: (sp - SPAWN_NEEDED) as u32,
                count: p.count.upd(p.owner, sat_add32(p.count.sel(p.owner), 1)),
                ..p
            }
        } else {
            Planet { spawn_progress: sp as u32, ..p }
        }
    } else {
        Planet { spawn_progress: 0, ..p }
    }
}

/// Ownership drift when exactly one player is present (input has zeroed
/// combat accumulators). A sole intruder wears the fortification down to
/// zero; a neutral planet is then captured outright, an owned one first
/// falls back to neutral with fortification reset to maximum. An owner
/// still holding garrison regenerates fortification up to maximum.
pub open spec fn planet_ownership(p: Planet) -> Planet {
    let sole = sides_seq(p)[0];
    if p.count.sel(p.owner) == 0 {
        let s1: u32 = if p.owner_strength > 0 {
            (p.owner_strength - 1) as u32
        } else {
            0u32
        };
        if s1 == 0 {
            if p.owner == Player::PASSIVE {
                Planet { owner: sole, owner_strength: s1, ..p }
            } else {
                Planet { owner: Player::PASSIVE, owner_strength: p.max_strength, ..p }
            }
        } else {
            Planet { owner_strength: s1, ..p }
        }
    } else {
        let s1: u32 = if p.owner_strength < p.max_strength {
            (p.owner_strength + 1) as u32
        } else {
            p.owner_strength
        };
        Planet { owner_strength: s1, ..p }
    }
}

/// Kills scored by player `q` this tick (combat case), read from the
/// pre-iteration snapshot `p`.
pub open spec fn kill_count(p: Planet, q: Player) -> int {
    if is_present(p, q) {
        (p.fight_progess.sel(q) + p.count.sel(q)) / (KILL_NEEDED as int)
    } else {
        0
    }
}

/// Player `q`'s combat accumulator after this tick (combat case).
pub open spec fn acc_after(p: Planet, q: Player) -> u32 {
    if is_present(p, q) {
        ((p.fight_progess.sel(q) + p.count.sel(q)) % (KILL_NEEDED as int)) as u32
    } else {
        p.fight_progess.sel(q)
    }
}

/// Kills suffered by player `q`: every other present player's kills.
pub open spec fn incoming_kills(p: Planet, q: Player) -> int {
    (if q != Player::PASSIVE {
        kill_count(p, Player::PASSIVE)
    } else {
        0
    }) + (if q != Player::P1 {
        kill_count(p, Player::P1)
    } else {
        0
    }) + (if q != Player::P2 {
        kill_count(p, Player::P2)
    } else {
        0
    })
}

/// Player `q`'s garrison after simultaneous attrition, clamped at zero.
pub open spec fn count_after_combat(p: Planet, q: Player) -> u32 {
    if is_present(p, q) {
        if p.count.sel(q) >= incoming_kills(p, q) {
            (p.count.sel(q) - incoming_kills(p, q)) as u32
        } else {
            0u32
        }
    } else {
        p.count.sel(q)
    }
}

/// Units player `q` actually loses to combat this tick.
pub open spec fn deaths_in_combat(p: Planet, q: Player) -> u32 {
    (p.count.sel(q) - count_after_combat(p, q)) as u32
}

/// The full node advance for one planet: spawning, then either ownership
/// drift (fewer than two present) or simultaneous attrition.
pub open spec fn planet_step(p0: Planet) -> Planet {
    let p = planet_spawned(p0);
    if nsides(p) < 2 {
        let pz = Planet { fight_progess: PlayerArr::new_spec(0u32), ..p };
        if nsides(p) == 1 {
            planet_ownership(pz)
        } else {
            pz
        }
    } else {
        Planet {
            count: PlayerArr {
                passive: count_after_combat(p, Player::PASSIVE),
                p1: count_after_combat(p, Player::P1),
                p2: count_after_combat(p, Player::P2),
            },
            fight_progess: PlayerArr {
                passive: acc_after(p, Player::PASSIVE),
                p1: acc_after(p, Player::P1),
                p2: acc_after(p, Player::P2),
            },
            ..p
        }
    }
}

/// Contribution of planet `p0` to the population statistic for `q`.
pub open spec fn pop_delta(p0: Planet, q: Player) -> u32 {
    let p = planet_spawned(p0);
    if is_present(p, q) {
        p.count.sel(q)
    } else {
        0u32
    }
}

/// Contribution of planet `p0` to the casualty statistic for `q`.
pub open spec fn death_delta(p0: Planet, q: Player) -> u32 {
    let p = planet_spawned(p0);
    if nsides(p) >= 2 {
        deaths_in_combat(p, q)
    } else {
        0u32
    }
}

/// Componentwise saturating addition of two player maps.
pub open spec fn arr_sat_add(a: PlayerArr<u32>, b: PlayerArr<u32>) -> PlayerArr<u32> {
    PlayerArr {
        passive: sat_add32(a.passive, b.passive),
        p1: sat_add32(a.p1, b.p1),
        p2: sat_add32(a.p2, b.p2),
    }
}

/// All population deltas of `p0` as a player map.
pub open spec fn pop_delta_arr(p0: Planet) -> PlayerArr<u32> {
    PlayerArr {
        passive: pop_delta(p0, Player::PASSIVE),
        p1: pop_delta(p0, Player::P1),
        p2: pop_delta(p0, Player::P2),
    }
}

/// All casualty deltas of `p0` as a player map.
pub open spec fn death_delta_arr(p0: Planet) -> PlayerArr<u32> {
    PlayerArr {
        passive: death_delta(p0, Player::PASSIVE),
        p1: death_delta(p0, Player::P1),
        p2: death_delta(p0, Player::P2),
    }
}

/// The node advance preserves planet well-formedness.
pub proof fn lemma_planet_step_wf(p: Planet)
    requires
        planet_wf(p),
    ensures
        planet_wf(planet_step(p)),
        planet_step(p).loc == p.loc,
        planet_step(p).send_all == p.send_all,
        planet_step(p).max_strength == p.max_strength,
{
    let ps = planet_spawned(p);
    assert(forall|q: Player| #[trigger] planet_step(p).fight_progess.sel(q) < KILL_NEEDED) by {
        if nsides(ps) >= 2 {
            assert forall|q: Player| #[trigger] planet_step(p).fight_progess.sel(q) < KILL_NEEDED by {
                assert(planet_step(p).fight_progess.sel(q) == acc_after(ps, q));
            }
        }
    }
}

/// The players with nonzero garrison at `node`, in numbering order.
pub fn find_sides_node(node: &Planet) -> (r: Vec<Player>)
    ensures
        r@ == sides_seq(*node),
{
    let mut sides_found: Vec<Player> = Vec::new();
    if *node.count.get(Player::PASSIVE) > 0 {
        sides_found.push(Player::PASSIVE);
    }
    if *node.count.get(Player::P1) > 0 {
        sides_found.push(Player::P1);
    }
    if *node.count.get(Player::P2) > 0 {
        sides_found.push(Player::P2);
    }
    proof {
        assert(sides_found@ =~= sides_seq(*node));
    }
    sides_found
}

impl Planet {
    /// Advances this planet one tick, accumulating the population and
    /// casualty statistics into the given totals (saturating).
    pub fn advance(&mut self, total_planet: &mut PlayerArr<u32>, total_dead: &mut PlayerArr<u32>)
        requires
            planet_wf(*old(self)),
        ensures
            *final(self) == planet_step(*old(self)),
            planet_wf(*final(self)),
            *final(total_planet) == arr_sat_add(*old(total_planet), pop_delta_arr(*old(self))),
            *final(total_dead) == arr_sat_add(*old(total_dead), death_delta_arr(*old(self))),
    {
        let ghost p_in: Planet = *self;
        // spawning
        if !matches!(self.owner, Player::PASSIVE) {
            let sp = self.spawn_progress + SPAWN_RATE;
            if sp >= SPAWN_NEEDED {
                self.spawn_progress = sp - SPAWN_NEEDED;
                let c = *self.count.get(self.owner);
                self.count.put(self.owner, c.saturating_add(1));
            } else {
                self.spawn_progress = sp;
            }
        } else {
            self.spawn_progress = 0;
        }
        proof {
            assert(*self == planet_spawned(p_in));
        }
        let ghost p: Planet = *self;
        // population statistics from the post-spawn garrison
        let sides_found = find_sides_node(self);
        let mut si: usize = 0;
        while si < sides_found.len()
            invariant
                sides_found@ == sides_seq(p),
                *self == p,
                si <= sides_found@.len(),
                *total_planet == pop_prefix(*old(total_planet), p, si as int),
                *total_dead == *old(total_dead),
            decreases sides_found@.len() - si,
        {
            let side = sides_found[si];
            let t = *total_planet.get(side);
            total_planet.put(side, t.saturating_add(*self.count.get(side)));
            si = si + 1;
            proof {
                lemma_pop_prefix_step(*old(total_planet), p, si as int);
            }
        }
        proof {
            lemma_pop_prefix_full(*old(total_planet), p);
        }
        let sides_count = sides_found.len();
        if sides_count < 2 {
            // no battle: zero accumulators, then ownership drift
            self.fight_progess = PlayerArr::new(0);
            if sides_count == 1 {
                if *self.count.get(self.owner) == 0 {
                    // sole intruder wears the fortification down
                    if self.owner_strength > 0 {
                        self.owner_strength = self.owner_strength - 1;
                    }
                    if self.owner_strength == 0 {
                        if matches!(self.owner, Player::PASSIVE) {
                            self.owner = sides_found[0];
                        } else {
                            self.owner = Player::PASSIVE;
                            self.owner_strength = self.max_strength;
                        }
                    }
                } else {
                    // owner holds: regenerate fortification up to maximum
                    if self.owner_strength < self.max_strength {
                        self.owner_strength = self.owner_strength + 1;
                    }
                }
            }
            proof {
                assert(*self == planet_step(p_in));
                assert(*total_dead == arr_sat_add(*old(total_dead), death_delta_arr(p_in)));
            }
        } else {
            // simultaneous attrition from the pre-iteration snapshot `p`
            let (c0, a0, d0) = combat_one(self, Player::PASSIVE);
            let (c1, a1, d1) = combat_one(self, Player::P1);
            let (c2, a2, d2) = combat_one(self, Player::P2);
            self.count = PlayerArr { passive: c0, p1: c1, p2: c2 };
            self.fight_progess = PlayerArr { passive: a0, p1: a1, p2: a2 };
            let td0 = *total_dead.get(Player::PASSIVE);
            total_dead.put(Player::PASSIVE, td0.saturating_add(d0));
            let td1 = *total_dead.get(Player::P1);
            total_dead.put(Player::P1, td1.saturating_add(d1));
            let td2 = *total_dead.get(Player::P2);
            total_dead.put(Player::P2, td2.saturating_add(d2));
            proof {
                assert(*self == planet_step(p_in));
                assert(*total_dead == arr_sat_add(*old(total_dead), death_delta_arr(p_in)));
            }
        }
    }
}

/// Population totals after accumulating the first `k` present sides of `p`.
pub open spec fn pop_prefix(t0: PlayerArr<u32>, p: Planet, k: int) -> PlayerArr<u32>
    decreases k,
{
    if k <= 0 {
        t0
    } else {
        let prev = pop_prefix(t0, p, k - 1);
        let side = sides_seq(p)[k - 1];
        prev.upd(side, sat_add32(prev.sel(side), p.count.sel(side)))
    }
}

proof fn lemma_pop_prefix_step(t0: PlayerArr<u32>, p: Planet, k: int)
    requires
        0 < k <= sides_seq(p).len(),
    ensures
        pop_prefix(t0, p, k) == pop_prefix(t0, p, k - 1).upd(
            sides_seq(p)[k - 1],
            sat_add32(
                pop_prefix(t0, p, k - 1).sel(sides_seq(p)[k - 1]),
                p.count.sel(sides_seq(p)[k - 1]),
            ),
        ),
{
}

/// Accumulating every present side equals the componentwise delta sum,
/// because distinct sides update distinct entries.
proof fn lemma_pop_prefix_full(t0: PlayerArr<u32>, p: Planet)
    ensures
        pop_prefix(t0, p, sides_seq(p).len() as int) == arr_sat_add(t0, pop_delta_here(p)),
{
    reveal_with_fuel(pop_prefix, 4);
}

/// Population deltas read directly from the (already spawned) planet `p`.
pub open spec fn pop_delta_here(p: Planet) -> PlayerArr<u32> {
    PlayerArr {
        passive: if is_present(p, Player::PASSIVE) {
            p.count.sel(Player::PASSIVE)
        } else {
            0u32
        },
        p1: if is_present(p, Player::P1) {
            p.count.sel(Player::P1)
        } else {
            0u32
        },
        p2: if is_present(p, Player::P2) {
            p.count.sel(Player::P2)
        } else {
            0u32
        },
    }
}

/// One player's combat outcome `(garrison, accumulator, deaths)` computed
/// from the pre-iteration snapshot `p`.
fn combat_one(p: &Planet, q: Player) -> (r: (u32, u32, u32))
    requires
        planet_wf(*p),
        nsides(*p) >= 2,
    ensures
        r.0 == count_after_combat(*p, q),
        r.1 == acc_after(*p, q),
        r.2 == deaths_in_combat(*p, q),
{
    let cnt = *p.count.get(q);
    let acc = *p.fight_progess.get(q);
    if cnt == 0 {
        (cnt, acc, 0)
    } else {
        let tot: u64 = (acc as u64) + (cnt as u64);
        let newacc: u32 = (tot % (KILL_NEEDED as u64)) as u32;
        let incoming = incoming_kills_exec(p, q);
        let newcnt: u32 = if (cnt as u64) >= incoming {
            cnt - (incoming as u32)
        } else {
            0
        };
        (newcnt, newacc, cnt - newcnt)
    }
}

/// Kills scored by `q`, as an executable computation over the snapshot.
fn kill_count_exec(p: &Planet, q: Player) -> (r: u64)
    requires
        planet_wf(*p),
    ensures
        r == kill_count(*p, q),
{
    let cnt = *p.count.get(q);
    let acc = *p.fight_progess.get(q);
    if cnt == 0 {
        0
    } else {
        ((acc as u64) + (cnt as u64)) / (KILL_NEEDED as u64)
    }
}

/// Kills suffered by `q` from every other present player.
fn incoming_kills_exec(p: &Planet, q: Player) -> (r: u64)
    requires
        planet_wf(*p),
    ensures
        r == incoming_kills(*p, q),
        r <= u32::MAX as u64 + u32::MAX as u64 + u32::MAX as u64,
{
    let k0: u64 = if !matches!(q, Player::PASSIVE) {
        kill_count_exec(p, Player::PASSIVE)
    } else {
        0
    };
    let k1: u64 = if !matches!(q, Player::P1) {
        kill_count_exec(p, Player::P1)
    } else {
        0
    };
    let k2: u64 = if !matches!(q, Player::P2) {
        kill_count_exec(p, Player::P2)
    } else {
        0
    };
    k0 + k1 + k2
}

/// Travel direction of an army group along a lane: toward the lane's
/// second endpoint (`FORWARD`) or back toward its first (`BACKWARD`).
#[derive(Copy, Clone, PartialEq, Eq, Debug)]
pub enum DIR {
    FORWARD,
    BACKWARD,
}

/// A quantity of one player's units in transit along a lane.
#[derive(Copy, Clone, PartialEq, Eq, Debug)]
pub struct ArmyGroup {
    pub direction: DIR,
    pub progress: i32,
    pub count: u32,
    pub player: Player,
}

/// A graph edge: a lane of fixed length carrying in-flight army groups.
#[derive(Clone, Debug)]
pub struct HyperLane {
    pub length: i32,
    pub transfers: Vec<ArmyGroup>,
}

/// Mathematical view of a lane.
pub ghost struct LaneV {
    pub length: i32,
    pub transfers: Seq<ArmyGroup>,
}

impl View for HyperLane {
    type V = LaneV;

    open spec fn view(&self) -> LaneV {
        LaneV { length: self.length, transfers: self.transfers@ }
    }
}

/// Default lane length.
pub const LANE_LENGTH: i32 = 5000;

impl HyperLane {
    /// A fresh, empty lane of the default length.
    pub fn new() -> (r: HyperLane)
        ensures
            r@.length == LANE_LENGTH,
            r@.transfers == Seq::<ArmyGroup>::empty(),
    {
        HyperLane { transfers: Vec::new(), length: LANE_LENGTH }
    }
}

/// Well-formedness of a lane: a bounded length and group progress that
/// stays within one step beyond it.
pub open spec fn lane_wf(l: LaneV) -> bool {
    &&& 0 < l.length <= MAX_LANE_LENGTH
    &&& forall|k: int|
        0 <= k < l.transfers.len() ==> 0 <= (#[trigger] l.transfers[k]).progress <= l.length
            + ARMY_SPEED
}

/// Mathematical view of a whole world graph.
pub ghost struct WorldV {
    pub nodes: Seq<Planet>,
    pub edges: Seq<EdgeV>,
}

/// The view of a world graph value.
pub open spec fn world_view(g: WorldGraph) -> WorldV {
    WorldV { nodes: graph_nodes(g), edges: graph_edges(g) }
}

/// Whether edge `ed` joins nodes `a` and `b` (in either orientation).
pub open spec fn connects(ed: EdgeV, a: int, b: int) -> bool {
    (ed.a == a && ed.b == b) || (ed.a == b && ed.b == a)
}

/// Whether some lane joins nodes `a` and `b`.
pub open spec fn lane_between(edges: Seq<EdgeV>, a: int, b: int) -> bool {
    exists|e: int| 0 <= e < edges.len() && connects(#[trigger] edges[e], a, b)
}

/// The index of the lane joining `a` and `b` (unique in a simple graph).
pub open spec fn lane_index(edges: Seq<EdgeV>, a: int, b: int) -> int {
    choose|e: int| 0 <= e < edges.len() && connects(#[trigger] edges[e], a, b)
}

/// No two distinct edges join the same pair of nodes.
pub open spec fn edges_simple(edges: Seq<EdgeV>) -> bool {
    forall|e1: int, e2: int|
        0 <= e1 < edges.len() && 0 <= e2 < edges.len() && e1 != e2 ==> !connects(
            #[trigger] edges[e2],
            (#[trigger] edges[e1]).a as int,
            edges[e1].b as int,
        )
}

/// Structural soundness of one edge.
pub open spec fn edge_ok(w: WorldV, ed: EdgeV) -> bool {
    &&& ed.a < w.nodes.len()
    &&& ed.b < w.nodes.len()
    &&& ed.a != ed.b
    &&& lane_wf(ed.lane)
}

/// A standing auto-forward target, if set, names an adjacent node.
pub open spec fn send_all_ok(w: WorldV, i: int, q: Player) -> bool {
    match w.nodes[i].send_all.sel(q) {
        Some(t) => t < w.nodes.len() && lane_between(w.edges, i, t as int),
        None => true,
    }
}

/// Well-formedness of a world: every planet and lane is well-formed, the
/// graph is simple, and all standing orders name adjacent nodes.
pub open spec fn world_wf(w: WorldV) -> bool {
    &&& forall|i: int| 0 <= i < w.nodes.len() ==> planet_wf(#[trigger] w.nodes[i])
    &&& forall|e: int| 0 <= e < w.edges.len() ==> edge_ok(w, #[trigger] w.edges[e])
    &&& edges_simple(w.edges)
    &&& forall|i: int, q: Player| 0 <= i < w.nodes.len() ==> #[trigger] send_all_ok(w, i, q)
}

/// Two worlds share node count and edge endpoints and lengths.
pub open spec fn same_topo(w1: WorldV, w2: WorldV) -> bool {
    &&& w1.nodes.len() == w2.nodes.len()
    &&& w1.edges.len() == w2.edges.len()
    &&& forall|e: int|
        0 <= e < w1.edges.len() ==> (#[trigger] w2.edges[e]).a == w1.edges[e].a
            && w2.edges[e].b == w1.edges[e].b && w2.edges[e].lane.length == w1.edges[e].lane.length
}

/// Moving `percent` percent of `q`'s garrison at `from` onto the lane
/// toward `to`: the transferred units leave the garrison and appear as a
/// fresh in-flight group at the end of the lane's transfer list. A
/// zero-sized transfer is a no-op.
pub open spec fn send_out_spec(w: WorldV, from: int, to: int, q: Player, percent: int) -> WorldV {
    if lane_between(w.edges, from, to) {
        let e = lane_index(w.edges, from, to);
        let fwd = w.edges[e].a == from;
        let cnt = w.nodes[from].count.sel(q);
        let amount = cnt * percent / 100;
        if amount > 0 {
            let node1 = Planet {
                count: w.nodes[from].count.upd(q, (cnt - amount) as u32),
                ..w.nodes[from]
            };
            let group = ArmyGroup {
                direction: if fwd {
                    DIR::FORWARD
                } else {
                    DIR::BACKWARD
                },
                progress: 0,
                count: amount as u32,
                player: q,
            };
            let ed = w.edges[e];
            let ed1 = EdgeV {
                a: ed.a,
                b: ed.b,
                lane: LaneV { length: ed.lane.length, transfers: ed.lane.transfers.push(group) },
            };
            WorldV { nodes: w.nodes.update(from, node1), edges: w.edges.update(e, ed1) }
        } else {
            w
        }
    } else {
        w
    }
}

/// In a simple graph the connecting lane's index is unique.
pub proof fn lemma_lane_unique(edges: Seq<EdgeV>, a: int, b: int, e: int)
    requires
        edges_simple(edges),
        0 <= e < edges.len(),
        connects(edges[e], a, b),
    ensures
        lane_between(edges, a, b),
        lane_index(edges, a, b) == e,
{
    assert(lane_between(edges, a, b));
    let e2 = lane_index(edges, a, b);
    assert(0 <= e2 < edges.len() && connects(edges[e2], a, b)) by {
        assert(exists|i: int| 0 <= i < edges.len() && connects(#[trigger] edges[i], a, b));
    }
    if e2 != e {
        assert(connects(edges[e2], edges[e].a as int, edges[e].b as int));
        assert(false);
    }
}

/// Sending out units preserves world well-formedness and topology, and
/// leaves every standing order in place.
pub proof fn lemma_send_out_wf(w: WorldV, from: int, to: int, q: Player, percent: int)
    requires
        world_wf(w),
        0 <= from < w.nodes.len(),
        0 <= to < w.nodes.len(),
        0 <= percent <= 100,
    ensures
        world_wf(send_out_spec(w, from, to, q, percent)),
        same_topo(w, send_out_spec(w, from, to, q, percent)),
        forall|i: int|
            0 <= i < w.nodes.len() ==> (#[trigger] send_out_spec(
                w,
                from,
                to,
                q,
                percent,
            ).nodes[i]).send_all == w.nodes[i].send_all,
{
    let r = send_out_spec(w, from, to, q, percent);
    if lane_between(w.edges, from, to) {
        let e = lane_index(w.edges, from, to);
        assert(0 <= e < w.edges.len() && connects(w.edges[e], from, to)) by {
            assert(exists|i: int|
                0 <= i < w.edges.len() && connects(#[trigger] w.edges[i], from, to));
        }
        let cnt = w.nodes[from].count.sel(q);
        let amount = cnt * percent / 100;
        assert(0 <= amount <= cnt) by (nonlinear_arith)
            requires
                0 <= percent <= 100,
                0 <= cnt,
                amount == cnt * percent / 100,
        ;
        if amount > 0 {
            assert(edge_ok(w, w.edges[e]));
            assert forall|i: int| 0 <= i < r.nodes.len() implies planet_wf(#[trigger] r.nodes[i]) by {
                assert(planet_wf(w.nodes[i]));
            }
            assert forall|ei: int|
                0 <= ei < r.edges.len() implies edge_ok(r, #[trigger] r.edges[ei]) by {
                assert(edge_ok(w, w.edges[ei]));
                if ei == e {
                    assert(forall|k: int|
                        0 <= k < w.edges[e].lane.transfers.len() ==> 0 <= (
                        #[trigger] w.edges[e].lane.transfers[k]).progress <= w.edges[e].lane.length
                            + ARMY_SPEED);
                    assert(r.edges[e].lane.transfers == w.edges[e].lane.transfers.push(
                        ArmyGroup {
                            direction: if w.edges[e].a == from {
                                DIR::FORWARD
                            } else {
                                DIR::BACKWARD
                            },
                            progress: 0,
                            count: amount as u32,
                            player: q,
                        },
                    ));
                }
            }
            assert(edges_simple(r.edges)) by {
                assert forall|e1: int, e2: int|
                    0 <= e1 < r.edges.len() && 0 <= e2 < r.edges.len() && e1 != e2 implies !connects(
                    #[trigger] r.edges[e2],
                    (#[trigger] r.edges[e1]).a as int,
                    r.edges[e1].b as int,
                ) by {
                    assert(r.edges[e1].a == w.edges[e1].a && r.edges[e1].b == w.edges[e1].b);
                    assert(r.edges[e2].a == w.edges[e2].a && r.edges[e2].b == w.edges[e2].b);
                    assert(!connects(w.edges[e2], w.edges[e1].a as int, w.edges[e1].b as int));
                }
            }
            assert forall|i: int, p2: Player|
                0 <= i < r.nodes.len() implies #[trigger] send_all_ok(r, i, p2) by {
                assert(send_all_ok(w, i, p2));
                assert(r.nodes[i].send_all == w.nodes[i].send_all);
                match w.nodes[i].send_all.sel(p2) {
                    Some(t) => {
                        assert(lane_between(w.edges, i, t as int));
                        let we = choose|ej: int|
                            0 <= ej < w.edges.len() && connects(#[trigger] w.edges[ej], i, t as int);
                        assert(connects(r.edges[we], i, t as int));
                        assert(lane_between(r.edges, i, t as int));
                    },
                    None => {},
                }
            }
        }
    }
}

/// Whether a world order is admissible against world `w`: it names a
/// source node, and a transport or auto-forward target must be an
/// adjacent node (percentages are capped at 100).
pub open spec fn order_ok(w: WorldV, o: ChronalCommand) -> bool {
    match o.target {
        Some(src) => {
            &&& src < w.nodes.len()
            &&& match o.command {
                ChronalCommandTypes::Transport(tc) => tc.percent <= 100 && tc.to < w.nodes.len()
                    && lane_between(w.edges, src as int, tc.to as int),
                ChronalCommandTypes::SendAll(sc) => match sc.to {
                    Some(t) => t < w.nodes.len() && lane_between(w.edges, src as int, t as int),
                    None => true,
                },
            }
        },
        None => false,
    }
}

/// The source node an order names.
pub open spec fn order_src(o: ChronalCommand) -> int {
    match o.target {
        Some(src) => src as int,
        None => 0,
    }
}

/// Applying one filed order to the world.
pub open spec fn apply_order(w: WorldV, o: ChronalCommand) -> WorldV {
    match o.command {
        ChronalCommandTypes::Transport(tc) => send_out_spec(
            w,
            order_src(o),
            tc.to as int,
            o.player,
            tc.percent as int,
        ),
        ChronalCommandTypes::SendAll(sc) => WorldV {
            nodes: w.nodes.update(
                order_src(o),
                Planet {
                    send_all: w.nodes[order_src(o)].send_all.upd(o.player, sc.to),
                    ..w.nodes[order_src(o)]
                },
            ),
            edges: w.edges,
        },
    }
}

/// Applying the first `k` filed orders, in filing order.
pub open spec fn apply_orders(w: WorldV, orders: Seq<ChronalCommand>, k: int) -> WorldV
    decreases k,
{
    if k <= 0 {
        w
    } else {
        apply_order(apply_orders(w, orders, k - 1), orders[k - 1])
    }
}

/// An in-flight group advanced by one tick.
pub open spec fn group_advanced(g: ArmyGroup) -> ArmyGroup {
    ArmyGroup { progress: (g.progress + ARMY_SPEED) as i32, ..g }
}

/// The groups of a lane that stay in flight this tick, advanced, in order.
pub open spec fn kept_groups(s: Seq<ArmyGroup>, len: i32) -> Seq<ArmyGroup>
    decreases s.len(),
{
    if s.len() == 0 {
        Seq::empty()
    } else {
        kept_groups(s.drop_last(), len) + (if s.last().progress > len {
            Seq::empty()
        } else {
            seq![group_advanced(s.last())]
        })
    }
}

/// The arrivals a lane produces this tick: for each group past the end of
/// the lane, its destination endpoint, owner and unit count, in order.
pub open spec fn lane_arrivals(a: usize, b: usize, len: i32, s: Seq<ArmyGroup>) -> Seq<
    (usize, Player, u32),
>
    decreases s.len(),
{
    if s.len() == 0 {
        Seq::empty()
    } else {
        lane_arrivals(a, b, len, s.drop_last()) + (if s.last().progress > len {
            seq![
                (
                    match s.last().direction {
                        DIR::FORWARD => b,
                        DIR::BACKWARD => a,
                    },
                    s.last().player,
                    s.last().count,
                ),
            ]
        } else {
            Seq::empty()
        })
    }
}

/// All arrivals of the first `e` edges, in edge order.
pub open spec fn all_arrivals(edges: Seq<EdgeV>, e: int) -> Seq<(usize, Player, u32)>
    decreases e,
{
    if e <= 0 {
        Seq::empty()
    } else {
        all_arrivals(edges, e - 1) + lane_arrivals(
            edges[e - 1].a,
            edges[e - 1].b,
            edges[e - 1].lane.length,
            edges[e - 1].lane.transfers,
        )
    }
}

/// A lane after its groups advanced and the arrived ones left.
pub open spec fn lane_step(l: LaneV) -> LaneV {
    LaneV { length: l.length, transfers: kept_groups(l.transfers, l.length) }
}

/// All nodes advanced by one tick.
pub open spec fn stepped_nodes(nodes: Seq<Planet>) -> Seq<Planet> {
    nodes.map_values(|p: Planet| planet_step(p))
}

/// All lanes advanced by one tick (endpoints unchanged).
pub open spec fn stepped_edges(edges: Seq<EdgeV>) -> Seq<EdgeV> {
    edges.map_values(|ed: EdgeV| EdgeV { a: ed.a, b: ed.b, lane: lane_step(ed.lane) })
}

/// Nodes after the first `j` arrivals were credited to their destinations.
pub open spec fn apply_arrivals(nodes: Seq<Planet>, arr: Seq<(usize, Player, u32)>, j: int) -> Seq<
    Planet,
>
    decreases j,
{
    if j <= 0 {
        nodes
    } else {
        let prev = apply_arrivals(nodes, arr, j - 1);
        let d = arr[j - 1].0 as int;
        let q = arr[j - 1].1;
        let c = arr[j - 1].2;
        prev.update(
            d,
            Planet { count: prev[d].count.upd(q, sat_add32(prev[d].count.sel(q), c)), ..prev[d] },
        )
    }
}

/// One standing-order dispatch: if node `i` auto-forwards for `q`, send
/// the full garrison toward the target.
pub open spec fn send_step(w: WorldV, i: int, q: Player) -> WorldV {
    match w.nodes[i].send_all.sel(q) {
        Some(t) => send_out_spec(w, i, t as int, q, 100),
        None => w,
    }
}

/// All standing-order dispatches at node `i`, in player order.
pub open spec fn send_all_at(w: WorldV, i: int) -> WorldV {
    send_step(send_step(send_step(w, i, Player::PASSIVE), i, Player::P1), i, Player::P2)
}

/// Standing-order dispatches of the first `i` nodes, in node order.
pub open spec fn send_all_pass(w: WorldV, i: int) -> WorldV
    decreases i,
{
    if i <= 0 {
        w
    } else {
        send_all_at(send_all_pass(w, i - 1), i - 1)
    }
}

/// The world transition for one tick: node advance, lane advance with
/// two-phase arrival application, standing orders every fifth tick, then
/// the filed orders in filing order.
pub open spec fn sim_step_world(w: WorldV, timestep: u32, orders: Seq<ChronalCommand>) -> WorldV {
    let arr = all_arrivals(w.edges, w.edges.len() as int);
    let w2 = WorldV {
        nodes: apply_arrivals(stepped_nodes(w.nodes), arr, arr.len() as int),
        edges: stepped_edges(w.edges),
    };
    let w3 = if timestep % 5 == 0 {
        send_all_pass(w2, w2.nodes.len() as int)
    } else {
        w2
    };
    apply_orders(w3, orders, orders.len() as int)
}

/// Population totals of the first `i` planets (saturating).
pub open spec fn pop_fold(t0: PlayerArr<u32>, nodes: Seq<Planet>, i: int) -> PlayerArr<u32>
    decreases i,
{
    if i <= 0 {
        t0
    } else {
        arr_sat_add(pop_fold(t0, nodes, i - 1), pop_delta_arr(nodes[i - 1]))
    }
}

/// Casualty totals of the first `i` planets (saturating).
pub open spec fn dead_fold(t0: PlayerArr<u32>, nodes: Seq<Planet>, i: int) -> PlayerArr<u32>
    decreases i,
{
    if i <= 0 {
        t0
    } else {
        arr_sat_add(dead_fold(t0, nodes, i - 1), death_delta_arr(nodes[i - 1]))
    }
}

/// Transit totals after the first `k` groups of one lane (saturating).
pub open spec fn transit_groups(t0: PlayerArr<u32>, s: Seq<ArmyGroup>, k: int) -> PlayerArr<u32>
    decreases k,
{
    if k <= 0 {
        t0
    } else {
        let prev = transit_groups(t0, s, k - 1);
        prev.upd(s[k - 1].player, sat_add32(prev.sel(s[k - 1].player), s[k - 1].count))
    }
}

/// Transit totals over the first `e` edges (saturating).
pub open spec fn transit_fold(t0: PlayerArr<u32>, edges: Seq<EdgeV>, e: int) -> PlayerArr<u32>
    decreases e,
{
    if e <= 0 {
        t0
    } else {
        transit_groups(
            transit_fold(t0, edges, e - 1),
            edges[e - 1].lane.transfers,
            edges[e - 1].lane.transfers.len() as int,
        )
    }
}

/// The zero player map.
pub open spec fn zero_arr() -> PlayerArr<u32> {
    PlayerArr { passive: 0u32, p1: 0u32, p2: 0u32 }
}

/// The per-tick statistics the transition reports: population and
/// casualties from the node advance, transit from the lane scan.
pub open spec fn sim_step_meta(w: WorldV) -> SimMetadata {
    SimMetadata {
        total_planet: pop_fold(zero_arr(), w.nodes, w.nodes.len() as int),
        total_dead: dead_fold(zero_arr(), w.nodes, w.nodes.len() as int),
        total_transit: transit_fold(zero_arr(), w.edges, w.edges.len() as int),
    }
}

/// Moves `percent` percent of `player`'s garrison at `from` onto the lane
/// connecting `from` and `to`. Callers must name adjacent nodes; a lane
/// that does not exist is an invariant violation the contract excludes.
pub fn send_out(world: &mut WorldGraph, from: usize, to: usize, player: Player, percent: u8)
    requires
        world_wf(world_view(*old(world))),
        from < graph_nodes(*old(world)).len(),
        to < graph_nodes(*old(world)).len(),
        percent <= 100,
        lane_between(graph_edges(*old(world)), from as int, to as int),
    ensures
        world_view(*final(world)) == send_out_spec(
            world_view(*old(world)),
            from as int,
            to as int,
            player,
            percent as int,
        ),
        world_wf(world_view(*final(world))),
{
    let ghost w = world_view(*world);
    proof {
        lemma_send_out_wf(w, from as int, to as int, player, percent as int);
    }
    let found = wg_find_edge_undirected(world, from, to);
    match found {
        Some(ef) => {
            let (e, fwd) = ef;
            proof {
                lemma_lane_unique(w.edges, from as int, to as int, e as int);
                assert(e == lane_index(w.edges, from as int, to as int));
                assert(w.edges[e as int].a != w.edges[e as int].b);
                assert(fwd <==> w.edges[e as int].a == from);
            }
            let node = wg_get_node(world, from);
            let cnt = *node.count.get(player);
            proof {
                assert((cnt as u64) * (percent as u64) <= (u32::MAX as u64) * 100) by (nonlinear_arith)
                    requires
                        0 <= percent <= 100,
                        0 <= cnt <= u32::MAX,
                ;
            }
            let amount_u64: u64 = (cnt as u64) * (percent as u64) / 100;
            proof {
                assert(amount_u64 == cnt * percent / 100 && amount_u64 <= cnt) by (nonlinear_arith)
                    requires
                        0 <= percent <= 100,
                        0 <= cnt <= u32::MAX,
                        amount_u64 == (cnt as u64) * (percent as u64) / 100,
                ;
            }
            let amount: u32 = amount_u64 as u32;
            if amount > 0 {
                let mut new_node = node;
                new_node.count.put(player, cnt - amount);
                wg_set_node(world, from, new_node);
                let mut lane = wg_get_lane(world, e);
                let dir = if fwd {
                    DIR::FORWARD
                } else {
                    DIR::BACKWARD
                };
                lane.transfers.push(
                    ArmyGroup { direction: dir, progress: 0, count: amount, player },
                );
                wg_set_lane(world, e, lane);
            }
        },
        None => {
            proof {
                assert(false);
            }
        },
    }
}

/// Nodes with the first `i` replaced by their stepped versions.
pub open spec fn stepped_prefix(nodes: Seq<Planet>, i: int) -> Seq<Planet> {
    Seq::new(
        nodes.len(),
        |j: int|
            if j < i {
                planet_step(nodes[j])
            } else {
                nodes[j]
            },
    )
}

/// Edges with the first `e` replaced by their stepped versions.
pub open spec fn stepped_edges_prefix(edges: Seq<EdgeV>, e: int) -> Seq<EdgeV> {
    Seq::new(
        edges.len(),
        |j: int|
            if j < e {
                EdgeV { a: edges[j].a, b: edges[j].b, lane: lane_step(edges[j].lane) }
            } else {
                edges[j]
            },
    )
}

/// Groups that survive a lane step stay within the well-formed range.
proof fn lemma_kept_groups_wf(s: Seq<ArmyGroup>, len: i32)
    requires
        0 < len <= MAX_LANE_LENGTH,
        forall|k: int| 0 <= k < s.len() ==> 0 <= (#[trigger] s[k]).progress <= len + ARMY_SPEED,
    ensures
        forall|k: int|
            0 <= k < kept_groups(s, len).len() ==> 0 <= (#[trigger] kept_groups(s, len)[k]).progress
                <= len + ARMY_SPEED,
    decreases s.len(),
{
    if s.len() > 0 {
        lemma_kept_groups_wf(s.drop_last(), len);
    }
}

/// Every arrival a lane produces goes to one of its two endpoints.
proof fn lemma_lane_arrivals_dest(a: usize, b: usize, len: i32, s: Seq<ArmyGroup>)
    ensures
        forall|j: int|
            0 <= j < lane_arrivals(a, b, len, s).len() ==> (#[trigger] lane_arrivals(
                a,
                b,
                len,
                s,
            )[j]).0 == a || lane_arrivals(a, b, len, s)[j].0 == b,
    decreases s.len(),
{
    let arr = lane_arrivals(a, b, len, s);
    if s.len() > 0 {
        lemma_lane_arrivals_dest(a, b, len, s.drop_last());
        let prev = lane_arrivals(a, b, len, s.drop_last());
        assert forall|j: int| 0 <= j < arr.len() implies (#[trigger] arr[j]).0 == a || arr[j].0
            == b by {
            if j < prev.len() {
                assert(arr[j] == prev[j]);
            }
        }
    }
}

/// Every arrival of a well-formed world names an in-bounds node.
pub proof fn lemma_all_arrivals_dest(w: WorldV, e: int)
    requires
        world_wf(w),
        0 <= e <= w.edges.len(),
    ensures
        forall|j: int|
            0 <= j < all_arrivals(w.edges, e).len() ==> (#[trigger] all_arrivals(
                w.edges,
                e,
            )[j]).0 < w.nodes.len(),
    decreases e,
{
    if e > 0 {
        lemma_all_arrivals_dest(w, e - 1);
        assert(edge_ok(w, w.edges[e - 1]));
        lemma_lane_arrivals_dest(
            w.edges[e - 1].a,
            w.edges[e - 1].b,
            w.edges[e - 1].lane.length,
            w.edges[e - 1].lane.transfers,
        );
        let prev = all_arrivals(w.edges, e - 1);
        let tail = lane_arrivals(
            w.edges[e - 1].a,
            w.edges[e - 1].b,
            w.edges[e - 1].lane.length,
            w.edges[e - 1].lane.transfers,
        );
        let arr = all_arrivals(w.edges, e);
        assert forall|j: int| 0 <= j < arr.len() implies (#[trigger] arr[j]).0
            < w.nodes.len() by {
            if j < prev.len() {
                assert(arr[j] == prev[j]);
            } else {
                assert(arr[j] == tail[j - prev.len()]);
            }
        }
    }
}

/// Crediting arrivals changes garrison counts only.
pub proof fn lemma_apply_arrivals_shape(nodes: Seq<Planet>, arr: Seq<(usize, Player, u32)>, j: int)
    requires
        0 <= j <= arr.len(),
        forall|k: int| 0 <= k < arr.len() ==> (#[trigger] arr[k]).0 < nodes.len(),
    ensures
        apply_arrivals(nodes, arr, j).len() == nodes.len(),
        forall|i: int|
            0 <= i < nodes.len() ==> (#[trigger] apply_arrivals(nodes, arr, j)[i]).send_all
                == nodes[i].send_all && apply_arrivals(nodes, arr, j)[i].loc == nodes[i].loc
                && apply_arrivals(nodes, arr, j)[i].owner == nodes[i].owner && apply_arrivals(
                nodes,
                arr,
                j,
            )[i].owner_strength == nodes[i].owner_strength && apply_arrivals(
                nodes,
                arr,
                j,
            )[i].max_strength == nodes[i].max_strength && apply_arrivals(
                nodes,
                arr,
                j,
            )[i].spawn_progress == nodes[i].spawn_progress && apply_arrivals(
                nodes,
                arr,
                j,
            )[i].fight_progess == nodes[i].fight_progess,
    decreases j,
{
    if j > 0 {
        lemma_apply_arrivals_shape(nodes, arr, j - 1);
    }
}

/// A lane between two nodes survives any transformation that keeps every
/// edge's endpoints.
pub proof fn lemma_between_transfer(edges1: Seq<EdgeV>, edges2: Seq<EdgeV>, a: int, b: int)
    requires
        edges1.len() == edges2.len(),
        forall|e: int|
            0 <= e < edges1.len() ==> (#[trigger] edges2[e]).a == edges1[e].a && edges2[e].b
                == edges1[e].b,
        lane_between(edges1, a, b),
    ensures
        lane_between(edges2, a, b),
{
    let e = choose|e: int| 0 <= e < edges1.len() && connects(#[trigger] edges1[e], a, b);
    assert(connects(edges2[e], a, b));
}

/// The node and lane advance with arrivals applied preserves world
/// well-formedness, topology, and every standing order.
pub proof fn lemma_phase_wf(w: WorldV)
    requires
        world_wf(w),
    ensures
        ({
            let arr = all_arrivals(w.edges, w.edges.len() as int);
            let w2 = WorldV {
                nodes: apply_arrivals(stepped_nodes(w.nodes), arr, arr.len() as int),
                edges: stepped_edges(w.edges),
            };
            world_wf(w2) && same_topo(w, w2) && forall|i: int|
                0 <= i < w.nodes.len() ==> (#[trigger] w2.nodes[i]).send_all == w.nodes[i].send_all
        }),
{
    let arr = all_arrivals(w.edges, w.edges.len() as int);
    let sn = stepped_nodes(w.nodes);
    let w2 = WorldV {
        nodes: apply_arrivals(sn, arr, arr.len() as int),
        edges: stepped_edges(w.edges),
    };
    assert forall|i: int| 0 <= i < w.nodes.len() implies planet_wf(#[trigger] sn[i])
        && sn[i].send_all == w.nodes[i].send_all by {
        assert(planet_wf(w.nodes[i]));
        lemma_planet_step_wf(w.nodes[i]);
    }
    lemma_all_arrivals_dest(w, w.edges.len() as int);
    lemma_apply_arrivals_shape(sn, arr, arr.len() as int);
    assert forall|e: int| 0 <= e < w2.edges.len() implies edge_ok(w2, #[trigger] w2.edges[e]) by {
        assert(edge_ok(w, w.edges[e]));
        lemma_kept_groups_wf(w.edges[e].lane.transfers, w.edges[e].lane.length);
    }
    assert(edges_simple(w2.edges)) by {
        assert forall|e1: int, e2: int|
            0 <= e1 < w2.edges.len() && 0 <= e2 < w2.edges.len() && e1 != e2 implies !connects(
            #[trigger] w2.edges[e2],
            (#[trigger] w2.edges[e1]).a as int,
            w2.edges[e1].b as int,
        ) by {
            assert(!connects(w.edges[e2], w.edges[e1].a as int, w.edges[e1].b as int));
        }
    }
    assert forall|i: int, q: Player| 0 <= i < w2.nodes.len() implies #[trigger] send_all_ok(
        w2,
        i,
        q,
    ) by {
        assert(send_all_ok(w, i, q));
        assert(w2.nodes[i].send_all == w.nodes[i].send_all);
        match w.nodes[i].send_all.sel(q) {
            Some(t) => {
                lemma_between_transfer(w.edges, w2.edges, i, t as int);
            },
            None => {},
        }
    }
    assert forall|i: int| 0 <= i < w2.nodes.len() implies planet_wf(#[trigger] w2.nodes[i]) by {
        assert(planet_wf(sn[i]));
    }
}

/// Applying a valid auto-forward order preserves world well-formedness.
pub proof fn lemma_sendall_order_wf(w: WorldV, src: int, q: Player, to: Option<usize>)
    requires
        world_wf(w),
        0 <= src < w.nodes.len(),
        match to {
            Some(t) => t < w.nodes.len() && lane_between(w.edges, src, t as int),
            None => true,
        },
    ensures
        ({
            let w1 = WorldV {
                nodes: w.nodes.update(
                    src,
                    Planet { send_all: w.nodes[src].send_all.upd(q, to), ..w.nodes[src] },
                ),
                edges: w.edges,
            };
            world_wf(w1) && same_topo(w, w1)
        }),
{
    let w1 = WorldV {
        nodes: w.nodes.update(
            src,
            Planet { send_all: w.nodes[src].send_all.upd(q, to), ..w.nodes[src] },
        ),
        edges: w.edges,
    };
    assert forall|i: int| 0 <= i < w1.nodes.len() implies planet_wf(#[trigger] w1.nodes[i]) by {
        assert(planet_wf(w.nodes[i]));
    }
    assert forall|e: int| 0 <= e < w1.edges.len() implies edge_ok(w1, #[trigger] w1.edges[e]) by {
        assert(edge_ok(w, w.edges[e]));
    }
    assert forall|i: int, p2: Player| 0 <= i < w1.nodes.len() implies #[trigger] send_all_ok(
        w1,
        i,
        p2,
    ) by {
        assert(send_all_ok(w, i, p2));
        if i == src && p2 == q {
        } else {
            assert(w1.nodes[i].send_all.sel(p2) == w.nodes[i].send_all.sel(p2));
        }
    }
}

/// Node advance over the whole graph, collecting population and casualty
/// statistics.
#[verifier::loop_isolation(false)]
fn step_nodes_phase(world: &WorldGraph, new_world: &mut WorldGraph, metadata: &mut SimMetadata)
    requires
        world_wf(world_view(*world)),
        graph_nodes(*old(new_world)) == graph_nodes(*world),
        graph_edges(*old(new_world)) == graph_edges(*world),
        *old(metadata) == SimMetadata::spec_init(),
    ensures
        graph_nodes(*final(new_world)) == stepped_nodes(graph_nodes(*world)),
        graph_edges(*final(new_world)) == graph_edges(*world),
        final(metadata).total_planet == pop_fold(
            zero_arr(),
            graph_nodes(*world),
            graph_nodes(*world).len() as int,
        ),
        final(metadata).total_dead == dead_fold(
            zero_arr(),
            graph_nodes(*world),
            graph_nodes(*world).len() as int,
        ),
        final(metadata).total_transit == zero_arr(),
{
    let ghost w0 = world_view(*world);
    let n = wg_node_count(world);
    proof {
        assert(graph_nodes(*new_world) =~= stepped_prefix(w0.nodes, 0));
    }
    let mut i: usize = 0;
    while i < n
        invariant
            i <= n,
            graph_nodes(*new_world) == stepped_prefix(w0.nodes, i as int),
            graph_edges(*new_world) == w0.edges,
            metadata.total_planet == pop_fold(zero_arr(), w0.nodes, i as int),
            metadata.total_dead == dead_fold(zero_arr(), w0.nodes, i as int),
            metadata.total_transit == zero_arr(),
        decreases n - i,
    {
        let mut p = wg_get_node(world, i);
        proof {
            assert(planet_wf(w0.nodes[i as int]));
        }
        p.advance(&mut metadata.total_planet, &mut metadata.total_dead);
        wg_set_node(new_world, i, p);
        i = i + 1;
        proof {
            assert(graph_nodes(*new_world) =~= stepped_prefix(w0.nodes, i as int));
        }
    }
    proof {
        assert(stepped_prefix(w0.nodes, n as int) =~= stepped_nodes(w0.nodes));
    }
}

/// Lane advance over the whole graph: groups move by the fixed speed,
/// those past the end are queued as arrivals; transit statistics are
/// collected from the pre-advance groups.
#[verifier::loop_isolation(false)]
fn step_edges_phase(
    world: &WorldGraph,
    new_world: &mut WorldGraph,
    metadata: &mut SimMetadata,
) -> (transfer_set: Vec<(usize, Player, u32)>)
    requires
        world_wf(world_view(*world)),
        graph_edges(*old(new_world)) == graph_edges(*world),
        old(metadata).total_transit == zero_arr(),
    ensures
        graph_nodes(*final(new_world)) == graph_nodes(*old(new_world)),
        graph_edges(*final(new_world)) == stepped_edges(graph_edges(*world)),
        transfer_set@ == all_arrivals(graph_edges(*world), graph_edges(*world).len() as int),
        final(metadata).total_transit == transit_fold(
            zero_arr(),
            graph_edges(*world),
            graph_edges(*world).len() as int,
        ),
        final(metadata).total_planet == old(metadata).total_planet,
        final(metadata).total_dead == old(metadata).total_dead,
{
    let ghost w0 = world_view(*world);
    let ecount = wg_edge_count(world);
    let mut transfer_set: Vec<(usize, Player, u32)> = Vec::new();
    proof {
        assert(graph_edges(*new_world) =~= stepped_edges_prefix(w0.edges, 0));
    }
    let mut e: usize = 0;
    while e < ecount
        invariant
            e <= ecount,
            graph_nodes(*new_world) == graph_nodes(*old(new_world)),
            graph_edges(*new_world) == stepped_edges_prefix(w0.edges, e as int),
            transfer_set@ == all_arrivals(w0.edges, e as int),
            metadata.total_transit == transit_fold(zero_arr(), w0.edges, e as int),
            metadata.total_planet == old(metadata).total_planet,
            metadata.total_dead == old(metadata).total_dead,
        decreases ecount - e,
    {
        let ends = wg_edge_ends(world, e);
        let a = ends.0;
        let b = ends.1;
        let lane = wg_get_lane(world, e);
        let ghost lv = w0.edges[e as int].lane;
        proof {
            assert(edge_ok(w0, w0.edges[e as int]));
            assert(lane_arrivals(a, b, lv.length, lv.transfers.take(0)) =~= Seq::empty());
            assert(transfer_set@ =~= all_arrivals(w0.edges, e as int) + lane_arrivals(
                a,
                b,
                lv.length,
                lv.transfers.take(0),
            ));
            assert(kept_groups(lv.transfers.take(0), lv.length) =~= Seq::empty());
        }
        let mut new_vec: Vec<ArmyGroup> = Vec::new();
        let tlen = lane.transfers.len();
        let mut k: usize = 0;
        while k < tlen
            invariant
                k <= tlen,
                tlen == lv.transfers.len(),
                lane@ == lv,
                e < ecount,
                a == w0.edges[e as int].a,
                b == w0.edges[e as int].b,
                new_vec@ == kept_groups(lv.transfers.take(k as int), lv.length),
                transfer_set@ == all_arrivals(w0.edges, e as int) + lane_arrivals(
                    a,
                    b,
                    lv.length,
                    lv.transfers.take(k as int),
                ),
                metadata.total_transit == transit_groups(
                    transit_fold(zero_arr(), w0.edges, e as int),
                    lv.transfers,
                    k as int,
                ),
                metadata.total_planet == old(metadata).total_planet,
                metadata.total_dead == old(metadata).total_dead,
            decreases tlen - k,
        {
            let group = lane.transfers[k];
            let t = *metadata.total_transit.get(group.player);
            metadata.total_transit.put(group.player, t.saturating_add(group.count));
            proof {
                assert(0 <= group.progress <= lv.length + ARMY_SPEED);
            }
            if group.progress > lane.length {
                let dest = if matches!(group.direction, DIR::FORWARD) {
                    b
                } else {
                    a
                };
                transfer_set.push((dest, group.player, group.count));
            } else {
                new_vec.push(
                    ArmyGroup {
                        direction: group.direction,
                        progress: group.progress + ARMY_SPEED,
                        count: group.count,
                        player: group.player,
                    },
                );
            }
            k = k + 1;
            proof {
                let pre = lv.transfers.take(k as int - 1);
                let cur = lv.transfers.take(k as int);
                assert(cur.drop_last() =~= pre);
                assert(cur.last() == lv.transfers[k as int - 1]);
                assert(new_vec@ == kept_groups(cur, lv.length));
                assert(transfer_set@ =~= all_arrivals(w0.edges, e as int) + lane_arrivals(
                    a,
                    b,
                    lv.length,
                    cur,
                ));
            }
        }
        proof {
            assert(lv.transfers.take(tlen as int) =~= lv.transfers);
        }
        wg_set_lane(new_world, e, HyperLane { length: lane.length, transfers: new_vec });
        e = e + 1;
        proof {
            assert(graph_edges(*new_world) =~= stepped_edges_prefix(w0.edges, e as int));
        }
    }
    proof {
        assert(stepped_edges_prefix(w0.edges, ecount as int) =~= stepped_edges(w0.edges));
    }
    transfer_set
}

/// Credits every queued arrival to its destination garrison (saturating).
#[verifier::loop_isolation(false)]
fn apply_arrivals_phase(new_world: &mut WorldGraph, transfer_set: &Vec<(usize, Player, u32)>)
    requires
        forall|k: int|
            0 <= k < transfer_set@.len() ==> (#[trigger] transfer_set@[k]).0 < graph_nodes(
                *old(new_world),
            ).len(),
    ensures
        graph_nodes(*final(new_world)) == apply_arrivals(
            graph_nodes(*old(new_world)),
            transfer_set@,
            transfer_set@.len() as int,
        ),
        graph_edges(*final(new_world)) == graph_edges(*old(new_world)),
{
    let ghost nodes0 = graph_nodes(*new_world);
    let ghost arr = transfer_set@;
    let tcount = transfer_set.len();
    let mut j: usize = 0;
    while j < tcount
        invariant
            j <= tcount,
            graph_nodes(*new_world) == apply_arrivals(nodes0, arr, j as int),
            graph_edges(*new_world) == graph_edges(*old(new_world)),
        decreases tcount - j,
    {
        let entry = transfer_set[j];
        let d = entry.0;
        let q = entry.1;
        let c = entry.2;
        proof {
            lemma_apply_arrivals_shape(nodes0, arr, j as int);
        }
        let mut node = wg_get_node(new_world, d);
        let cur = *node.count.get(q);
        node.count.put(q, cur.saturating_add(c));
        wg_set_node(new_world, d, node);
        j = j + 1;
    }
}

/// Dispatches every standing auto-forward order, in node and player order.
#[verifier::loop_isolation(false)]
fn send_all_phase(new_world: &mut WorldGraph)
    requires
        world_wf(world_view(*old(new_world))),
    ensures
        world_view(*final(new_world)) == send_all_pass(
            world_view(*old(new_world)),
            graph_nodes(*old(new_world)).len() as int,
        ),
        world_wf(world_view(*final(new_world))),
        same_topo(world_view(*old(new_world)), world_view(*final(new_world))),
{
    let ghost w2 = world_view(*new_world);
    let n = wg_node_count(new_world);
    let mut i2: usize = 0;
    while i2 < n
        invariant
            i2 <= n,
            world_view(*new_world) == send_all_pass(w2, i2 as int),
            world_wf(world_view(*new_world)),
            same_topo(w2, world_view(*new_world)),
        decreases n - i2,
    {
        let ghost wa = world_view(*new_world);
        let node0 = wg_get_node(new_world, i2);
        let t0 = *node0.send_all.get(Player::PASSIVE);
        proof {
            assert(send_all_ok(wa, i2 as int, Player::PASSIVE));
        }
        match t0 {
            Some(t) => {
                send_out(new_world, i2, t, Player::PASSIVE, 100);
            },
            None => {},
        }
        proof {
            assert(world_view(*new_world) == send_step(wa, i2 as int, Player::PASSIVE));
            lemma_send_step_topo(wa, i2 as int, Player::PASSIVE);
        }
        let ghost wb = world_view(*new_world);
        let node1 = wg_get_node(new_world, i2);
        let t1 = *node1.send_all.get(Player::P1);
        proof {
            assert(send_all_ok(wb, i2 as int, Player::P1));
        }
        match t1 {
            Some(t) => {
                send_out(new_world, i2, t, Player::P1, 100);
            },
            None => {},
        }
        proof {
            assert(world_view(*new_world) == send_step(wb, i2 as int, Player::P1));
            lemma_send_step_topo(wb, i2 as int, Player::P1);
        }
        let ghost wc = world_view(*new_world);
        let node2 = wg_get_node(new_world, i2);
        let t2 = *node2.send_all.get(Player::P2);
        proof {
            assert(send_all_ok(wc, i2 as int, Player::P2));
        }
        match t2 {
            Some(t) => {
                send_out(new_world, i2, t, Player::P2, 100);
            },
            None => {},
        }
        i2 = i2 + 1;
        proof {
            assert(world_view(*new_world) == send_step(wc, i2 as int - 1, Player::P2));
            lemma_send_step_topo(wc, i2 as int - 1, Player::P2);
            assert(world_view(*new_world) == send_all_at(wa, i2 as int - 1));
            assert(world_view(*new_world) == send_all_pass(w2, i2 as int));
        }
    }
}

/// A standing-order dispatch keeps the world well-formed and its topology.
pub proof fn lemma_send_step_topo(w: WorldV, i: int, q: Player)
    requires
        world_wf(w),
        0 <= i < w.nodes.len(),
    ensures
        world_wf(send_step(w, i, q)),
        same_topo(w, send_step(w, i, q)),
{
    assert(send_all_ok(w, i, q));
    match w.nodes[i].send_all.sel(q) {
        Some(t) => {
            lemma_send_out_wf(w, i, t as int, q, 100);
        },
        None => {
            assert(same_topo(w, w));
        },
    }
}

/// Applies every filed order, in filing order.
#[verifier::loop_isolation(false)]
fn apply_orders_phase(new_world: &mut WorldGraph, orders: &Vec<ChronalCommand>)
    requires
        world_wf(world_view(*old(new_world))),
        forall|k: int|
            0 <= k < orders@.len() ==> order_ok(world_view(*old(new_world)), #[trigger] orders@[k]),
    ensures
        world_view(*final(new_world)) == apply_orders(
            world_view(*old(new_world)),
            orders@,
            orders@.len() as int,
        ),
        world_wf(world_view(*final(new_world))),
        same_topo(world_view(*old(new_world)), world_view(*final(new_world))),
{
    let ghost w3 = world_view(*new_world);
    let ocount = orders.len();
    let mut oi: usize = 0;
    while oi < ocount
        invariant
            oi <= ocount,
            world_view(*new_world) == apply_orders(w3, orders@, oi as int),
            world_wf(world_view(*new_world)),
            same_topo(w3, world_view(*new_world)),
        decreases ocount - oi,
    {
        let o = orders[oi];
        let ghost wcur = world_view(*new_world);
        proof {
            assert(order_ok(w3, o));
        }
        let src: usize = match o.target {
            Some(s) => s,
            None => {
                proof {
                    assert(false);
                }
                0
            },
        };
        match o.command {
            ChronalCommandTypes::Transport(tc) => {
                proof {
                    lemma_between_transfer(w3.edges, wcur.edges, src as int, tc.to as int);
                    lemma_send_out_wf(wcur, src as int, tc.to as int, o.player, tc.percent as int);
                }
                send_out(new_world, src, tc.to, o.player, tc.percent);
            },
            ChronalCommandTypes::SendAll(sc) => {
                proof {
                    match sc.to {
                        Some(t) => {
                            lemma_between_transfer(w3.edges, wcur.edges, src as int, t as int);
                        },
                        None => {},
                    }
                    lemma_sendall_order_wf(wcur, src as int, o.player, sc.to);
                }
                let mut node = wg_get_node(new_world, src);
                node.send_all.put(o.player, sc.to);
                wg_set_node(new_world, src, node);
                proof {
                    assert(world_view(*new_world).nodes =~= apply_order(wcur, o).nodes);
                    assert(world_view(*new_world) == apply_order(wcur, o));
                }
            },
        }
        oi = oi + 1;
    }
}

/// One tick's world snapshot, identified by its timestep.
pub struct Simulation {
    pub world: WorldGraph,
    pub timestep: ChronalTime,
}

/// Well-formedness of a snapshot's world.
pub open spec fn sim_wf(s: Simulation) -> bool {
    world_wf(world_view(s.world))
}

impl Simulation {
    /// A snapshot of `world` at timestep zero.
    pub fn new(world: WorldGraph) -> (r: Simulation)
        ensures
            r.timestep == 0,
            r.world == world,
    {
        Simulation { world, timestep: 0 }
    }

    /// The players present at node `node`.
    pub fn find_sides(&self, node: usize) -> (r: Vec<Player>)
        requires
            node < graph_nodes(self.world).len(),
        ensures
            r@ == sides_seq(graph_nodes(self.world)[node as int]),
    {
        let p = wg_get_node(&self.world, node);
        find_sides_node(&p)
    }

    /// The node nearest to `pos`, if it lies strictly within `max_dist`;
    /// ties go to the lowest index.
    pub fn check_planets(&self, pos: Ipt, max_dist: i32) -> (r: Option<usize>)
        requires
            sim_wf(*self),
            -MAX_COORD <= pos.x <= MAX_COORD,
            -MAX_COORD <= pos.y <= MAX_COORD,
            0 <= max_dist <= MAX_COORD,
        ensures
            ({
                let nodes = graph_nodes(self.world);
                match r {
                    Some(i) => {
                        &&& i < nodes.len()
                        &&& spec_dist2(pos, nodes[i as int].loc) < max_dist * max_dist
                        &&& forall|j: int|
                            0 <= j < nodes.len() ==> spec_dist2(pos, (#[trigger] nodes[j]).loc)
                                >= spec_dist2(pos, nodes[i as int].loc)
                        &&& forall|j: int|
                            0 <= j < i ==> spec_dist2(pos, (#[trigger] nodes[j]).loc) > spec_dist2(
                                pos,
                                nodes[i as int].loc,
                            )
                    },
                    None => forall|j: int|
                        0 <= j < nodes.len() ==> spec_dist2(pos, (#[trigger] nodes[j]).loc)
                            >= max_dist * max_dist,
                }
            }),
    {
        let ghost nodes = graph_nodes(self.world);
        let n = wg_node_count(&self.world);
        let mut dist: i64 = i64::MAX;
        let mut best: Option<usize> = None;
        let mut j: usize = 0;
        while j < n
            invariant
                j <= n,
                n == nodes.len(),
                sim_wf(*self),
                nodes == graph_nodes(self.world),
                -MAX_COORD <= pos.x <= MAX_COORD,
                -MAX_COORD <= pos.y <= MAX_COORD,
                match best {
                    Some(bi) => {
                        &&& bi < j
                        &&& dist == spec_dist2(pos, nodes[bi as int].loc)
                        &&& forall|t: int|
                            0 <= t < j ==> spec_dist2(pos, (#[trigger] nodes[t]).loc) >= dist
                        &&& forall|t: int|
                            0 <= t < bi ==> spec_dist2(pos, (#[trigger] nodes[t]).loc) > dist
                    },
                    None => j == 0 && dist == i64::MAX,
                },
            decreases n - j,
        {
            let node = wg_get_node(&self.world, j);
            proof {
                let w = world_view(self.world);
                assert(planet_wf(w.nodes[j as int]));
            }
            let tmpdist = crate::library::dist2(&pos, &node.loc);
            if tmpdist < dist {
                best = Some(j);
                dist = tmpdist;
            }
            j = j + 1;
        }
        proof {
            assert(max_dist * max_dist <= 1000000000000000000) by (nonlinear_arith)
                requires
                    0 <= max_dist <= 1000000000,
            ;
        }
        let md: i64 = (max_dist as i64) * (max_dist as i64);
        if dist < md {
            best
        } else {
            None
        }
    }

    /// Advances one timestep: returns the successor snapshot and its
    /// statistics. The input snapshot is never mutated; the result is an
    /// independent value.
    pub fn update(&self, orders: &Vec<ChronalCommand>) -> (r: (Simulation, SimMetadata))
        requires
            sim_wf(*self),
            forall|k: int|
                0 <= k < orders@.len() ==> order_ok(world_view(self.world), #[trigger] orders@[k]),
            self.timestep < u32::MAX,
        ensures
            r.0.timestep == self.timestep + 1,
            world_view(r.0.world) == sim_step_world(world_view(self.world), self.timestep, orders@),
            r.1 == sim_step_meta(world_view(self.world)),
            sim_wf(r.0),
            same_topo(world_view(self.world), world_view(r.0.world)),
    {
        let ghost w0 = world_view(self.world);
        let mut new_world = wg_clone(&self.world);
        let mut metadata = SimMetadata::new();
        step_nodes_phase(&self.world, &mut new_world, &mut metadata);
        let transfer_set = step_edges_phase(&self.world, &mut new_world, &mut metadata);
        proof {
            lemma_all_arrivals_dest(w0, w0.edges.len() as int);
        }
        apply_arrivals_phase(&mut new_world, &transfer_set);
        let ghost arr = all_arrivals(w0.edges, w0.edges.len() as int);
        let ghost w2 = WorldV {
            nodes: apply_arrivals(stepped_nodes(w0.nodes), arr, arr.len() as int),
            edges: stepped_edges(w0.edges),
        };
        proof {
            lemma_phase_wf(w0);
            assert(world_view(new_world) == w2);
        }
        if self.timestep % 5 == 0 {
            send_all_phase(&mut new_world);
        }
        let ghost w3 = if self.timestep % 5 == 0 {
            send_all_pass(w2, w2.nodes.len() as int)
        } else {
            w2
        };
        proof {
            assert(world_view(new_world) == w3);
            assert(world_wf(w3));
            assert forall|k: int| 0 <= k < orders@.len() implies order_ok(
                w3,
                #[trigger] orders@[k],
            ) by {
                assert(order_ok(w0, orders@[k]));
                let o = orders@[k];
                match o.target {
                    Some(src) => {
                        match o.command {
                            ChronalCommandTypes::Transport(tc) => {
                                lemma_between_transfer(w0.edges, w3.edges, src as int, tc.to as int);
                            },
                            ChronalCommandTypes::SendAll(sc) => {
                                match sc.to {
                                    Some(t) => {
                                        lemma_between_transfer(w0.edges, w3.edges, src as int, t as int);
                                    },
                                    None => {},
                                }
                            },
                        }
                    },
                    None => {},
                }
            }
        }
        apply_orders_phase(&mut new_world, orders);
        proof {
            assert(world_view(new_world) == sim_step_world(w0, self.timestep, orders@));
            assert(metadata == sim_step_meta(w0));
        }
        (Simulation { world: new_world, timestep: self.timestep + 1 }, metadata)
    }
}

/// Sharing topology is transitive.
pub proof fn lemma_same_topo_trans(a: WorldV, b: WorldV, c: WorldV)
    requires
        same_topo(a, b),
        same_topo(b, c),
    ensures
        same_topo(a, c),
{
    assert forall|e: int|
        0 <= e < a.edges.len() implies (#[trigger] c.edges[e]).a == a.edges[e].a && c.edges[e].b
        == a.edges[e].b && c.edges[e].lane.length == a.edges[e].lane.length by {
        assert(b.edges[e].a == a.edges[e].a && b.edges[e].b == a.edges[e].b
            && b.edges[e].lane.length == a.edges[e].lane.length);
    }
}

/// An admissible order stays admissible in any world of the same topology.
pub proof fn lemma_order_ok_topo(w1: WorldV, w2: WorldV, o: ChronalCommand)
    requires
        order_ok(w1, o),
        same_topo(w1, w2),
    ensures
        order_ok(w2, o),
{
    match o.target {
        Some(src) => {
            match o.command {
                ChronalCommandTypes::Transport(tc) => {
                    lemma_between_transfer(w1.edges, w2.edges, src as int, tc.to as int);
                },
                ChronalCommandTypes::SendAll(sc) => {
                    match sc.to {
                        Some(t) => {
                            lemma_between_transfer(w1.edges, w2.edges, src as int, t as int);
                        },
                        None => {},
                    }
                },
            }
        },
        None => {},
    }
}

} // verus!
