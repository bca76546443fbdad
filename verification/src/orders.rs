//! Commands: time-targeted world orders and the timeline-level events
//! that carry them.

use vstd::prelude::*;
use crate::simulation::Player;

verus! {

/// Discrete simulated time: the timeline's coordinate system.
pub type ChronalTime = u32;

/// Move a percentage of a garrison onto the lane toward `to`.
#[derive(Copy, Clone, PartialEq, Eq, Debug)]
pub struct TransportCommand {
    pub to: usize,
    pub percent: u8,
}

/// Set (or clear, when `to` is `None`) a standing auto-forward target.
#[derive(Copy, Clone, PartialEq, Eq, Debug)]
pub struct SendAllCommand {
    pub to: Option<usize>,
}

/// The world orders that can be filed against a tick.
#[derive(Copy, Clone, PartialEq, Eq, Debug)]
pub enum ChronalCommandTypes {
    Transport(TransportCommand),
    SendAll(SendAllCommand),
}

/// A world order addressed to a source node and a target tick.
#[derive(Copy, Clone, PartialEq, Eq, Debug)]
pub struct ChronalCommand {
    pub time: ChronalTime,
    pub target: Option<usize>,
    pub player: Player,
    pub command: ChronalCommandTypes,
}

/// Remove a player's filed orders naming `target` from tick `time` onward.
#[derive(Copy, Clone, PartialEq, Eq, Debug)]
pub struct ClearCommand {
    pub time: ChronalTime,
    pub target: usize,
}

/// The timeline-level events of one evaluation batch.
#[derive(Copy, Clone, PartialEq, Eq, Debug)]
pub enum AchronalCommandTypes {
    Chronal(ChronalCommand),
    Timejump(ChronalTime),
    ClearCommands(ClearCommand),
}

/// One batch entry: an event together with the issuing player.
#[derive(Copy, Clone, PartialEq, Eq, Debug)]
pub struct AchronalCommand {
    pub player: Player,
    pub event: AchronalCommandTypes,
}

} // verus!
