//! The world host: it owns the world, knows agents by run id, reports what changes
//! and answers control operations.

use vstd::prelude::*;

pub mod control;
pub mod events;
pub mod laws;
pub mod listing;
pub mod ops;
pub mod passes;
pub mod relief;
pub mod reports;
pub mod requests;
pub mod sequence;
pub mod settings;
pub mod tree;
pub mod types;

pub use types::{
    AgentCounts, ControlOp, ControlReply, DaemonHealth, LaneSnapshot, OutputSpec, PoolOccupancy,
    ProviderCircuitState, RunListEntry, RunListing, SpawnArgs, SubAgentOp, SubAgentReply,
    SubAgentReport, WaitReason, WorldEvent,
};

pub use settings::HostSettings;

use crate::components::{AgentMessage, AgentStatus, Entity};
use crate::interaction::{InteractionHub, RequestView};
use crate::table::{lookup, modelled, names_unique, NameTable};
use crate::text::texts;
use crate::world::{agent_at, AgentView, World};
use listing::one_row_each;
use std::collections::VecDeque;
use types::RunEntryView;

verus! {

/// Consecutive healthy re-drives before a granted permit is reclaimed.
pub const HEALTHY_CYCLES_BEFORE_DECAY: u32 = 4;

/// How often the serve loop re-drives the world on its own, in seconds.
pub const DEFAULT_REDRIVE_SECS: u64 = 30;

/// A span of time: whole seconds, and the nanoseconds beyond them.
#[derive(Clone, Copy, Debug, PartialEq, Eq, Structural)]
pub struct Interval {
    pub secs: u64,
    pub nanos: u32,
}

/// How many consecutive dead cycles trigger the tool-lane relief valve.
pub const DEFAULT_DEAD_CYCLES_BEFORE_RELIEF: u32 = 10;

/// How long a run stays in the listing after it is unloaded, in seconds.
pub const DEFAULT_FINISHED_RETENTION_SECS: u64 = 300;

/// How many unloaded runs the listing holds, whatever the retention window says.
pub const MAX_RETAINED_FINISHED: usize = 256;

/// A short, stable label for a status, as events carry it.
pub fn status_str(status: &AgentStatus) -> (label: &'static str)
    ensures
        label@ == status@.label_of(),
{
    status.label()
}

/// What was last reported of a run.
pub struct Emitted {
    pub status: &'static str,
    pub stage: String,
    pub iteration: usize,
    pub tool_calls: usize,
    pub accepts_messages: bool,
    pub prompt_tokens: usize,
    pub completion_tokens: usize,
    pub cached_tokens: usize,
    pub cache_write_tokens: usize,
    pub context_tokens: usize,
    pub terminal: bool,
}

/// The model of an [`Emitted`].
pub struct EmittedView {
    pub status: Seq<char>,
    pub stage: Seq<char>,
    pub iteration: nat,
    pub tool_calls: usize,
    pub accepts_messages: bool,
    pub prompt_tokens: usize,
    pub completion_tokens: usize,
    pub cached_tokens: usize,
    pub cache_write_tokens: usize,
    pub context_tokens: nat,
    pub terminal: bool,
}

impl View for Emitted {
    type V = EmittedView;

    open spec fn view(&self) -> EmittedView {
        EmittedView {
            status: self.status@,
            stage: self.stage@,
            iteration: self.iteration as nat,
            tool_calls: self.tool_calls,
            accepts_messages: self.accepts_messages,
            prompt_tokens: self.prompt_tokens,
            completion_tokens: self.completion_tokens,
            cached_tokens: self.cached_tokens,
            cache_write_tokens: self.cache_write_tokens,
            context_tokens: self.context_tokens as nat,
            terminal: self.terminal,
        }
    }
}

impl Clone for Emitted {
    fn clone(&self) -> (copy: Self)
        ensures
            copy@ == self@,
    {
        Emitted {
            status: self.status,
            stage: self.stage.clone(),
            iteration: self.iteration,
            tool_calls: self.tool_calls,
            accepts_messages: self.accepts_messages,
            prompt_tokens: self.prompt_tokens,
            completion_tokens: self.completion_tokens,
            cached_tokens: self.cached_tokens,
            cache_write_tokens: self.cache_write_tokens,
            context_tokens: self.context_tokens,
            terminal: self.terminal,
        }
    }
}

/// Owns the world and the run-id map.
pub struct WorldHost {
    pub world: World,
    pub by_run_id: NameTable<Entity>,
    pub interactions: InteractionHub,
    /// What was last reported of each run.
    pub emitted: NameTable<Emitted>,
    /// The ids of the open questions that were reported, each once.
    pub emitted_interactions: Vec<String>,
    /// Messages on their way to agents.
    pub messages: Vec<AgentMessage>,
    /// Whether messages are still taken.
    pub messages_open: bool,
    pub redrive: Interval,
    /// Consecutive re-drives that found the lanes full and nothing moved.
    pub dead_cycles: u32,
    /// What had been reported of the runs at the previous re-drive.
    pub last_progress: Option<NameTable<Emitted>>,
    /// Extra tool-lane permits handed out and not yet reclaimed.
    pub relief_granted: usize,
    /// Consecutive healthy re-drives while relief was outstanding.
    pub healthy_cycles: u32,
    /// Dead cycles tolerated before the tool lane is widened; `0` disables relief.
    pub dead_cycles_before_relief: u32,
    /// Runs unloaded recently, oldest first, each with the unix second it was.
    pub finished: VecDeque<(i64, RunListEntry)>,
    /// How long an unloaded run stays in the listing; `0` keeps none.
    pub finished_retention_secs: u64,
    /// Paused runs that were paged out of the world, each with its last row.
    pub parked: NameTable<RunListEntry>,
    /// Whether a run that was paged out can be paged in again.
    pub can_reload: bool,
    /// Whether the host has been told to shut down.
    pub stopping: bool,
}

/// The rows of unloaded runs as models.
pub open spec fn finished_views(finished: Seq<(i64, RunListEntry)>) -> Seq<(i64, RunEntryView)> {
    Seq::new(finished.len(), |i: int| (finished[i].0, finished[i].1@))
}

/// The model of an optional table of what was reported.
pub open spec fn progress_view(progress: Option<NameTable<Emitted>>) -> Option<
    Seq<(Seq<char>, EmittedView)>,
> {
    match progress {
        Some(table) => Some(modelled(table@)),
        None => None,
    }
}

/// The model of a [`WorldHost`].
#[verifier::ext_equal]
pub struct HostView {
    pub world: Seq<Option<AgentView>>,
    pub by_run_id: Seq<(Seq<char>, Entity)>,
    pub interactions: Seq<(Seq<char>, RequestView)>,
    pub emitted: Seq<(Seq<char>, EmittedView)>,
    pub emitted_interactions: Seq<Seq<char>>,
    pub messages: Seq<AgentMessage>,
    pub messages_open: bool,
    pub redrive: Interval,
    pub dead_cycles: u32,
    pub last_progress: Option<Seq<(Seq<char>, EmittedView)>>,
    pub relief_granted: usize,
    pub healthy_cycles: u32,
    pub dead_cycles_before_relief: u32,
    pub finished: Seq<(i64, RunEntryView)>,
    pub finished_retention_secs: u64,
    pub parked: Seq<(Seq<char>, RunEntryView)>,
    pub can_reload: bool,
    pub stopping: bool,
}

impl HostView {
    /// Whether no run is both in the run-id map and paged out, and each paged-out run's
    /// row is its own.
    pub open spec fn parked_apart(self) -> bool {
        forall|run_id: Seq<char>| #[trigger]
            lookup(self.parked, run_id) is Some ==> lookup(self.by_run_id, run_id) is None
                && lookup(self.parked, run_id)->0.run_id == run_id
    }

    /// What every host keeps: nothing stands twice in a table of runs, a run that is
    /// paged out is not in the run-id map, no question is noted twice, and the list of
    /// unloaded runs holds each run once and stays within its bound.
    pub open spec fn wf(self) -> bool {
        &&& names_unique(self.by_run_id)
        &&& names_unique(self.emitted)
        &&& names_unique(self.parked)
        &&& self.parked_apart()
        &&& self.last_progress is Some ==> names_unique(self.last_progress->0)
        &&& self.emitted_interactions.no_duplicates()
        &&& one_row_each(self.finished)
        &&& self.finished.len() <= MAX_RETAINED_FINISHED
    }
}

impl View for WorldHost {
    type V = HostView;

    open spec fn view(&self) -> HostView {
        HostView {
            world: self.world@,
            by_run_id: self.by_run_id@,
            interactions: self.interactions@,
            emitted: modelled(self.emitted@),
            emitted_interactions: texts(self.emitted_interactions@),
            messages: self.messages@,
            messages_open: self.messages_open,
            redrive: self.redrive,
            dead_cycles: self.dead_cycles,
            last_progress: progress_view(self.last_progress),
            relief_granted: self.relief_granted,
            healthy_cycles: self.healthy_cycles,
            dead_cycles_before_relief: self.dead_cycles_before_relief,
            finished: finished_views(self.finished@),
            finished_retention_secs: self.finished_retention_secs,
            parked: modelled(self.parked@),
            can_reload: self.can_reload,
            stopping: self.stopping,
        }
    }
}

/// A host that has just taken over a world.
pub open spec fn fresh_host(
    world: Seq<Option<AgentView>>,
    interactions: Seq<(Seq<char>, RequestView)>,
) -> HostView {
    HostView {
        world,
        by_run_id: Seq::empty(),
        interactions,
        emitted: Seq::empty(),
        emitted_interactions: Seq::empty(),
        messages: Seq::empty(),
        messages_open: true,
        redrive: (Interval { secs: DEFAULT_REDRIVE_SECS, nanos: 0 }),
        dead_cycles: 0,
        last_progress: None,
        relief_granted: 0,
        healthy_cycles: 0,
        dead_cycles_before_relief: DEFAULT_DEAD_CYCLES_BEFORE_RELIEF,
        finished: Seq::empty(),
        finished_retention_secs: DEFAULT_FINISHED_RETENTION_SECS,
        parked: Seq::empty(),
        can_reload: false,
        stopping: false,
    }
}

/// The agent of a run that is live, that is, still in the world.
pub open spec fn live(h: HostView, run_id: Seq<char>) -> Option<Entity> {
    match lookup(h.by_run_id, run_id) {
        Some(e) => if agent_at(h.world, e) is Some {
            Some(e)
        } else {
            None
        },
        None => None,
    }
}

impl WorldHost {
    /// Wraps a world, with no open questions.
    pub fn new(world: World) -> (host: WorldHost)
        ensures
            host@ == fresh_host(world@, Seq::empty()),
            host@.wf(),
    {
        WorldHost::with_interactions(world, InteractionHub::new())
    }

    /// Wraps a world with the questions that are open in it.
    pub fn with_interactions(world: World, interactions: InteractionHub) -> (host: WorldHost)
        ensures
            host@ == fresh_host(world@, interactions@),
            host@.wf(),
    {
        let host = WorldHost {
            world,
            by_run_id: NameTable::new(),
            interactions,
            emitted: NameTable::new(),
            emitted_interactions: Vec::new(),
            messages: Vec::new(),
            messages_open: true,
            redrive: Interval { secs: DEFAULT_REDRIVE_SECS, nanos: 0 },
            dead_cycles: 0,
            last_progress: None,
            relief_granted: 0,
            healthy_cycles: 0,
            dead_cycles_before_relief: DEFAULT_DEAD_CYCLES_BEFORE_RELIEF,
            finished: VecDeque::new(),
            finished_retention_secs: DEFAULT_FINISHED_RETENTION_SECS,
            parked: NameTable::new(),
            can_reload: false,
            stopping: false,
        };
        proof {
            assert(host@ =~= fresh_host(world@, interactions@));
        }
        host
    }

    /// How long a run stays in the listing after it is unloaded; `0` keeps none.
    pub fn set_finished_retention_secs(&mut self, secs: u64)
        ensures
            final(self)@ == (HostView { finished_retention_secs: secs, ..old(self)@ }),
    {
        self.finished_retention_secs = secs;
    }

    /// How many dead cycles are tolerated before the tool lane is widened; `0`
    /// disables relief.
    pub fn set_dead_cycles_before_relief(&mut self, cycles: u32)
        ensures
            final(self)@ == (HostView { dead_cycles_before_relief: cycles, ..old(self)@ }),
    {
        self.dead_cycles_before_relief = cycles;
    }

    /// How often the world is re-driven with no wake.
    pub fn set_redrive_interval(&mut self, every: Interval)
        ensures
            final(self)@ == (HostView { redrive: every, ..old(self)@ }),
    {
        self.redrive = every;
    }

    /// Says whether a run that was paged out can be paged in again.
    pub fn set_can_reload(&mut self, can: bool)
        ensures
            final(self)@ == (HostView { can_reload: can, ..old(self)@ }),
    {
        self.can_reload = can;
    }

    /// Takes over settings.
    pub fn apply_settings(&mut self, settings: &HostSettings)
        ensures
            final(self)@ == (HostView {
                dead_cycles_before_relief: settings.dead_cycles,
                finished_retention_secs: settings.retention_secs,
                ..old(self)@
            }),
    {
        self.dead_cycles_before_relief = settings.dead_cycles_before_relief();
        self.finished_retention_secs = settings.finished_retention_secs();
    }

    /// The questions that are open.
    pub fn interactions(&self) -> (hub: &InteractionHub)
        ensures
            hub@ == self@.interactions,
    {
        &self.interactions
    }

    /// The world.
    pub fn world(&self) -> (world: &World)
        ensures
            world@ == self@.world,
    {
        &self.world
    }

    /// The world, to be changed.
    pub fn world_mut(&mut self) -> (world: &mut World)
        ensures
            *world == old(self).world,
            *final(self) == (WorldHost { world: *final(world), ..*old(self) }),
    {
        &mut self.world
    }

    /// The agent of a run that is live.
    pub fn live_entity(&self, run_id: &str) -> (found: Option<Entity>)
        ensures
            found == live(self@, run_id@),
    {
        match self.by_run_id.get(run_id) {
            Some(entity) => {
                let e: usize = *entity;
                match self.world.get(e) {
                    Some(_) => Some(e),
                    None => None,
                }
            },
            None => None,
        }
    }
}

} // verus!
