//! Driving an agent's loop: what a driver hands to the engine, and what the engine has it
//! do next. Every driver takes the same steps, whether it owns the engine or shares it.

use super::iteration::responded;
use super::{
    agent_after_tools, all_delivered, loop_outcome, routed_messages, text_ends_loop, told_to_stop,
    usage_fits, usage_sum, AgentEngine, InferenceLoop, LoopStep, LoopView, ResponseStep,
};
use crate::components::{
    AgentMessage, Entity, InferenceResponse, InferenceResponseView, StatusView,
};
use crate::context::TaintLevel;
use crate::engine::driver::window_at;
use crate::table::NameTable;
use crate::world::{agent_at, with_status, AgentView};
use vstd::prelude::*;

verus! {

/// What a driver hands to the engine.
pub enum LoopEvent {
    /// An iteration is due.
    Begin,
    /// The model answered.
    Answered { response: InferenceResponse, now: i64 },
    /// The pending tool calls were run or refused.
    ToolsRun {
        results: Vec<(String, String)>,
        denied: Vec<(String, String)>,
        sensitivities: Option<NameTable<TaintLevel>>,
        nudges: Vec<String>,
    },
}

/// The model of a [`LoopEvent`].
pub enum LoopEventView {
    Begin,
    Answered { response: InferenceResponseView, now: i64 },
    ToolsRun {
        results: Seq<(String, String)>,
        denied: Seq<(String, String)>,
        sensitivities: Option<NameTable<TaintLevel>>,
        nudges: Seq<String>,
    },
}

impl View for LoopEvent {
    type V = LoopEventView;

    open spec fn view(&self) -> LoopEventView {
        match *self {
            LoopEvent::Begin => LoopEventView::Begin,
            LoopEvent::Answered { response, now } => LoopEventView::Answered {
                response: response@,
                now,
            },
            LoopEvent::ToolsRun { results, denied, sensitivities, nudges } => {
                LoopEventView::ToolsRun {
                    results: results@,
                    denied: denied@,
                    sensitivities,
                    nudges: nudges@,
                }
            },
        }
    }
}

/// What the engine has a driver do.
pub enum LoopAction {
    /// Ask the model.
    Infer,
    /// Have the pending tool calls judged, and run those that may run.
    RunTools,
    /// Keep the window within its limits, carry its state outside, and begin again.
    Settle,
    /// Begin again.
    Again,
    /// Return this.
    Return { outcome: Result<InferenceResponse, String> },
}

/// The model of a [`LoopAction`].
pub enum LoopActionView {
    Infer,
    RunTools,
    Settle,
    Again,
    Return { outcome: Result<InferenceResponseView, Seq<char>> },
}

/// Whether an action is the modelled one.
pub open spec fn is_action(got: LoopAction, want: LoopActionView) -> bool {
    match want {
        LoopActionView::Infer => got is Infer,
        LoopActionView::RunTools => got is RunTools,
        LoopActionView::Settle => got is Settle,
        LoopActionView::Again => got is Again,
        LoopActionView::Return { outcome } => got is Return && loop_outcome(got->outcome, outcome),
    }
}

/// What a loop works on: the agents, the messages on their way to them, and the loop itself.
pub struct DriveView {
    pub world: Seq<Option<AgentView>>,
    pub pending: Seq<AgentMessage>,
    pub run: LoopView,
}

/// Where a loop stands that an engine runs.
pub open spec fn drive_view<P>(engine: AgentEngine<P>, run: LoopView) -> DriveView {
    DriveView { world: engine.world@, pending: engine.pending@, run }
}

/// Whether a loop can take this in: a response where one was asked for and everything in it
/// can be counted, results where tool calls are pending, and both where the agent still has
/// its window.
pub open spec fn takes(d: DriveView, e: Entity, event: LoopEventView) -> bool {
    match event {
        LoopEventView::Begin => true,
        LoopEventView::Answered { response, .. } => {
            &&& window_at(d.world, e) is Some
            &&& agent_at(d.world, e)->0.state.iteration < usize::MAX
            &&& d.run.iteration < d.run.max_iterations
            &&& d.run.pending is None
            &&& usage_fits(d.run.cumulative, response.tokens_used)
            &&& d.run.total_tool_calls + response.tool_calls.len() <= usize::MAX
        },
        LoopEventView::ToolsRun { .. } => {
            &&& window_at(d.world, e) is Some
            &&& d.run.pending is Some
        },
    }
}

/// What the start of an iteration makes of a loop: it ends at its last iteration or where
/// the agent was told to stop, and else has the model asked.
pub open spec fn begun(d: DriveView, e: Entity) -> (DriveView, LoopActionView) {
    let l = d.run;
    let over = LoopView { last_response: None, ..l };
    if l.iteration >= l.max_iterations {
        (
            DriveView { run: over, ..d },
            LoopActionView::Return { outcome: l.given_up("No response generated"@) },
        )
    } else if told_to_stop(d.world, e) {
        (
            DriveView { world: with_status(d.world, e, StatusView::Cancelled), run: over, ..d },
            LoopActionView::Return {
                outcome: l.given_up("Agent cancelled before producing a response"@),
            },
        )
    } else {
        (
            DriveView {
                world: all_delivered(routed_messages(d.world, d.pending)),
                pending: Seq::empty(),
                run: l,
            },
            LoopActionView::Infer,
        )
    }
}

/// What a response makes of a loop: it has its tools run, ends the loop with everything
/// that was used, or earns a nudge.
pub open spec fn answered(
    d: DriveView,
    e: Entity,
    response: InferenceResponseView,
    now: i64,
) -> (DriveView, LoopActionView) {
    let l = d.run;
    let after = DriveView {
        world: d.world.update(
            e as int,
            Some(responded(agent_at(d.world, e)->0, l, response, now)),
        ),
        run: l.received(response),
        ..d
    };
    if response.tool_calls.len() > 0 {
        (after, LoopActionView::RunTools)
    } else if text_ends_loop(l.total_tool_calls, l.text_only_nudges) {
        (
            after,
            LoopActionView::Return {
                outcome: Ok(
                    InferenceResponseView {
                        tokens_used: usage_sum(l.cumulative, response.tokens_used),
                        ..response
                    },
                ),
            },
        )
    } else {
        (after, LoopActionView::Again)
    }
}

/// What an event makes of a loop, and what the driver is to do.
pub open spec fn advanced(d: DriveView, e: Entity, event: LoopEventView) -> (
    DriveView,
    LoopActionView,
) {
    match event {
        LoopEventView::Begin => begun(d, e),
        LoopEventView::Answered { response, now } => answered(d, e, response, now),
        LoopEventView::ToolsRun { results, denied, sensitivities, nudges } => (
            DriveView {
                world: all_delivered(
                    routed_messages(
                        d.world.update(
                            e as int,
                            Some(
                                agent_after_tools(
                                    agent_at(d.world, e)->0,
                                    sensitivities,
                                    d.run.pending->0,
                                    results + denied,
                                    nudges,
                                ),
                            ),
                        ),
                        d.pending,
                    ),
                ),
                pending: Seq::empty(),
                run: d.run.tools_run(),
            },
            LoopActionView::Settle,
        ),
    }
}

impl<P> AgentEngine<P> {
    /// Takes a loop one step on with what its driver brings.
    pub fn advance(&mut self, e: Entity, run: &mut InferenceLoop, event: LoopEvent) -> (action:
        LoopAction)
        requires
            old(run)@.wf(),
            takes(drive_view(*old(self), old(run)@), e, event@),
        ensures
            final(run)@.wf(),
            drive_view(*final(self), final(run)@) == advanced(
                drive_view(*old(self), old(run)@),
                e,
                event@,
            ).0,
            is_action(action, advanced(drive_view(*old(self), old(run)@), e, event@).1),
            final(self).provider_registry == old(self).provider_registry,
    {
        match event {
            LoopEvent::Begin => {
                let step = self.begin_iteration(e, run);
                proof {
                    if step is Infer {
                        assert(self.pending@ =~= Seq::<AgentMessage>::empty());
                    }
                }
                match step {
                    LoopStep::Infer => LoopAction::Infer,
                    LoopStep::Return { outcome } => LoopAction::Return { outcome },
                }
            },
            LoopEvent::Answered { response, now } => {
                match self.take_response(e, run, response, now) {
                    ResponseStep::RunTools => LoopAction::RunTools,
                    ResponseStep::Nudged => LoopAction::Again,
                    ResponseStep::Finished { response } => LoopAction::Return {
                        outcome: Ok(response),
                    },
                }
            },
            LoopEvent::ToolsRun { results, denied, sensitivities, nudges } => {
                self.take_tool_results(e, run, results, denied, &sensitivities, &nudges);
                proof {
                    assert(self.pending@ =~= Seq::<AgentMessage>::empty());
                }
                LoopAction::Settle
            },
        }
    }
}

/// The steps of a drive: where the loop stood after each, and what the driver was to do.
pub type Drive = Seq<(DriveView, LoopActionView)>;

/// What comes from outside between two steps: the agents and messages as the next one finds
/// them, and the event it takes in.
pub struct Reply {
    pub world: Seq<Option<AgentView>>,
    pub pending: Seq<AgentMessage>,
    pub event: LoopEventView,
}

/// What is outside a drive: given the steps so far, what comes next. There is nothing where
/// the model could not be asked.
pub type Outside = spec_fn(Drive) -> Option<Reply>;

/// Whether these are steps of a loop from a start on, taken with what is outside: the first
/// begins an iteration, and each further one follows an action that does not return.
pub open spec fn is_drive(e: Entity, start: DriveView, outside: Outside, drive: Drive) -> bool {
    &&& drive.len() > 0
    &&& drive[0] == advanced(start, e, LoopEventView::Begin)
    &&& forall|k: int|
        0 < k < drive.len() ==> {
            let (d, action) = drive[k - 1];
            let next = outside(drive.take(k));
            &&& !(action is Return)
            &&& next matches Some(reply) && (#[trigger] drive[k]) == advanced(
                DriveView { world: reply.world, pending: reply.pending, run: d.run },
                e,
                reply.event,
            )
        }
}

/// Whether a drive is over: its loop returned, or nothing more came from outside.
pub open spec fn is_over(outside: Outside, drive: Drive) -> bool {
    drive.last().1 is Return || outside(drive) is None
}

/// Two drives agree as far as both go.
proof fn lemma_drives_agree(
    e: Entity,
    start: DriveView,
    outside: Outside,
    one: Drive,
    other: Drive,
    n: int,
)
    requires
        is_drive(e, start, outside, one),
        is_drive(e, start, outside, other),
        0 < n <= one.len(),
        n <= other.len(),
    ensures
        one.take(n) == other.take(n),
    decreases n,
{
    let k = n - 1;
    if k > 0 {
        lemma_drives_agree(e, start, outside, one, other, k);
        assert(one.take(k)[k - 1] == other.take(k)[k - 1]);
    }
    assert(one[k] == other[k]);
    assert forall|i: int| 0 <= i < n implies #[trigger] one.take(n)[i] == other.take(n)[i] by {
        if i < k {
            assert(one.take(k)[i] == other.take(k)[i]);
        }
    }
    assert(one.take(n) =~= other.take(n));
}

/// All drivers of a loop agree. From the same start, with the same answers from outside, two
/// drives that are over have had their driver do the same things in the same order, each
/// with the agents in the same state, and have come to the same end.
pub proof fn law_drivers_agree(
    e: Entity,
    start: DriveView,
    outside: Outside,
    one: Drive,
    other: Drive,
)
    requires
        is_drive(e, start, outside, one),
        is_drive(e, start, outside, other),
        is_over(outside, one),
        is_over(outside, other),
    ensures
        one == other,
{
    let n = if one.len() <= other.len() {
        one.len() as int
    } else {
        other.len() as int
    };
    lemma_drives_agree(e, start, outside, one, other, n);
    if one.len() < other.len() {
        assert(one.take(n) =~= one);
        assert(other.take(n)[n - 1] == other[n - 1]);
        assert(other[n] == other[n]);
    } else if other.len() < one.len() {
        assert(other.take(n) =~= other);
        assert(one.take(n)[n - 1] == one[n - 1]);
        assert(one[n] == one[n]);
    } else {
        assert(one.take(n) =~= one);
        assert(other.take(n) =~= other);
    }
}

} // verus!
