//! One iteration of an agent's inference loop: what the engine does before the model is
//! asked, with its response, and with the results of the tools it called.

use super::{
    agent_after_tools, all_delivered, loop_outcome, nudged, routed_messages, text_ends_loop,
    told_to_stop, usage_fits, with_response, AgentEngine, InferenceLoop, LoopStep, LoopView,
    ResponseStep,
};
use crate::components::{Entity, InferenceResponse, InferenceResponseView, StatusView};
use crate::context::TaintLevel;
use crate::engine::driver::window_at;
use crate::table::NameTable;
use crate::world::{agent_at, with_status, Agent, AgentView};
use vstd::prelude::*;

verus! {

/// The agent after a response has been taken in: stored, and where it earned a nudge, in
/// the conversation with the nudge behind it.
pub open spec fn responded(
    agent: AgentView,
    l: LoopView,
    response: InferenceResponseView,
    now: i64,
) -> AgentView {
    let stored = with_response(agent, response, now);
    if response.tool_calls.len() > 0 || text_ends_loop(l.total_tool_calls, l.text_only_nudges) {
        stored
    } else {
        AgentView { window: Some(nudged(agent.window->0, response.content)), ..stored }
    }
}

/// Takes in a response for an agent.
fn respond(agent: &mut Agent, run: &mut InferenceLoop, response: InferenceResponse) -> (step:
    ResponseStep)
    requires
        old(agent)@.window is Some,
        old(run)@.wf(),
        old(run)@.iteration < old(run)@.max_iterations,
        old(run)@.pending is None,
        usage_fits(old(run)@.cumulative, response.tokens_used),
        old(run)@.total_tool_calls + response.tool_calls@.len() <= usize::MAX,
    ensures
        final(run)@.wf(),
        final(run)@ == old(run)@.received(response@),
        step_taken(old(run)@, response@, step),
        final(agent)@ == if step is Nudged {
            AgentView {
                window: Some(nudged(old(agent)@.window->0, response@.content)),
                ..old(agent)@
            }
        } else {
            old(agent)@
        },
{
    let mut window = agent.window.take().unwrap();
    let step = run.on_response(response, &mut window);
    agent.window = Some(window);
    step
}

/// Whether a loop does this with a response.
pub open spec fn step_taken(
    l: LoopView,
    response: InferenceResponseView,
    step: ResponseStep,
) -> bool {
    if response.tool_calls.len() > 0 {
        step is RunTools
    } else if text_ends_loop(l.total_tool_calls, l.text_only_nudges) {
        step is Finished && step->response@ == (InferenceResponseView {
            tokens_used: super::usage_sum(l.cumulative, response.tokens_used),
            ..response
        })
    } else {
        step is Nudged
    }
}

impl<P> AgentEngine<P> {
    /// Starts an iteration of an agent's loop. An agent that was told to stop is marked
    /// as cancelled and asks no more; any other takes in its messages before the model
    /// is asked.
    pub fn begin_iteration(&mut self, e: Entity, run: &mut InferenceLoop) -> (step: LoopStep)
        requires
            old(run)@.wf(),
        ensures
            final(run)@.wf(),
            final(self).provider_registry == old(self).provider_registry,
            ({
                let l = old(run)@;
                let world = old(self).world@;
                if l.iteration >= l.max_iterations {
                    &&& step is Return
                    &&& loop_outcome(step->outcome, l.given_up("No response generated"@))
                    &&& final(run)@ == (LoopView { last_response: None, ..l })
                    &&& final(self).world@ == world
                    &&& final(self).pending@ == old(self).pending@
                } else if told_to_stop(world, e) {
                    &&& step is Return
                    &&& loop_outcome(
                        step->outcome,
                        l.given_up("Agent cancelled before producing a response"@),
                    )
                    &&& final(run)@ == (LoopView { last_response: None, ..l })
                    &&& final(self).world@ == with_status(world, e, StatusView::Cancelled)
                    &&& final(self).pending@ == old(self).pending@
                } else {
                    &&& step is Infer
                    &&& final(run)@ == l
                    &&& final(self).world@ == all_delivered(
                        routed_messages(world, old(self).pending@),
                    )
                    &&& final(self).pending@.len() == 0
                }
            }),
    {
        if run.iteration >= run.max_iterations {
            return run.begin(false);
        }
        if self.loop_check_cancelled(e) {
            return run.begin(true);
        }
        self.process_messages();
        run.begin(false)
    }

    /// Takes in the model's response for an agent: it is stored on the agent, and then
    /// ends the loop, earns a nudge, or has its tools run.
    pub fn take_response(
        &mut self,
        e: Entity,
        run: &mut InferenceLoop,
        response: InferenceResponse,
        now: i64,
    ) -> (step: ResponseStep)
        requires
            window_at(old(self).world@, e) is Some,
            agent_at(old(self).world@, e)->0.state.iteration < usize::MAX,
            old(run)@.wf(),
            old(run)@.iteration < old(run)@.max_iterations,
            old(run)@.pending is None,
            usage_fits(old(run)@.cumulative, response.tokens_used),
            old(run)@.total_tool_calls + response.tool_calls@.len() <= usize::MAX,
        ensures
            final(run)@.wf(),
            final(run)@ == old(run)@.received(response@),
            step_taken(old(run)@, response@, step),
            final(self).world@ == old(self).world@.update(
                e as int,
                Some(responded(agent_at(old(self).world@, e)->0, old(run)@, response@, now)),
            ),
            final(self).pending@ == old(self).pending@,
            final(self).provider_registry == old(self).provider_registry,
    {
        let ghost before = self.world@;
        let ghost l = run@;
        self.apply_inference_response(e, &response, now);
        let ghost stored = with_response(agent_at(before, e)->0, response@, now);
        let ghost mid = self.world@;
        proof {
            assert(self.world@.len() == before.len());
            assert(self.world@[e as int] == Some(stored));
        }
        let mut step = ResponseStep::Nudged;
        if let Some(agent) = &mut self.world.agents[e] {
            step = respond(agent, run, response);
        }
        proof {
            let want = before.update(
                e as int,
                Some(responded(agent_at(before, e)->0, l, response@, now)),
            );
            assert(self.world@[e as int]->0 =~= want[e as int]->0);
            assert forall|k: int| 0 <= k < want.len() implies #[trigger] self.world@[k]
                == want[k] by {
                if k != e {
                    assert(mid[k] == before[k]);
                }
            }
            assert(self.world@ =~= want);
        }
        step
    }

    /// Works the results of the pending tool calls into an agent's window, those that
    /// were run first and then those that were refused, takes in the messages that
    /// arrived meanwhile, and ends the iteration. `nudges` is what the repetition
    /// detector said of the calls, in their order.
    pub fn take_tool_results(
        &mut self,
        e: Entity,
        run: &mut InferenceLoop,
        results: Vec<(String, String)>,
        denied: Vec<(String, String)>,
        sensitivities: &Option<NameTable<TaintLevel>>,
        nudges: &Vec<String>,
    )
        requires
            window_at(old(self).world@, e) is Some,
            old(run)@.wf(),
            old(run)@.pending is Some,
        ensures
            final(run)@.wf(),
            final(run)@ == old(run)@.tools_run(),
            final(self).world@ == all_delivered(
                routed_messages(
                    old(self).world@.update(
                        e as int,
                        Some(
                            agent_after_tools(
                                agent_at(old(self).world@, e)->0,
                                *sensitivities,
                                old(run)@.pending->0,
                                results@ + denied@,
                                nudges@,
                            ),
                        ),
                    ),
                    old(self).pending@,
                ),
            ),
            final(self).pending@.len() == 0,
            final(self).provider_registry == old(self).provider_registry,
    {
        let mut all = results;
        let mut refused = denied;
        all.append(&mut refused);
        let messages = self.take_pending();
        if let Some(response) = &run.pending {
            super::loop_apply_tool_results(
                &mut self.world,
                e,
                response,
                &all,
                sensitivities,
                nudges,
                messages,
            );
        }
        run.on_tools_run();
    }
}

} // verus!
