//! The engine: a world of agents, the providers they infer with and the messages on
//! their way to them.

use super::{
    all_delivered, cancellable, cancelled_agent, inbox_emptied, inbox_of, routed_messages,
    told_to_stop, with_assistant_turn, with_response, ProviderRegistry, RequestPlan, Tool,
};
use crate::components::{
    copy_calls, AgentMessage, Entity, InferenceResponse, InferenceResponseView, StatusView,
};
use crate::context::{EntryKind, WindowView};
use crate::table::lookup;
use crate::text::{estimate_tokens, tokens_of};
use crate::world::{agent_at, with_status, Agent, AgentView, World};
use vstd::prelude::*;

verus! {

/// A world of agents with what drives them.
pub struct AgentEngine<P> {
    pub world: World,
    pub provider_registry: ProviderRegistry<P>,
    /// Messages that were sent and not yet processed, oldest first.
    pub pending: Vec<AgentMessage>,
}

/// The world with taint tracking turned on for the agent at a place.
pub open spec fn taint_tracked(world: Seq<Option<AgentView>>, e: Entity) -> Seq<Option<AgentView>> {
    match agent_at(world, e) {
        Some(agent) => match agent.window {
            Some(w) => world.update(
                e as int,
                Some(AgentView { window: Some(WindowView { tracks_taint: true, ..w }), ..agent }),
            ),
            None => world,
        },
        None => world,
    }
}

/// The window of the agent at a place.
pub open spec fn window_at(world: Seq<Option<AgentView>>, e: Entity) -> Option<WindowView> {
    match agent_at(world, e) {
        Some(agent) => agent.window,
        None => None,
    }
}

/// The agent with a response at the end of its conversation.
pub open spec fn with_turn(agent: AgentView, response: InferenceResponseView) -> AgentView {
    AgentView {
        window: match agent.window {
            Some(w) => Some(
                with_assistant_turn(
                    w,
                    response.content,
                    response.tool_calls,
                    tokens_of(response.content),
                ),
            ),
            None => None,
        },
        ..agent
    }
}

/// The agent after the reply to a single inference call.
pub open spec fn with_reply(
    agent: AgentView,
    response: InferenceResponseView,
    now: i64,
) -> AgentView {
    with_turn(with_response(agent, response, now), response)
}

impl<P> AgentEngine<P> {
    /// An engine without agents or providers.
    pub fn new() -> (engine: AgentEngine<P>)
        ensures
            engine.world@ == Seq::<Option<AgentView>>::empty(),
            engine.provider_registry.providers@ == Seq::<(Seq<char>, P)>::empty(),
            engine.pending@ == Seq::<AgentMessage>::empty(),
    {
        AgentEngine::with_providers(ProviderRegistry::new())
    }

    /// An engine without agents.
    pub fn with_providers(provider_registry: ProviderRegistry<P>) -> (engine: AgentEngine<P>)
        ensures
            engine.world@ == Seq::<Option<AgentView>>::empty(),
            engine.provider_registry == provider_registry,
            engine.pending@ == Seq::<AgentMessage>::empty(),
    {
        AgentEngine { world: World::new(), provider_registry, pending: Vec::new() }
    }

    /// The world.
    pub fn world(&self) -> (world: &World)
        ensures
            *world == self.world,
    {
        &self.world
    }

    /// The world, to be changed.
    pub fn world_mut(&mut self) -> (world: &mut World)
        ensures
            *world == old(self).world,
            *final(self) == (AgentEngine { world: *final(world), ..*old(self) }),
    {
        &mut self.world
    }

    /// The providers.
    pub fn providers(&self) -> (registry: &ProviderRegistry<P>)
        ensures
            *registry == self.provider_registry,
    {
        &self.provider_registry
    }

    /// The providers, to be changed.
    pub fn providers_mut(&mut self) -> (registry: &mut ProviderRegistry<P>)
        ensures
            *registry == old(self).provider_registry,
            *final(self) == (AgentEngine { provider_registry: *final(registry), ..*old(self) }),
    {
        &mut self.provider_registry
    }

    /// The provider under a name.
    pub fn get_provider(&self, name: &str) -> (found: Option<&P>)
        ensures
            match found {
                Some(provider) => lookup(self.provider_registry.providers@, name@) == Some(
                    *provider,
                ),
                None => lookup(self.provider_registry.providers@, name@) is None,
            },
    {
        self.provider_registry.get(name)
    }

    /// Sends a message to an agent.
    pub fn send_message(&mut self, msg: AgentMessage)
        ensures
            final(self).pending@ == old(self).pending@.push(msg),
            final(self).world == old(self).world,
            final(self).provider_registry == old(self).provider_registry,
    {
        self.pending.push(msg);
    }

    /// Takes out the messages that were sent.
    pub(crate) fn take_pending(&mut self) -> (messages: Vec<AgentMessage>)
        ensures
            messages@ == old(self).pending@,
            final(self).pending@ == Seq::<AgentMessage>::empty(),
            final(self).world == old(self).world,
            final(self).provider_registry == old(self).provider_registry,
    {
        let mut messages: Vec<AgentMessage> = Vec::new();
        std::mem::swap(&mut messages, &mut self.pending);
        messages
    }

    /// Puts the messages that were sent into inboxes, and delivers what can be
    /// delivered.
    pub fn process_messages(&mut self)
        ensures
            final(self).world@ == all_delivered(
                routed_messages(old(self).world@, old(self).pending@),
            ),
            final(self).pending@ == Seq::<AgentMessage>::empty(),
            final(self).provider_registry == old(self).provider_registry,
    {
        let messages = self.take_pending();
        super::process_messages(&mut self.world, messages);
    }

    /// Takes in the messages that were sent and then discards what an agent's stage
    /// never took. Hands back what was discarded.
    pub fn drain_pending_messages(&mut self, e: Entity) -> (dropped: Vec<AgentMessage>)
        ensures
            ({
                let processed = all_delivered(
                    routed_messages(old(self).world@, old(self).pending@),
                );
                &&& final(self).world@ == inbox_emptied(processed, e)
                &&& dropped@ == inbox_of(processed, e)
            }),
            final(self).pending@ == Seq::<AgentMessage>::empty(),
            final(self).provider_registry == old(self).provider_registry,
    {
        let messages = self.take_pending();
        super::drain_pending_messages(&mut self.world, e, messages)
    }

    /// Cancels a running agent: its token is set and its status says so.
    pub fn cancel_agent(&mut self, agent_id: &str) -> (done: Result<(), String>)
        ensures
            match cancellable(old(self).world@, agent_id@, 0) {
                Some(i) => done is Ok && final(self).world@ == old(self).world@.update(
                    i,
                    Some(cancelled_agent(old(self).world@[i]->0)),
                ),
                None => done is Err && done->Err_0@ == "Agent '"@ + agent_id@ + "' not found"@
                    && final(self).world@ == old(self).world@,
            },
            final(self).pending == old(self).pending,
            final(self).provider_registry == old(self).provider_registry,
    {
        super::cancel_agent(&mut self.world, agent_id)
    }

    /// Turns on taint tracking for the window of the agent at a place.
    pub fn enable_entity_taint_tracking(&mut self, e: Entity)
        ensures
            final(self).world@ == taint_tracked(old(self).world@, e),
            final(self).pending == old(self).pending,
            final(self).provider_registry == old(self).provider_registry,
    {
        let ghost before = self.world@;
        if e < self.world.agents.len() {
            if let Some(agent) = &mut self.world.agents[e] {
                track_taint(agent);
            }
        }
        proof {
            let want = taint_tracked(before, e);
            assert forall|k: int| 0 <= k < want.len() implies #[trigger] self.world@[k]
                == want[k] by {}
            assert(self.world@ =~= want);
        }
    }

    /// Plans an inference request for the agent at a place. Fails where the provider is
    /// not registered or the agent has no window.
    pub fn build_inference_request(
        &self,
        e: Entity,
        provider_name: &str,
        stage_limit: Option<usize>,
        model_limit: usize,
        tools: Vec<Tool>,
        tool_filter: &Option<Vec<String>>,
    ) -> (out: Result<RequestPlan, String>)
        ensures
            match out {
                Ok(plan) => {
                    &&& lookup(self.provider_registry.providers@, provider_name@) is Some
                    &&& window_at(self.world@, e) is Some
                    &&& plan.max_tokens == super::response_budget(
                        window_at(self.world@, e)->0,
                        stage_limit,
                        model_limit,
                    )
                    &&& plan.tools@ == super::filtered(tools@, *tool_filter)
                },
                Err(message) => if lookup(self.provider_registry.providers@, provider_name@)
                    is None {
                    message@ == "Provider '"@ + provider_name@ + "' not registered"@
                } else {
                    window_at(self.world@, e) is None && message@
                        == "Entity has no ContextWindow"@
                },
            },
    {
        match self.world.get(e) {
            Some(agent) => super::build_inference_request(
                &self.provider_registry,
                &agent.window,
                provider_name,
                stage_limit,
                model_limit,
                tools,
                tool_filter,
            ),
            None => super::build_inference_request(
                &self.provider_registry,
                &None,
                provider_name,
                stage_limit,
                model_limit,
                tools,
                tool_filter,
            ),
        }
    }

    /// Stores an inference response on the agent at a place and counts the iteration.
    pub fn apply_inference_response(&mut self, e: Entity, response: &InferenceResponse, now: i64)
        requires
            agent_at(old(self).world@, e) is Some,
            agent_at(old(self).world@, e)->0.state.iteration < usize::MAX,
        ensures
            final(self).world@ == old(self).world@.update(
                e as int,
                Some(with_response(agent_at(old(self).world@, e)->0, response@, now)),
            ),
            final(self).pending == old(self).pending,
            final(self).provider_registry == old(self).provider_registry,
    {
        super::apply_inference_response(&mut self.world, e, response, now);
    }

    /// Takes in the reply to a single inference call: it is stored on the agent at a place,
    /// the iteration counts, and the reply stands at the end of the conversation.
    pub fn take_reply(&mut self, e: Entity, response: &InferenceResponse, now: i64)
        requires
            agent_at(old(self).world@, e) is Some,
            agent_at(old(self).world@, e)->0.state.iteration < usize::MAX,
        ensures
            final(self).world@ == old(self).world@.update(
                e as int,
                Some(with_reply(agent_at(old(self).world@, e)->0, response@, now)),
            ),
            final(self).pending == old(self).pending,
            final(self).provider_registry == old(self).provider_registry,
    {
        let ghost before = self.world@;
        super::apply_inference_response(&mut self.world, e, response, now);
        let ghost mid = self.world@;
        assert(mid.len() == before.len());
        assert(mid[e as int] is Some);
        if let Some(agent) = &mut self.world.agents[e] {
            add_turn(agent, response);
        }
        proof {
            let want = before.update(
                e as int,
                Some(with_reply(agent_at(before, e)->0, response@, now)),
            );
            assert forall|k: int| 0 <= k < want.len() implies #[trigger] self.world@[k]
                == want[k] by {
                if k != e {
                    assert(mid[k] == before[k]);
                }
            }
            assert(self.world@ =~= want);
        }
    }

    /// Whether the loop of the agent at a place should stop because it has been
    /// cancelled; if so, its status says so.
    pub fn loop_check_cancelled(&mut self, e: Entity) -> (stop: bool)
        ensures
            stop == told_to_stop(old(self).world@, e),
            final(self).world@ == if stop {
                with_status(old(self).world@, e, StatusView::Cancelled)
            } else {
                old(self).world@
            },
            final(self).pending == old(self).pending,
            final(self).provider_registry == old(self).provider_registry,
    {
        super::loop_check_cancelled(&mut self.world, e)
    }

    /// Stores the summary of a region of an agent's window in the region's history and
    /// clears the region.
    pub fn compact_region(&mut self, e: Entity, region_name: &str, summary: &str)
        requires
            window_at(old(self).world@, e) is Some,
            window_at(old(self).world@, e)->0.has_region(region_name@),
        ensures
            final(self).world@ == old(self).world@.update(
                e as int,
                Some(
                    AgentView {
                        window: Some(
                            super::region_compacted(
                                window_at(old(self).world@, e)->0,
                                region_name@,
                                summary@,
                            ),
                        ),
                        ..agent_at(old(self).world@, e)->0
                    },
                ),
            ),
            final(self).pending == old(self).pending,
            final(self).provider_registry == old(self).provider_registry,
    {
        let ghost before = self.world@;
        if let Some(agent) = &mut self.world.agents[e] {
            compact_in(agent, region_name, summary);
        }
        proof {
            let want = before.update(
                e as int,
                Some(
                    AgentView {
                        window: Some(
                            super::region_compacted(
                                window_at(before, e)->0,
                                region_name@,
                                summary@,
                            ),
                        ),
                        ..agent_at(before, e)->0
                    },
                ),
            );
            assert forall|k: int| 0 <= k < want.len() implies #[trigger] self.world@[k]
                == want[k] by {}
            assert(self.world@ =~= want);
        }
    }
}

/// Puts a response at the end of an agent's conversation.
fn add_turn(agent: &mut Agent, response: &InferenceResponse)
    ensures
        final(agent)@ == with_turn(old(agent)@, response@),
{
    if let Some(window) = &mut agent.window {
        let turn = EntryKind::AssistantTurn { tool_calls: copy_calls(&response.tool_calls) };
        let _ = window.add_typed_entry(
            "conversation",
            turn,
            response.content.clone(),
            estimate_tokens(response.content.as_str()),
        );
    }
}

/// Turns on taint tracking for an agent's window.
fn track_taint(agent: &mut Agent)
    ensures
        final(agent)@ == (AgentView {
            window: match old(agent)@.window {
                Some(w) => Some(WindowView { tracks_taint: true, ..w }),
                None => None,
            },
            ..old(agent)@
        }),
{
    if let Some(window) = &mut agent.window {
        window.enable_taint_tracking();
    }
}

/// Compacts a region of an agent's window.
fn compact_in(agent: &mut Agent, region_name: &str, summary: &str)
    requires
        old(agent)@.window is Some,
        old(agent)@.window->0.has_region(region_name@),
    ensures
        final(agent)@ == (AgentView {
            window: Some(
                super::region_compacted(old(agent)@.window->0, region_name@, summary@),
            ),
            ..old(agent)@
        }),
{
    if let Some(window) = &mut agent.window {
        super::compact_region(window, region_name, summary);
    }
}

impl<P> Default for AgentEngine<P> {
    fn default() -> (engine: Self)
        ensures
            engine.world@ == Seq::<Option<AgentView>>::empty(),
            engine.provider_registry.providers@ == Seq::<(Seq<char>, P)>::empty(),
            engine.pending@ == Seq::<AgentMessage>::empty(),
    {
        AgentEngine::new()
    }
}

} // verus!
