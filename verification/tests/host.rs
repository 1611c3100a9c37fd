use leviath_runtime::components::{
    AgentMessage, AgentState, AgentStatus, FinalOutput, ParentRef, PersistWatermark, RunMetadata,
    RunStatus, SubAgentChildren, TokenTotals,
};
use leviath_runtime::context::{ContextWindow, Region, RegionKind};
use leviath_runtime::gate_prompt::AwaitingGatePrompt;
use leviath_runtime::host::relief::Heartbeat;
use leviath_runtime::host::tree::subtree;
use leviath_runtime::host::{
    status_str, AgentCounts, ControlOp, ControlReply, HostSettings, Interval, LaneSnapshot,
    PoolOccupancy, ProviderCircuitState, SpawnArgs, SubAgentOp, SubAgentReply, WaitReason, WorldEvent, WorldHost,
    DEFAULT_REDRIVE_SECS, HEALTHY_CYCLES_BEFORE_DECAY, MAX_RETAINED_FINISHED,
};
use leviath_runtime::interaction::{
    InteractionHub, InteractionKind, InteractionRequest, InteractionResponse,
};
use leviath_runtime::table::NameTable;
use leviath_runtime::world::{Agent, World};
use std::cell::{Cell, RefCell};

type Spawner = fn(&World, &SpawnArgs) -> Result<Agent, String>;
type Seeder = fn(&World, usize, Agent) -> Agent;
type Reloader = fn(&World, &str) -> Option<Agent>;
type Terminator = fn(&str) -> bool;
type Reaper = fn(&World, usize);

fn agent(id: &str) -> Agent {
    let mut agent = Agent::new(AgentState {
        agent_id: id.to_string(),
        current_stage: "main".to_string(),
        iteration: 0,
        status: AgentStatus::Active,
        spawned_children_ids: vec![],
        accepts_messages: true,
    });
    agent.metadata = Some(RunMetadata {
        run_id: id.to_string(),
        agent_name: "coder".to_string(),
        num_stages: 2,
        unattended: true,
        read_paths: None,
    });
    agent
}

fn host(agents: Vec<Agent>) -> WorldHost {
    let mut world = World::new();
    for a in agents {
        world.spawn(a);
    }
    let mut host = WorldHost::new(world);
    host.adopt_unregistered_runs();
    host
}

fn emit(host: &mut WorldHost, now: i64) -> Vec<WorldEvent> {
    host.emit_events::<Reaper>(now, None)
}

fn at(host: &mut WorldHost, e: usize) -> &mut Agent {
    host.world_mut().agents[e].as_mut().unwrap()
}

fn kind(event: &WorldEvent) -> &'static str {
    match event {
        WorldEvent::Spawned { .. } => "spawned",
        WorldEvent::Status { .. } => "status",
        WorldEvent::Tokens { .. } => "tokens",
        WorldEvent::Context { .. } => "context",
        WorldEvent::Interaction { .. } => "interaction",
        WorldEvent::Completed { .. } => "completed",
        _ => "other",
    }
}

fn kinds(events: &[WorldEvent]) -> Vec<&'static str> {
    events.iter().map(kind).collect()
}

fn lanes() -> LaneSnapshot {
    LaneSnapshot {
        agents: AgentCounts { active: 1, waiting: 2, paused: 3, idle: 4, terminal: 5 },
        inference: vec![PoolOccupancy {
            model: "m".to_string(),
            in_flight: 1,
            queued: 0,
            capacity: 4,
        }],
        tools_busy: 0,
        tools_queued: 0,
        tools_parked: 0,
        tools_workers: 4,
        tools_saturated: false,
        under_pressure: false,
    }
}

fn full_lanes() -> LaneSnapshot {
    LaneSnapshot {
        tools_busy: 4,
        tools_queued: 3,
        tools_saturated: true,
        under_pressure: true,
        ..lanes()
    }
}

fn args(run_id: &str) -> SpawnArgs {
    SpawnArgs {
        run_id: run_id.to_string(),
        blueprint_path: "/bp".to_string(),
        task: "do it".to_string(),
        regions: NameTable::new(),
        model: None,
        workdir: "/w".to_string(),
        metadata: NameTable::new(),
        callback_url: None,
        callback_secret: None,
        yolo: false,
        no_seed_commands: false,
        allow: vec![],
        max_depth: None,
        parent_run_id: None,
        output: None,
    }
}

fn make(_world: &World, args: &SpawnArgs) -> Result<Agent, String> {
    if args.task == "refuse" {
        return Err("no such blueprint".to_string());
    }
    let mut a = agent(&args.run_id);
    // What the spawner was told of the parent.
    a.state.current_stage = args.parent_run_id.clone().unwrap_or_default();
    Ok(a)
}

/// Seeds a child with what its parent has used.
fn seed(world: &World, parent: usize, mut child: Agent) -> Agent {
    child.state.iteration = 40 + world.get(parent).unwrap().state.iteration;
    child
}

fn from_disk(_world: &World, run_id: &str) -> Option<Agent> {
    if run_id.starts_with("disk") {
        let mut a = agent(run_id);
        a.state.status = AgentStatus::Paused;
        Some(a)
    } else {
        None
    }
}

fn handle(host: &mut WorldHost, op: ControlOp) -> ControlReply {
    host.handle::<Spawner, Reloader, Terminator>(
        op,
        Some(&(make as Spawner)),
        Some(&(from_disk as Reloader)),
        Some(&((|run_id: &str| run_id == "corrupt") as Terminator)),
    )
}

fn done(reply: ControlReply) -> bool {
    match reply {
        ControlReply::Done(b) => b,
        _ => panic!("not a plain answer"),
    }
}

fn output(content: &str) -> FinalOutput {
    FinalOutput {
        content: content.to_string(),
        format: None,
        stage: "main".to_string(),
        submitted_at: 1,
        truncated: false,
    }
}

fn question(id: &str) -> InteractionRequest {
    InteractionRequest::multiple_choice(id.to_string(), "?".to_string(), vec![], "test")
}

#[test]
fn every_status_has_a_label() {
    assert_eq!(status_str(&AgentStatus::Active), "active");
    assert_eq!(status_str(&AgentStatus::Waiting), "waiting");
    assert_eq!(status_str(&AgentStatus::Complete), "complete");
    assert_eq!(status_str(&AgentStatus::Error { message: "x".to_string() }), "error");
}

#[test]
fn a_run_is_reported_when_it_appears_and_then_when_it_changes() {
    let mut h = host(vec![agent("r1")]);
    let first = emit(&mut h, 0);
    assert_eq!(kinds(&first), ["spawned", "status", "tokens", "context"]);
    assert!(first.iter().all(|e| e.run_id() == "r1"));
    match &first[0] {
        WorldEvent::Spawned { blueprint, agent_id, .. } => {
            assert_eq!((blueprint.as_str(), agent_id.as_str()), ("coder", "r1"));
        }
        _ => unreachable!(),
    }
    // Nothing moved.
    assert!(emit(&mut h, 1).is_empty());

    at(&mut h, 0).state.iteration = 3;
    assert_eq!(kinds(&emit(&mut h, 2)), ["status"]);

    at(&mut h, 0).totals = Some(TokenTotals {
        prompt_tokens: 5,
        completion_tokens: 6,
        cached_tokens: 7,
        cache_write_tokens: 8,
        tool_calls: 0,
    });
    match &emit(&mut h, 3)[..] {
        [WorldEvent::Tokens { prompt_tokens, completion_tokens, cached_tokens, cache_write_tokens, .. }] => {
            assert_eq!(
                (*prompt_tokens, *completion_tokens, *cached_tokens, *cache_write_tokens),
                (5, 6, 7, 8)
            );
        }
        other => panic!("{:?}", kinds(other)),
    }

    let mut w = ContextWindow::new(900);
    w.add_region(Region::new("conversation".to_string(), RegionKind::Clearable, 500));
    let _ = w.add_to_region("conversation", "hi".to_string(), 42);
    at(&mut h, 0).window = Some(w);
    match &emit(&mut h, 4)[..] {
        [WorldEvent::Context { total_tokens, max_tokens, .. }] => {
            assert_eq!((*total_tokens, *max_tokens), (42, 900));
        }
        other => panic!("{:?}", kinds(other)),
    }
}

#[test]
fn an_end_is_reported_once_and_then_the_run_leaves() {
    let mut h = host(vec![agent("r1")]);
    emit(&mut h, 0);
    at(&mut h, 0).state.status = AgentStatus::Complete;
    at(&mut h, 0).final_output = Some(output("42"));
    let events = emit(&mut h, 1);
    assert_eq!(kinds(&events), ["status", "completed"]);
    match &events[1] {
        WorldEvent::Completed { status, final_output, .. } => {
            assert_eq!(status, "complete");
            assert_eq!(final_output.as_ref().unwrap().content, "42");
        }
        _ => unreachable!(),
    }
    // Still there, so that its end can be read.
    assert!(h.live_entity("r1").is_some());

    let seen = RefCell::new(Vec::new());
    let reaper = |world: &World, e: usize| {
        seen.borrow_mut().push((e, world.get(e).is_some()));
    };
    assert!(h.emit_events(2, Some(&reaper)).is_empty());
    // The reaper saw it while it was there, and now it is gone.
    assert_eq!(*seen.borrow(), vec![(0, true)]);
    assert!(h.live_entity("r1").is_none());
    assert!(h.world().get(0).is_none());
    let rows = h.finished();
    assert_eq!(rows.len(), 1);
    assert_eq!(rows[0].run_id, "r1");
    assert!(rows[0].has_final_output && !rows[0].empty_output);
    assert!(matches!(h.status("r1"), Some(AgentStatus::Complete)));
}

#[test]
fn a_child_stays_while_its_parent_may_wait_for_it() {
    let mut child = agent("child");
    child.state.status = AgentStatus::Complete;
    child.parent = Some(ParentRef {
        parent_entity: 0,
        parent_agent_id: "parent".to_string(),
        depth: 1,
    });
    let mut h = host(vec![agent("parent"), child]);
    for now in 0..4 {
        emit(&mut h, now);
    }
    assert!(h.live_entity("child").is_some());
    at(&mut h, 0).state.status = AgentStatus::Cancelled;
    emit(&mut h, 5);
    assert!(h.live_entity("child").is_none());
}

#[test]
fn a_paused_run_is_paged_out_and_in() {
    let mut paused = agent("disk-1");
    paused.state.status = AgentStatus::Paused;
    paused.watermark = Some(PersistWatermark {
        persisted_status: Some(RunStatus::Paused),
        last_progress_at: Some(9),
    });
    let mut h = host(vec![paused]);
    // Where nothing can be paged in again, nothing is paged out.
    emit(&mut h, 0);
    assert!(h.live_entity("disk-1").is_some());
    h.set_can_reload(true);
    emit(&mut h, 1);
    assert!(h.live_entity("disk-1").is_none());
    // The listing does not change for it.
    let rows = h.list();
    assert_eq!(rows.len(), 1);
    assert_eq!(rows[0].run_id, "disk-1");
    assert_eq!(rows[0].last_progress_at, Some(9));
    assert!(matches!(h.status("disk-1"), Some(AgentStatus::Paused)));
    // A resume brings it back.
    assert!(done(handle(&mut h, ControlOp::Resume { run_id: "disk-1".to_string() })));
    assert!(matches!(h.status("disk-1"), Some(AgentStatus::Active)));
    assert_eq!(h.list().len(), 1);
    assert!(h.live_entity("disk-1").is_some());
}

#[test]
fn a_paused_run_with_something_open_is_not_paged_out() {
    let paused = || {
        let mut a = agent("p");
        a.state.status = AgentStatus::Paused;
        a.watermark = Some(PersistWatermark {
            persisted_status: Some(RunStatus::Paused),
            last_progress_at: None,
        });
        a
    };
    let mut h = host(vec![]);
    h.set_can_reload(true);
    assert!(h.parkable(&paused()));
    let mut a = paused();
    a.awaiting_interaction = true;
    assert!(!h.parkable(&a));
    let mut a = paused();
    a.children = Some(SubAgentChildren { children: vec![], max_child_depth: 1 });
    assert!(!h.parkable(&a));
    let mut a = paused();
    a.watermark.as_mut().unwrap().persisted_status = Some(RunStatus::Running);
    assert!(!h.parkable(&a));
    let mut a = paused();
    a.state.status = AgentStatus::Active;
    assert!(!h.parkable(&a));
}

#[test]
fn a_question_is_reported_once() {
    let mut world = World::new();
    world.spawn(agent("r1"));
    let mut hub = InteractionHub::new();
    hub.ask("r1".to_string(), question("q1"));
    let mut h = WorldHost::with_interactions(world, hub);
    let first = emit(&mut h, 0);
    assert_eq!(kind(first.last().unwrap()), "interaction");
    assert!(emit(&mut h, 1).is_empty());
    assert!(matches!(
        handle(&mut h, ControlOp::ListInteractions),
        ControlReply::Interactions(open) if open.len() == 1 && open[0].1.id == "q1"
    ));
    let answer = || ControlOp::AnswerInteraction {
        response: InteractionResponse::text("q1", "yes"),
    };
    assert!(done(handle(&mut h, answer())));
    assert!(!done(handle(&mut h, answer())));
    assert!(!done(handle(&mut h, ControlOp::CancelInteraction { request_id: "q1".to_string() })));
    assert!(h.interactions().pending().is_empty());
}

#[test]
fn a_row_says_why_a_run_waits() {
    let waiting = |id: &str| {
        let mut a = agent(id);
        a.state.status = AgentStatus::Waiting;
        a
    };
    let mut gate = waiting("gate");
    gate.awaiting_gate_prompt = Some(AwaitingGatePrompt(1));
    gate.awaiting_interaction = true;
    let mut point = waiting("point");
    point.awaiting_interaction_point = true;
    let mut kids = waiting("kids");
    kids.waiting_for_children = true;
    kids.children = Some(SubAgentChildren { children: vec![0, 6, 99], max_child_depth: 3 });
    let mut asks = waiting("asks");
    asks.awaiting_interaction = true;
    let mut approve = waiting("approve");
    approve.awaiting_interaction = true;
    let nothing = waiting("nothing");
    let mut over = agent("over");
    over.state.status = AgentStatus::Complete;
    over.modified_nothing = true;

    let mut h = host(vec![gate, point, kids, asks, approve, nothing, over]);
    let mut q = question("q");
    q.kind = InteractionKind::ToolApproval;
    h.interactions.ask("approve".to_string(), q);

    let reasons: Vec<Option<WaitReason>> = h.list().iter().map(|r| r.wait_reason).collect();
    assert_eq!(
        reasons,
        [
            Some(WaitReason::TaintGate),
            Some(WaitReason::InteractionPoint),
            // One of the three is there and not over.
            Some(WaitReason::Children { outstanding: 1 }),
            Some(WaitReason::UserPrompt),
            Some(WaitReason::ToolApproval),
            None,
            None,
        ]
    );
    assert_eq!(h.wait_reason(0), Some(WaitReason::TaintGate));
    assert_eq!(h.wait_reason(77), None);
    let rows = h.list();
    assert!(rows[6].empty_output);
    assert_eq!(rows[6].num_stages, Some(2));
    assert!(rows[6].unattended);
}

#[test]
fn unloaded_runs_are_kept_for_a_while() {
    let mut h = host(vec![]);
    let row = |id: &str| host(vec![agent(id)]).list().remove(0);
    h.set_finished_retention_secs(10);
    h.record_finished(row("a"), 100);
    h.record_finished(row("b"), 105);
    // The same run again: one row, the newer one.
    h.record_finished(row("a"), 106);
    let ids = |h: &WorldHost| h.finished().iter().map(|r| r.run_id.clone()).collect::<Vec<_>>();
    assert_eq!(ids(&h), ["b", "a"]);
    h.prune_finished(115);
    assert_eq!(ids(&h), ["b", "a"]);
    h.prune_finished(116);
    assert_eq!(ids(&h), ["a"]);
    // No window, no rows.
    h.set_finished_retention_secs(0);
    h.prune_finished(116);
    assert!(h.finished().is_empty());
}

#[test]
fn the_list_of_unloaded_runs_is_bounded() {
    let mut h = host(vec![]);
    for i in 0..MAX_RETAINED_FINISHED + 3 {
        let row = host(vec![agent(&format!("r{i}"))]).list().remove(0);
        h.record_finished(row, 100);
    }
    let rows = h.finished();
    assert_eq!(rows.len(), MAX_RETAINED_FINISHED);
    assert_eq!(rows[0].run_id, "r3");
}

#[test]
fn a_wedged_daemon_gets_relief_and_gives_it_back() {
    let mut h = host(vec![agent("r1")]);
    h.set_dead_cycles_before_relief(2);
    let asked = RefCell::new(Vec::new());
    let widen = |n: usize| {
        asked.borrow_mut().push(n);
        n
    };
    let taken = Cell::new(0usize);
    let narrow = |n: usize| {
        taken.set(taken.get() + n);
        n
    };
    emit(&mut h, 0);
    // The first look only takes note.
    assert_eq!(h.observe_redrive(&full_lanes(), &widen, &narrow), 0);
    assert_eq!(h.dead_cycles, 0);
    assert_eq!(h.heartbeat(&full_lanes()), Heartbeat::Busy);
    assert_eq!(h.observe_redrive(&full_lanes(), &widen, &narrow), 0);
    assert_eq!(h.dead_cycles, 1);
    assert_eq!(h.heartbeat(&full_lanes()), Heartbeat::Stuck);
    // The second still interval: as much as the queue needs.
    assert_eq!(h.observe_redrive(&full_lanes(), &widen, &narrow), 3);
    assert_eq!((h.dead_cycles, h.relief_granted), (0, 3));
    // At most one extra lane's worth in all: 7 wide, 4 of its own, 3 granted.
    let mut wider = full_lanes();
    wider.tools_workers = 7;
    h.observe_redrive(&wider, &widen, &narrow);
    h.observe_redrive(&wider, &widen, &narrow);
    assert_eq!(*asked.borrow(), vec![3, 1]);
    assert_eq!(h.relief_granted, 4);
    // Healthy again: one permit per look, after a while.
    let mut quiet = lanes();
    quiet.tools_workers = 8;
    for _ in 0..HEALTHY_CYCLES_BEFORE_DECAY - 1 {
        h.observe_redrive(&quiet, &widen, &narrow);
    }
    assert_eq!(taken.get(), 0);
    for _ in 0..10 {
        h.observe_redrive(&quiet, &widen, &narrow);
    }
    assert_eq!(taken.get(), 4);
    assert_eq!(h.relief_granted, 0);
    assert_eq!(h.heartbeat(&quiet), Heartbeat::Quiet);
}

#[test]
fn a_run_that_moves_is_no_dead_cycle() {
    let mut h = host(vec![agent("r1")]);
    emit(&mut h, 0);
    h.observe_progress(&full_lanes());
    h.observe_progress(&full_lanes());
    assert_eq!(h.dead_cycles, 1);
    at(&mut h, 0).state.iteration += 1;
    emit(&mut h, 1);
    h.observe_progress(&full_lanes());
    assert_eq!(h.dead_cycles, 0);
}

#[test]
fn relief_can_be_turned_off() {
    let mut h = host(vec![]);
    let mut settings = HostSettings::default();
    settings.set_dead_cycles_before_relief(0);
    settings.set_finished_retention_secs(77);
    h.apply_settings(&settings);
    assert_eq!(h.finished_retention_secs, 77);
    h.dead_cycles = 1000;
    assert_eq!(h.relief_request(&full_lanes()), None);
}

#[test]
fn the_listing_carries_the_daemons_health() {
    let mut h = host(vec![agent("r1")]);
    assert_eq!(h.redrive, Interval { secs: DEFAULT_REDRIVE_SECS, nanos: 0 });
    h.set_redrive_interval(Interval { secs: 5, nanos: 7 });
    assert_eq!(h.redrive, Interval { secs: 5, nanos: 7 });
    h.relief_granted = 2;
    let op = ControlOp::List {
        lanes: lanes(),
        providers_down: vec![ProviderCircuitState {
            provider: "p".to_string(),
            reason: "down".to_string(),
            consecutive_failures: 3,
            retry_in_secs: 4,
        }],
    };
    match handle(&mut h, op) {
        ControlReply::Listing(listing) => {
            assert_eq!(listing.runs.len(), 1);
            assert!(listing.finished.is_empty());
            assert_eq!(listing.health.agents.waiting, 2);
            assert_eq!(listing.health.relief_granted, 2);
            assert_eq!(listing.health.redrive_secs, 5);
            assert_eq!(listing.health.providers_down[0].provider, "p");
        }
        _ => panic!("no listing"),
    }
    let sample = h.lane_health(&lanes(), 5);
    assert_eq!((sample.agents_active, sample.relief_granted), (1, 5));
}

/// Three levels: 0 above 1 and 2, 1 above 3; 4 stands alone.
fn family() -> WorldHost {
    let mut agents: Vec<Agent> = (0..5).map(|i| agent(&format!("r{i}"))).collect();
    agents[0].children = Some(SubAgentChildren { children: vec![1, 2], max_child_depth: 3 });
    agents[1].children = Some(SubAgentChildren { children: vec![3], max_child_depth: 3 });
    for a in agents.iter_mut() {
        a.cancel_token = Some(false);
    }
    host(agents)
}

#[test]
fn a_tree_is_cancelled_whole_with_its_questions() {
    let mut h = family();
    for i in 0..5 {
        h.interactions.ask(format!("r{i}"), question(&format!("q{i}")));
    }
    at(&mut h, 2).state.status = AgentStatus::Complete;
    assert!(done(handle(&mut h, ControlOp::Cancel { run_id: "r0".to_string() })));
    let labels: Vec<&str> = (0..5)
        .map(|i| status_str(&h.world().get(i).unwrap().state.status))
        .collect();
    // What is over stays as it ended; what is outside is left alone.
    assert_eq!(labels, ["cancelled", "cancelled", "complete", "cancelled", "active"]);
    let open: Vec<String> = h.interactions().pending().into_iter().map(|(_, q)| q.id).collect();
    assert_eq!(open, ["q4"]);
}

#[test]
fn a_walk_down_the_tree_ends_on_a_cycle() {
    let mut h = family();
    at(&mut h, 3).children = Some(SubAgentChildren { children: vec![0, 50], max_child_depth: 3 });
    assert_eq!(subtree(h.world(), 1), [true, true, true, true, false]);
    assert_eq!(subtree(h.world(), 4), [false, false, false, false, true]);
}

#[test]
fn a_cancel_reaches_a_run_on_disk() {
    let mut h = host(vec![]);
    assert!(done(handle(&mut h, ControlOp::Cancel { run_id: "disk-7".to_string() })));
    assert!(matches!(h.status("disk-7"), Some(AgentStatus::Cancelled)));
    // One that cannot be paged in is ended where it is.
    assert!(done(handle(&mut h, ControlOp::Cancel { run_id: "corrupt".to_string() })));
    assert!(!done(handle(&mut h, ControlOp::Cancel { run_id: "unknown".to_string() })));
}

#[test]
fn pause_and_resume() {
    let mut h = host(vec![agent("r1")]);
    let pause = |id: &str| ControlOp::Pause { run_id: id.to_string() };
    assert!(done(handle(&mut h, pause("r1"))));
    assert!(matches!(h.status("r1"), Some(AgentStatus::Paused)));
    assert!(done(handle(&mut h, ControlOp::Resume { run_id: "r1".to_string() })));
    assert!(matches!(h.status("r1"), Some(AgentStatus::Active)));
    assert!(!done(handle(&mut h, pause("unknown"))));
    at(&mut h, 0).state.status = AgentStatus::Complete;
    assert!(!done(handle(&mut h, pause("r1"))));
    assert!(matches!(h.status("r1"), Some(AgentStatus::Complete)));
}

#[test]
fn spawning_a_run() {
    let mut h = host(vec![]);
    match handle(&mut h, ControlOp::Spawn { args: args("new") }) {
        ControlReply::Spawned(Ok(id)) => assert_eq!(id, "new"),
        _ => panic!("not spawned"),
    }
    assert_eq!(h.live_entity("new"), Some(0));
    let mut refused = args("other");
    refused.task = "refuse".to_string();
    match handle(&mut h, ControlOp::Spawn { args: refused }) {
        ControlReply::Spawned(Err(e)) => assert_eq!(e, "no such blueprint"),
        _ => panic!("spawned"),
    }
    assert!(h.live_entity("other").is_none());
    assert_eq!(
        h.spawn_run::<Spawner>(args("x"), None),
        Err("this daemon cannot spawn agents".to_string())
    );
}

#[test]
fn spawning_a_child() {
    let mut h = host(vec![agent("top")]);
    let spawner = make as Spawner;
    let seeder = seed as Seeder;
    assert_eq!(
        h.spawn_child(args("kid"), "top", 2, Some(&spawner), Some(&seeder)),
        Ok("kid".to_string())
    );
    let kid = h.live_entity("kid").unwrap();
    let link = h.world().get(kid).unwrap().parent.as_ref().unwrap();
    assert_eq!((link.parent_entity, link.parent_agent_id.as_str(), link.depth), (0, "top", 1));
    assert_eq!(h.world().get(kid).unwrap().state.current_stage, "top");
    assert_eq!(h.world().get(kid).unwrap().state.iteration, 40);
    let top = h.world().get(0).unwrap();
    assert_eq!(top.children.as_ref().unwrap().children, [kid]);
    assert_eq!(top.children.as_ref().unwrap().max_child_depth, 2);
    assert_eq!(top.state.spawned_children_ids, ["kid"]);

    assert_eq!(
        h.spawn_child(args("grandkid"), "kid", 2, Some(&spawner), Some(&seeder)),
        Ok("grandkid".to_string())
    );
    assert_eq!(
        h.spawn_child(args("deep"), "grandkid", 2, Some(&spawner), Some(&seeder)),
        Err("sub-agent depth limit (2) reached; not spawning deeper".to_string())
    );
    assert_eq!(
        h.spawn_child(args("orphan"), "nobody", 2, Some(&spawner), Some(&seeder)),
        Err("parent run 'nobody' is not live".to_string())
    );
    assert_eq!(
        h.spawn_child::<Spawner, Seeder>(args("x"), "top", 2, None, None),
        Err("this daemon cannot spawn agents".to_string())
    );
}

fn subagent(host: &mut WorldHost, op: SubAgentOp) -> SubAgentReply {
    host.handle_subagent::<Spawner, Reloader, Seeder>(
        op,
        Some(&(make as Spawner)),
        Some(&(from_disk as Reloader)),
        Some(&(seed as Seeder)),
    )
}

fn send(to: &str, from: &str) -> SubAgentOp {
    SubAgentOp::Send {
        run_id: to.to_string(),
        caller_run_id: from.to_string(),
        content: "hi".to_string(),
        target_region: None,
    }
}

#[test]
fn an_agent_reaches_its_own_tree_only() {
    let mut h = family();
    assert!(matches!(subagent(&mut h, send("r3", "r0")), SubAgentReply::Done(true)));
    assert!(matches!(subagent(&mut h, send("r0", "r0")), SubAgentReply::Done(true)));
    assert!(matches!(subagent(&mut h, send("r4", "r0")), SubAgentReply::Done(false)));
    assert!(matches!(subagent(&mut h, send("r0", "r3")), SubAgentReply::Done(false)));
    let to: Vec<&str> = h.messages.iter().map(|m| m.agent_id.as_str()).collect();
    assert_eq!(to, ["r3", "r0"]);

    let kill = |run: &str, from: &str| SubAgentOp::Kill {
        run_id: run.to_string(),
        caller_run_id: from.to_string(),
    };
    assert!(matches!(subagent(&mut h, kill("r4", "r0")), SubAgentReply::Done(false)));
    assert!(matches!(h.status("r4"), Some(AgentStatus::Active)));
    assert!(matches!(subagent(&mut h, kill("r1", "r0")), SubAgentReply::Done(true)));
    assert!(matches!(h.status("r3"), Some(AgentStatus::Cancelled)));
    assert!(matches!(h.status("r2"), Some(AgentStatus::Active)));
}

#[test]
fn a_parent_checks_on_a_child() {
    let mut h = family();
    at(&mut h, 3).final_output = Some(output("found it"));
    match subagent(&mut h, SubAgentOp::Check { run_id: "r3".to_string() }) {
        SubAgentReply::Checked(Some(report)) => {
            assert!(matches!(report.status, AgentStatus::Active));
            assert_eq!(report.final_output.unwrap().content, "found it");
        }
        _ => panic!("not checked"),
    }
    assert!(matches!(
        subagent(&mut h, SubAgentOp::Check { run_id: "gone".to_string() }),
        SubAgentReply::Checked(None)
    ));
    match subagent(
        &mut h,
        SubAgentOp::Spawn { args: args("kid"), parent_run_id: "r3".to_string(), max_depth: 4 },
    ) {
        SubAgentReply::Spawned(Ok(id)) => assert_eq!(id, "kid"),
        _ => panic!("not spawned"),
    }
}

#[test]
fn messages_go_on_their_way_until_the_host_closes() {
    let mut h = host(vec![agent("r1")]);
    let message = |to: &str| ControlOp::Message {
        agent_id: to.to_string(),
        content: "hello".to_string(),
        target_region: Some("notes".to_string()),
    };
    assert!(done(handle(&mut h, message("r1"))));
    // A run on disk is paged in for it.
    assert!(done(handle(&mut h, message("disk-2"))));
    assert!(h.live_entity("disk-2").is_some());
    assert_eq!(h.messages.len(), 2);
    assert_eq!(h.messages[0].target_region.as_deref(), Some("notes"));
    h.messages_open = false;
    assert!(!h.send_message(AgentMessage {
        agent_id: "r1".to_string(),
        content: String::new(),
        target_region: None,
    }));
    assert_eq!(h.messages.len(), 2);
}

#[test]
fn results_statuses_and_shutdown() {
    let mut h = host(vec![agent("r1")]);
    at(&mut h, 0).final_output = Some(output("answer"));
    match handle(&mut h, ControlOp::Result { run_id: "r1".to_string() }) {
        ControlReply::Result(Some(o)) => assert_eq!(o.content, "answer"),
        _ => panic!("no result"),
    }
    assert!(matches!(
        handle(&mut h, ControlOp::Result { run_id: "r2".to_string() }),
        ControlReply::Result(None)
    ));
    assert!(matches!(
        handle(&mut h, ControlOp::Status { run_id: "r1".to_string() }),
        ControlReply::Status(Some(AgentStatus::Active))
    ));
    assert!(matches!(
        handle(&mut h, ControlOp::Status { run_id: "r2".to_string() }),
        ControlReply::Status(None)
    ));
    assert!(!h.stopping);
    assert!(done(handle(&mut h, ControlOp::Shutdown)));
    assert!(h.stopping);
}

#[test]
fn a_new_agent_takes_over_a_run_id() {
    let mut h = host(vec![agent("r1")]);
    let e = h.world_mut().spawn(agent("r1"));
    h.adopt_unregistered_runs();
    assert_eq!(h.live_entity("r1"), Some(e));
    h.register("alias".to_string(), 0);
    assert_eq!(h.live_entity("alias"), Some(0));
    assert_eq!(h.live_entity("r1"), Some(e));
}

#[test]
fn every_change_of_a_run_is_reported_and_only_once() {
    let edits: Vec<fn(&mut Agent)> = vec![
        |a| a.state.status = AgentStatus::Idle,
        |a| a.state.current_stage = "next".to_string(),
        |a| a.state.iteration = 1,
        |a| a.state.accepts_messages = false,
        |a| {
            a.totals = Some(TokenTotals {
                prompt_tokens: 0,
                completion_tokens: 0,
                cached_tokens: 0,
                cache_write_tokens: 0,
                tool_calls: 1,
            })
        },
    ];
    for edit in edits {
        let mut h = host(vec![agent("r1")]);
        emit(&mut h, 0);
        edit(at(&mut h, 0));
        assert_eq!(kinds(&emit(&mut h, 1)), ["status"]);
        assert!(emit(&mut h, 2).is_empty());
    }
}

#[test]
fn a_run_stands_once_in_the_hosts_tables() {
    let mut h = host(vec![agent("r1"), agent("r2")]);
    emit(&mut h, 0);
    emit(&mut h, 1);
    assert!(matches!(
        handle(&mut h, ControlOp::Spawn { args: args("r1") }),
        ControlReply::Spawned(Ok(_))
    ));
    emit(&mut h, 2);
    assert_eq!(h.by_run_id.entries.len(), 2);
    assert_eq!(h.emitted.entries.len(), 2);
}

#[test]
fn spawning_a_parked_run_leaves_one_row_of_it() {
    for below in [false, true] {
        let mut paused = agent("r");
        paused.state.status = AgentStatus::Paused;
        paused.watermark = Some(PersistWatermark {
            persisted_status: Some(RunStatus::Paused),
            last_progress_at: None,
        });
        let mut h = host(vec![paused, agent("top")]);
        h.set_can_reload(true);
        emit(&mut h, 0);
        assert!(h.live_entity("r").is_none());
        if below {
            assert!(matches!(
                subagent(
                    &mut h,
                    SubAgentOp::Spawn {
                        args: args("r"),
                        parent_run_id: "top".to_string(),
                        max_depth: 2,
                    },
                ),
                SubAgentReply::Spawned(Ok(_))
            ));
        } else {
            assert!(matches!(
                handle(&mut h, ControlOp::Spawn { args: args("r") }),
                ControlReply::Spawned(Ok(_))
            ));
        }
        assert!(h.live_entity("r").is_some());
        assert_eq!(h.list().iter().filter(|row| row.run_id == "r").count(), 1);
        assert_eq!(h.list().len(), 2);
    }
}

#[test]
fn a_parked_run_that_reappears_in_the_world_has_one_row() {
    let mut paused = agent("r");
    paused.state.status = AgentStatus::Paused;
    paused.watermark = Some(PersistWatermark {
        persisted_status: Some(RunStatus::Paused),
        last_progress_at: None,
    });
    let mut h = host(vec![paused]);
    h.set_can_reload(true);
    emit(&mut h, 0);
    h.world_mut().spawn(agent("r"));
    h.adopt_unregistered_runs();
    assert_eq!(h.list().len(), 1);
}

#[test]
fn the_reaper_sees_each_agent_that_leaves() {
    let mut over = agent("over");
    over.state.status = AgentStatus::Complete;
    let mut paused = agent("paused");
    paused.state.status = AgentStatus::Paused;
    paused.watermark = Some(PersistWatermark {
        persisted_status: Some(RunStatus::Paused),
        last_progress_at: None,
    });
    let mut h = host(vec![over, paused, agent("stays")]);
    h.set_can_reload(true);
    let seen: RefCell<Vec<(usize, bool)>> = RefCell::new(Vec::new());
    let reaper = |world: &World, e: usize| {
        seen.borrow_mut().push((e, world.get(e).is_some()));
    };
    h.emit_events(0, Some(&reaper));
    h.emit_events(1, Some(&reaper));
    assert_eq!(*seen.borrow(), [(1, true), (0, true)]);
}

#[test]
fn an_end_is_reported_by_one_pass_of_many() {
    // A live parent keeps the child in the world past its end.
    let mut child = agent("kid");
    child.parent = Some(ParentRef {
        parent_entity: 0,
        parent_agent_id: "top".to_string(),
        depth: 1,
    });
    let mut h = host(vec![agent("top"), child]);
    let mut completed = Vec::new();
    for pass in 0..6 {
        if pass == 2 {
            at(&mut h, 1).state.status = AgentStatus::Complete;
            at(&mut h, 1).final_output = Some(output("done"));
        }
        for event in emit(&mut h, pass) {
            if let WorldEvent::Completed { run_id, status, final_output, .. } = event {
                completed.push((pass, run_id, status, final_output.unwrap().content));
            }
        }
    }
    assert_eq!(
        completed,
        [(2, "kid".to_string(), "complete".to_string(), "done".to_string())]
    );
}

#[test]
fn a_pass_unloads_the_settled_and_no_others() {
    let mut over = agent("over");
    over.state.status = AgentStatus::Complete;
    let mut failed = agent("failed");
    failed.state.status = AgentStatus::Error { message: "no".to_string() };
    let mut waits = agent("waits");
    waits.state.status = AgentStatus::Waiting;
    let mut kid = agent("kid");
    kid.state.status = AgentStatus::Complete;
    kid.parent = Some(ParentRef {
        parent_entity: 2,
        parent_agent_id: "waits".to_string(),
        depth: 1,
    });
    let mut h = host(vec![over, failed, waits, kid, agent("works")]);
    let row = |id: &str| host(vec![agent(id)]).list().remove(0);
    h.record_finished(row("old"), 0);
    // Over for the first time: the end is reported, and nothing leaves.
    emit(&mut h, 10);
    assert_eq!(h.by_run_id.entries.len(), 5);
    emit(&mut h, 11);
    // A run whose parent is live stays, and so does one that waits.
    let live: Vec<&str> = h.by_run_id.entries.iter().map(|(id, _)| id.as_str()).collect();
    assert_eq!(live, ["waits", "kid", "works"]);
    assert!(h.world().get(0).is_none() && h.world().get(1).is_none());
    // The newest rows are those of the runs that left, in their order.
    let rows: Vec<String> = h.finished().iter().map(|r| r.run_id.clone()).collect();
    assert_eq!(rows, ["old", "over", "failed"]);
}

#[test]
fn an_unchanged_run_is_silent_while_others_move() {
    let told = |events: &[WorldEvent]| -> usize {
        events
            .iter()
            .filter(|event| match event {
                WorldEvent::Spawned { run_id, .. }
                | WorldEvent::Status { run_id, .. }
                | WorldEvent::Tokens { run_id, .. }
                | WorldEvent::Context { run_id, .. } => run_id == "still",
                _ => false,
            })
            .count()
    };
    let mut h = host(vec![agent("still"), agent("moves")]);
    assert!(told(&emit(&mut h, 0)) > 0);
    at(&mut h, 1).state.iteration = 3;
    assert_eq!(told(&emit(&mut h, 1)), 0);
    at(&mut h, 1).state.status = AgentStatus::Complete;
    for now in 2..5 {
        assert_eq!(told(&emit(&mut h, now)), 0);
    }
    at(&mut h, 0).state.iteration = 1;
    assert!(told(&emit(&mut h, 5)) > 0);
}
