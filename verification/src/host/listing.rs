//! What the host says of a run: why it waits, and its row in the listing.

use crate::components::{AgentStatus, Entity};
use crate::fanout::saturated;
use crate::host::types::{entry_views, RunEntryView};
use crate::host::{
    finished_views, HostView, RunListEntry, WaitReason, WorldHost, MAX_RETAINED_FINISHED,
};
use crate::interaction::{InteractionKind, RequestView};
use crate::text::same_text;
use crate::world::{agent_at, Agent, AgentView, World};
use std::collections::VecDeque;
use vstd::prelude::*;

verus! {

/// Whether the agent at a place is there and not at its end.
pub open spec fn is_running(world: Seq<Option<AgentView>>, e: Entity) -> bool {
    agent_at(world, e) is Some && !agent_at(world, e)->0.state.status.terminal()
}

/// How many of some agents are there and not at their end.
pub open spec fn running_among(world: Seq<Option<AgentView>>, children: Seq<Entity>) -> nat
    decreases children.len(),
{
    if children.len() == 0 {
        0
    } else {
        running_among(world, children.drop_last()) + if is_running(world, children.last()) {
            1nat
        } else {
            0nat
        }
    }
}

/// The kind of the first open question of an agent.
pub open spec fn asked_kind(
    open: Seq<(Seq<char>, RequestView)>,
    agent_id: Seq<char>,
    from: int,
) -> Option<InteractionKind>
    decreases open.len() - from,
{
    if from < 0 || from >= open.len() {
        None
    } else if open[from].0 == agent_id {
        Some(open[from].1.kind)
    } else {
        asked_kind(open, agent_id, from + 1)
    }
}

/// Why an agent that waits does so. The more specific reasons come first: a gate
/// block and a stage checkpoint open questions of their own.
pub open spec fn reason_for(
    world: Seq<Option<AgentView>>,
    open: Seq<(Seq<char>, RequestView)>,
    agent: AgentView,
) -> Option<WaitReason> {
    if !(agent.state.status is Waiting) {
        None
    } else if agent.awaiting_gate_prompt is Some {
        Some(WaitReason::TaintGate)
    } else if agent.awaiting_interaction_point {
        Some(WaitReason::InteractionPoint)
    } else if agent.fan_out is Some {
        Some(
            WaitReason::FanOutWorkers {
                outstanding: saturated(
                    agent.fan_out->0.active.len() + agent.fan_out->0.pending.len(),
                ) as usize,
            },
        )
    } else if agent.waiting_for_children {
        Some(
            WaitReason::Children {
                outstanding: match agent.children {
                    Some(children) => running_among(world, children.children) as usize,
                    None => 0,
                },
            },
        )
    } else if agent.awaiting_interaction {
        Some(
            if asked_kind(open, agent.state.agent_id, 0) == Some(InteractionKind::ToolApproval) {
                WaitReason::ToolApproval
            } else {
                WaitReason::UserPrompt
            },
        )
    } else {
        None
    }
}

/// The row of a run in the listing.
pub open spec fn row_of(
    world: Seq<Option<AgentView>>,
    open: Seq<(Seq<char>, RequestView)>,
    run_id: Seq<char>,
    agent: AgentView,
) -> RunEntryView {
    let has_output = agent.final_output is Some;
    RunEntryView {
        run_id,
        status: agent.state.status,
        wait_reason: reason_for(world, open, agent),
        stage: agent.state.current_stage,
        stage_index: agent.cursor,
        num_stages: match agent.metadata {
            Some(metadata) => Some(metadata.num_stages),
            None => None,
        },
        iteration: agent.state.iteration,
        tool_calls: match agent.totals {
            Some(totals) => totals.tool_calls,
            None => 0,
        },
        last_progress_at: match agent.watermark {
            Some(watermark) => watermark.last_progress_at,
            None => None,
        },
        unattended: match agent.metadata {
            Some(metadata) => metadata.unattended,
            None => false,
        },
        empty_output: agent.modified_nothing && agent.state.status.terminal() && !has_output,
        read_paths: match agent.metadata {
            Some(metadata) => metadata.read_paths,
            None => None,
        },
        has_final_output: has_output,
    }
}

/// How many of some agents are there and not at their end.
fn count_running(world: &World, children: &Vec<Entity>) -> (n: usize)
    ensures
        n == running_among(world@, children@),
{
    let mut n: usize = 0;
    let mut i: usize = 0;
    proof {
        assert(children@.take(0) =~= Seq::empty());
    }
    while i < children.len()
        invariant
            i <= children@.len(),
            n <= i,
            n == running_among(world@, children@.take(i as int)),
        decreases children.len() - i,
    {
        proof {
            assert(children@.take(i + 1).drop_last() =~= children@.take(i as int));
        }
        if let Some(agent) = world.get(children[i]) {
            if !agent.state.status.is_terminal() {
                n = n + 1;
            }
        }
        i = i + 1;
    }
    proof {
        assert(children@.take(i as int) =~= children@);
    }
    n
}

impl WorldHost {
    /// The kind of the first open question of an agent.
    fn open_kind(&self, agent_id: &str) -> (kind: Option<InteractionKind>)
        ensures
            kind == asked_kind(self@.interactions, agent_id@, 0),
    {
        let mut i: usize = 0;
        while i < self.interactions.open.len()
            invariant
                i <= self.interactions@.len(),
                asked_kind(self.interactions@, agent_id@, 0) == asked_kind(
                    self.interactions@,
                    agent_id@,
                    i as int,
                ),
            decreases self.interactions@.len() - i,
        {
            if same_text(self.interactions.open[i].0.as_str(), agent_id) {
                return Some(self.interactions.open[i].1.kind);
            }
            i = i + 1;
        }
        None
    }

    /// Why an agent waits, if it does.
    fn agent_wait_reason(&self, agent: &Agent) -> (reason: Option<WaitReason>)
        ensures
            reason == reason_for(self@.world, self@.interactions, agent@),
    {
        match &agent.state.status {
            AgentStatus::Waiting => {},
            _ => return None,
        }
        if agent.awaiting_gate_prompt.is_some() {
            return Some(WaitReason::TaintGate);
        }
        if agent.awaiting_interaction_point {
            return Some(WaitReason::InteractionPoint);
        }
        if let Some(fan_out) = &agent.fan_out {
            return Some(WaitReason::FanOutWorkers { outstanding: fan_out.outstanding() });
        }
        if agent.waiting_for_children {
            let outstanding: usize = match &agent.children {
                Some(children) => count_running(&self.world, &children.children),
                None => 0,
            };
            return Some(WaitReason::Children { outstanding });
        }
        if agent.awaiting_interaction {
            return Some(
                match self.open_kind(agent.state.agent_id.as_str()) {
                    Some(InteractionKind::ToolApproval) => WaitReason::ToolApproval,
                    _ => WaitReason::UserPrompt,
                },
            );
        }
        None
    }

    /// Why the agent at a place waits. `None` where it does not, and where nothing
    /// claims to be the reason.
    pub fn wait_reason(&self, entity: Entity) -> (reason: Option<WaitReason>)
        ensures
            reason == match agent_at(self@.world, entity) {
                Some(agent) => reason_for(self@.world, self@.interactions, agent),
                None => None,
            },
    {
        match self.world.get(entity) {
            Some(agent) => self.agent_wait_reason(agent),
            None => None,
        }
    }

    /// The row of a run in the listing.
    pub fn entry_for(&self, run_id: &str, agent: &Agent) -> (row: RunListEntry)
        ensures
            row@ == row_of(self@.world, self@.interactions, run_id@, agent@),
    {
        let has_output = agent.final_output.is_some();
        let (num_stages, unattended, read_paths) = match &agent.metadata {
            Some(metadata) => (Some(metadata.num_stages), metadata.unattended, metadata.read_paths),
            None => (None, false, None),
        };
        RunListEntry {
            run_id: run_id.to_owned(),
            status: agent.state.status.clone(),
            wait_reason: self.agent_wait_reason(agent),
            stage: agent.state.current_stage.clone(),
            stage_index: agent.cursor,
            num_stages,
            iteration: agent.state.iteration,
            tool_calls: match &agent.totals {
                Some(totals) => totals.tool_calls,
                None => 0,
            },
            last_progress_at: match &agent.watermark {
                Some(watermark) => watermark.last_progress_at,
                None => None,
            },
            unattended,
            empty_output: agent.modified_nothing && agent.state.status.is_terminal() && !has_output,
            read_paths,
            has_final_output: has_output,
        }
    }
}

/// The rows of the runs that are in the world.
pub open spec fn live_rows(h: HostView, runs: Seq<(Seq<char>, Entity)>) -> Seq<RunEntryView>
    decreases runs.len(),
{
    if runs.len() == 0 {
        Seq::empty()
    } else {
        let front = live_rows(h, runs.drop_last());
        match agent_at(h.world, runs.last().1) {
            Some(agent) => front.push(row_of(h.world, h.interactions, runs.last().0, agent)),
            None => front,
        }
    }
}

/// The rows of the runs that are paged out.
pub open spec fn parked_rows(h: HostView) -> Seq<RunEntryView> {
    Seq::new(h.parked.len(), |i: int| h.parked[i].1)
}

/// The rows of the runs that were unloaded.
pub open spec fn finished_rows(h: HostView) -> Seq<RunEntryView> {
    Seq::new(h.finished.len(), |i: int| h.finished[i].1)
}

/// The rows of unloaded runs without those of one run.
pub open spec fn without_run(finished: Seq<(i64, RunEntryView)>, run_id: Seq<char>) -> Seq<
    (i64, RunEntryView),
>
    decreases finished.len(),
{
    if finished.len() == 0 {
        Seq::empty()
    } else {
        let front = without_run(finished.drop_last(), run_id);
        if finished.last().1.run_id == run_id {
            front
        } else {
            front.push(finished.last())
        }
    }
}

/// The newest rows, where there are too many.
pub open spec fn newest(finished: Seq<(i64, RunEntryView)>) -> Seq<(i64, RunEntryView)> {
    if finished.len() > MAX_RETAINED_FINISHED {
        finished.skip(finished.len() - MAX_RETAINED_FINISHED)
    } else {
        finished
    }
}

/// The last row of a run that is unloaded: where it never wrote when it moved, the
/// unload is the last thing that happened to it.
pub open spec fn last_row(row: RunEntryView, at: i64) -> RunEntryView {
    RunEntryView {
        last_progress_at: match row.last_progress_at {
            Some(t) => Some(t),
            None => Some(at),
        },
        ..row
    }
}

/// The host after a run is recorded as finished.
pub open spec fn recorded(h: HostView, row: RunEntryView, at: i64) -> HostView {
    if h.finished_retention_secs == 0 {
        h
    } else {
        HostView {
            finished: newest(
                without_run(h.finished, row.run_id).push((at, last_row(row, at))),
            ),
            ..h
        }
    }
}

/// Seconds between two moments, as a machine word holds them.
pub open spec fn age(now: i64, at: i64) -> int {
    if now - at > i64::MAX {
        i64::MAX as int
    } else {
        now - at
    }
}

/// The retention window as a machine word holds it.
pub open spec fn window_of(secs: u64) -> int {
    if secs > i64::MAX {
        i64::MAX as int
    } else {
        secs as int
    }
}

/// The rows left once those at the front that outlived the window are dropped.
pub open spec fn pruned_rows(finished: Seq<(i64, RunEntryView)>, now: i64, window: int) -> Seq<
    (i64, RunEntryView),
>
    decreases finished.len(),
{
    if finished.len() > 0 && age(now, finished[0].0) > window {
        pruned_rows(finished.skip(1), now, window)
    } else {
        finished
    }
}

/// The host once unloaded runs that outlived the window are dropped.
pub open spec fn pruned(h: HostView, now: i64) -> HostView {
    HostView {
        finished: pruned_rows(h.finished, now, window_of(h.finished_retention_secs)),
        ..h
    }
}

impl WorldHost {
    /// Every run the host has, with the context to read its status. Runs that are
    /// paged out keep their last row.
    pub fn list(&self) -> (rows: Vec<RunListEntry>)
        ensures
            entry_views(rows@) == live_rows(self@, self@.by_run_id) + parked_rows(self@),
    {
        let mut rows: Vec<RunListEntry> = Vec::new();
        let ghost runs = self@.by_run_id;
        let mut i: usize = 0;
        proof {
            assert(runs.take(0) =~= Seq::empty());
            assert(entry_views(rows@) =~= Seq::empty());
        }
        while i < self.by_run_id.entries.len()
            invariant
                i <= self.by_run_id.entries@.len(),
                runs == self@.by_run_id,
                runs == self.by_run_id@,
                entry_views(rows@) == live_rows(self@, runs.take(i as int)),
            decreases self.by_run_id.entries.len() - i,
        {
            let ghost before = rows@;
            proof {
                assert(runs.take(i + 1).drop_last() =~= runs.take(i as int));
            }
            let entry = &self.by_run_id.entries[i];
            if let Some(agent) = self.world.get(entry.1) {
                rows.push(self.entry_for(entry.0.as_str(), agent));
                proof {
                    assert(entry_views(rows@) =~= entry_views(before).push(rows@.last()@));
                }
            }
            i = i + 1;
        }
        proof {
            assert(runs.take(i as int) =~= runs);
        }
        let ghost live = entry_views(rows@);
        let mut k: usize = 0;
        proof {
            assert(live =~= live + parked_rows(self@).take(0));
        }
        while k < self.parked.entries.len()
            invariant
                k <= self.parked.entries@.len(),
                entry_views(rows@) == live + parked_rows(self@).take(k as int),
            decreases self.parked.entries.len() - k,
        {
            let ghost before = rows@;
            rows.push(self.parked.entries[k].1.clone());
            proof {
                assert(entry_views(rows@) =~= entry_views(before).push(rows@.last()@));
                assert(parked_rows(self@).take(k + 1) =~= parked_rows(self@).take(k as int).push(
                    parked_rows(self@)[k as int],
                ));
                assert(entry_views(rows@) =~= live + parked_rows(self@).take(k + 1));
            }
            k = k + 1;
        }
        proof {
            assert(parked_rows(self@).take(k as int) =~= parked_rows(self@));
        }
        rows
    }

    /// The runs unloaded recently enough to still be reported, oldest first.
    pub fn finished(&self) -> (rows: Vec<RunListEntry>)
        ensures
            entry_views(rows@) == finished_rows(self@),
    {
        let mut rows: Vec<RunListEntry> = Vec::new();
        let mut i: usize = 0;
        while i < self.finished.len()
            invariant
                i <= self.finished@.len(),
                rows@.len() == i,
                forall|j: int| 0 <= j < i ==> (#[trigger] rows@[j])@ == self.finished@[j].1@,
            decreases self.finished.len() - i,
        {
            rows.push(self.finished[i].1.clone());
            i = i + 1;
        }
        proof {
            assert(entry_views(rows@) =~= finished_rows(self@));
        }
        rows
    }
}

/// Whether more seconds than `window` lie between two moments.
fn outlived(now: i64, at: i64, window: i64) -> (b: bool)
    ensures
        b == (age(now, at) > window),
{
    let between: i128 = now as i128 - at as i128;
    let most: i128 = i64::MAX as i128;
    if between > most {
        most > window as i128
    } else {
        between > window as i128
    }
}

/// The model of a dated row.
pub open spec fn row_view(row: (i64, RunListEntry)) -> (i64, RunEntryView) {
    (row.0, row.1@)
}

/// Takes the oldest row.
fn pop_oldest(finished: &mut VecDeque<(i64, RunListEntry)>) -> (row: Option<(i64, RunListEntry)>)
    ensures
        row is Some <==> old(finished)@.len() > 0,
        row is Some ==> row_view(row->0) == finished_views(old(finished)@)[0],
        row is Some ==> finished_views(final(finished)@) == finished_views(old(finished)@).skip(1),
        row is Some ==> final(finished)@.len() == old(finished)@.len() - 1,
{
    let row = finished.pop_front();
    proof {
        if row is Some {
            assert(finished_views(finished@) =~= finished_views(old(finished)@).skip(1));
        }
    }
    row
}

/// Drops the rows of one run.
fn drop_run(finished: &mut VecDeque<(i64, RunListEntry)>, run_id: &str)
    ensures
        finished_views(final(finished)@) == without_run(finished_views(old(finished)@), run_id@),
{
    let ghost views = finished_views(finished@);
    let total: usize = finished.len();
    let mut kept: VecDeque<(i64, RunListEntry)> = VecDeque::new();
    let mut i: usize = 0;
    proof {
        assert(views.take(0) =~= Seq::empty());
        assert(views.skip(0) =~= views);
        assert(finished_views(kept@) =~= Seq::empty());
    }
    while i < total
        invariant
            i <= total,
            total == views.len(),
            finished_views(finished@) == views.skip(i as int),
            finished_views(kept@) == without_run(views.take(i as int), run_id@),
        decreases total - i,
    {
        let ghost before = kept@;
        proof {
            assert(views.take(i + 1).drop_last() =~= views.take(i as int));
            assert(views.skip(i as int).skip(1) =~= views.skip(i + 1));
        }
        if let Some(row) = pop_oldest(finished) {
            if !same_text(row.1.run_id.as_str(), run_id) {
                kept.push_back(row);
                proof {
                    assert(finished_views(kept@) =~= finished_views(before).push(
                        (row.0, row.1@),
                    ));
                }
            }
        }
        i = i + 1;
    }
    proof {
        assert(views.take(i as int) =~= views);
    }
    *finished = kept;
}

impl WorldHost {
    /// Keeps a row in the listing as that of a run that finished at `at`. A run that
    /// is already there is replaced, so that each is reported once.
    pub fn record_finished(&mut self, row: RunListEntry, at: i64)
        ensures
            final(self)@ == recorded(old(self)@, row@, at),
    {
        if self.finished_retention_secs == 0 {
            return ;
        }
        let ghost before = self@;
        let ghost given = row@;
        let mut row = row;
        if row.last_progress_at.is_none() {
            row.last_progress_at = Some(at);
        }
        drop_run(&mut self.finished, row.run_id.as_str());
        let ghost kept = self.finished@;
        self.finished.push_back((at, row));
        let ghost all = finished_views(kept).push((at, last_row(given, at)));
        proof {
            assert(finished_views(self.finished@) =~= all);
            assert(all.skip(0) =~= all);
        }
        let ghost mut dropped: int = 0;
        while self.finished.len() > MAX_RETAINED_FINISHED
            invariant
                0 <= dropped <= all.len(),
                finished_views(self.finished@) == all.skip(dropped),
                dropped > 0 ==> all.len() - dropped >= MAX_RETAINED_FINISHED,
                self@ == (HostView { finished: all.skip(dropped), ..before }),
            decreases self.finished@.len(),
        {
            let _ = pop_oldest(&mut self.finished);
            proof {
                assert(all.skip(dropped).skip(1) =~= all.skip(dropped + 1));
                dropped = dropped + 1;
            }
        }
        proof {
            assert(all.skip(dropped) =~= newest(all));
        }
    }

    /// Drops unloaded runs that have outlived the retention window.
    pub fn prune_finished(&mut self, now: i64)
        ensures
            final(self)@ == pruned(old(self)@, now),
    {
        let ghost before = self@;
        let window: i64 = if self.finished_retention_secs > i64::MAX as u64 {
            i64::MAX
        } else {
            self.finished_retention_secs as i64
        };
        loop
            invariant
                window == window_of(before.finished_retention_secs),
                self@ == (HostView { finished: self@.finished, ..before }),
                pruned_rows(self@.finished, now, window as int) == pruned_rows(
                    before.finished,
                    now,
                    window as int,
                ),
            ensures
                self@ == pruned(before, now),
            decreases self.finished@.len(),
        {
            if self.finished.len() == 0 {
                break ;
            }
            let at: i64 = self.finished[0].0;
            if !outlived(now, at, window) {
                break ;
            }
            let _ = pop_oldest(&mut self.finished);
        }
    }
}

/// Whether each run has at most one row.
pub open spec fn one_row_each(finished: Seq<(i64, RunEntryView)>) -> bool {
    forall|i: int, j: int|
        0 <= i < j < finished.len() ==> (#[trigger] finished[i]).1.run_id != (
        #[trigger] finished[j]).1.run_id
}

/// Dropping a run's rows leaves the others as they were, in order.
proof fn lemma_without_run(finished: Seq<(i64, RunEntryView)>, run_id: Seq<char>)
    ensures
        without_run(finished, run_id).len() <= finished.len(),
        forall|i: int|
            0 <= i < without_run(finished, run_id).len() ==> (#[trigger] without_run(
                finished,
                run_id,
            )[i]).1.run_id != run_id && finished.contains(without_run(finished, run_id)[i]),
        one_row_each(finished) ==> one_row_each(without_run(finished, run_id)),
        forall|k: int|
            0 <= k < finished.len() && (#[trigger] finished[k]).1.run_id != run_id ==> without_run(
                finished,
                run_id,
            ).contains(finished[k]),
    decreases finished.len(),
{
    if finished.len() > 0 {
        let front = finished.drop_last();
        lemma_without_run(front, run_id);
        let left = without_run(finished, run_id);
        let kept = without_run(front, run_id);
        assert forall|i: int| 0 <= i < left.len() implies (#[trigger] left[i]).1.run_id != run_id
            && finished.contains(left[i]) by {
            if i < kept.len() {
                assert(left[i] == kept[i]);
                let k = choose|k: int| 0 <= k < front.len() && front[k] == kept[i];
                assert(finished[k] == left[i]);
            } else {
                assert(finished[finished.len() - 1] == left[i]);
            }
        }
        if one_row_each(finished) {
            assert forall|i: int, j: int| 0 <= i < j < front.len() implies (
            #[trigger] front[i]).1.run_id != (#[trigger] front[j]).1.run_id by {
                assert(finished[i] == front[i] && finished[j] == front[j]);
            }
            assert forall|i: int, j: int| 0 <= i < j < left.len() implies (
            #[trigger] left[i]).1.run_id != (#[trigger] left[j]).1.run_id by {
                if j < kept.len() {
                    assert(left[i] == kept[i] && left[j] == kept[j]);
                } else {
                    assert(left[i] == kept[i]);
                    let k = choose|k: int| 0 <= k < front.len() && front[k] == kept[i];
                    assert(finished[k] == left[i]);
                }
            }
        }
        assert forall|k: int|
            0 <= k < finished.len() && (#[trigger] finished[k]).1.run_id
                != run_id implies left.contains(finished[k]) by {
            if k < front.len() {
                assert(front[k] == finished[k]);
                let m = choose|m: int| 0 <= m < kept.len() && kept[m] == front[k];
                assert(left[m] == finished[k]);
            } else {
                assert(left[left.len() - 1] == finished[k]);
            }
        }
    }
}

/// However often a run is unloaded it is reported once, and the listing of unloaded
/// runs never grows past its bound. The run recorded last stands last, and every
/// other run that still fits stays.
pub proof fn law_finished_is_bounded_and_unique(h: HostView, row: RunEntryView, at: i64)
    requires
        one_row_each(h.finished),
        h.finished.len() <= MAX_RETAINED_FINISHED,
    ensures
        ({
            let after = recorded(h, row, at).finished;
            &&& one_row_each(after)
            &&& after.len() <= MAX_RETAINED_FINISHED
            &&& h.finished_retention_secs > 0 ==> after.len() > 0 && after.last() == (
                at,
                last_row(row, at),
            )
            &&& h.finished_retention_secs == 0 ==> after == h.finished
        }),
{
    if h.finished_retention_secs > 0 {
        lemma_without_run(h.finished, row.run_id);
        let kept = without_run(h.finished, row.run_id);
        let all = kept.push((at, last_row(row, at)));
        assert forall|i: int, j: int| 0 <= i < j < all.len() implies (#[trigger] all[i]).1.run_id
            != (#[trigger] all[j]).1.run_id by {
            assert(all[i] == kept[i]);
            if j < kept.len() {
                assert(all[j] == kept[j]);
            }
        }
        let after = newest(all);
        assert forall|i: int, j: int| 0 <= i < j < after.len() implies (
        #[trigger] after[i]).1.run_id != (#[trigger] after[j]).1.run_id by {
            let d = all.len() - after.len();
            assert(after[i] == all[i + d] && after[j] == all[j + d]);
        }
    }
}

/// Whether rows stand in the order in which they were recorded.
pub open spec fn oldest_first(finished: Seq<(i64, RunEntryView)>) -> bool {
    forall|i: int, j: int|
        0 <= i < j < finished.len() ==> (#[trigger] finished[i]).0 <= (#[trigger] finished[j]).0
}

/// Pruning drops exactly the rows that outlived the window, where rows stand oldest
/// first, and leaves the others as they were.
pub proof fn law_prune_drops_what_outlived_the_window(
    finished: Seq<(i64, RunEntryView)>,
    now: i64,
    window: int,
)
    requires
        oldest_first(finished),
    ensures
        ({
            let after = pruned_rows(finished, now, window);
            &&& after.len() <= finished.len()
            &&& after == finished.skip(finished.len() - after.len())
            &&& forall|i: int|
                0 <= i < finished.len() ==> (i < finished.len() - after.len() <==> age(
                    now,
                    (#[trigger] finished[i]).0,
                ) > window)
        }),
    decreases finished.len(),
{
    if finished.len() > 0 && age(now, finished[0].0) > window {
        let rest = finished.skip(1);
        assert forall|i: int, j: int| 0 <= i < j < rest.len() implies (#[trigger] rest[i]).0 <= (
        #[trigger] rest[j]).0 by {
            assert(rest[i] == finished[i + 1] && rest[j] == finished[j + 1]);
        }
        law_prune_drops_what_outlived_the_window(rest, now, window);
        let after = pruned_rows(finished, now, window);
        assert(after =~= finished.skip(finished.len() - after.len()));
        assert forall|i: int| 0 <= i < finished.len() implies (i < finished.len() - after.len()
            <==> age(now, (#[trigger] finished[i]).0) > window) by {
            if i > 0 {
                assert(rest[i - 1] == finished[i]);
            }
        }
    } else {
        assert(finished.skip(0) =~= finished);
    }
}

/// A reason for waiting is only ever given for an agent that waits.
pub proof fn law_only_waiting_has_a_reason(
    world: Seq<Option<AgentView>>,
    open: Seq<(Seq<char>, RequestView)>,
    agent: AgentView,
)
    ensures
        reason_for(world, open, agent) is Some ==> agent.state.status is Waiting,
{
}

/// A run that submitted an answer is never reported as having produced nothing, and
/// neither is one that has not stopped.
pub proof fn law_empty_output_means_empty(
    world: Seq<Option<AgentView>>,
    open: Seq<(Seq<char>, RequestView)>,
    run_id: Seq<char>,
    agent: AgentView,
)
    ensures
        row_of(world, open, run_id, agent).empty_output ==> agent.state.status.terminal()
            && agent.final_output is None,
{
}

} // verus!
