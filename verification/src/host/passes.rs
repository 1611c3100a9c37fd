//! What one pass of reporting does to one run: what it tells of it, and whether it takes it
//! out of the world.

use crate::components::Entity;
use crate::host::events::{
    adopted, all_parked, all_reaped, announced, can_park, changes, context_event, event_if,
    law_unchanged_run_is_silent, looked, no_live_parent, report_events, reported, same_status,
    same_tokens, snapshot, spawned_event, status_event, still_open, tokens_event, unloaded,
    was_terminal, Leaving,
};
use crate::host::laws::{lemma_adopting_alike, lemma_passing};
use crate::host::listing::{
    age, last_row, newest, pruned_rows, row_of, window_of, without_run,
};
use crate::host::sequence::{agent_of, law_pass_reports_an_end_when_due, passes_over, stays_over};
use crate::host::types::{EventView, RunEntryView};
use crate::host::{live, EmittedView, HostView, MAX_RETAINED_FINISHED};
use crate::interaction::RequestView;
use crate::table::{
    lemma_inserted, lemma_name_at, lemma_removed, lookup, name_at, names_unique,
};
use crate::world::{agent_at, AgentView};
use vstd::prelude::*;

verus! {

/// Whether an event tells of a run itself: any but that somebody asked a question.
pub open spec fn tells_of(event: EventView, run_id: Seq<char>) -> bool {
    !(event is Interaction) && event.run() == run_id
}

/// What some events tell of a run, in order.
pub open spec fn news_of(events: Seq<EventView>, run_id: Seq<char>) -> Seq<EventView>
    decreases events.len(),
{
    if events.len() == 0 {
        Seq::empty()
    } else {
        let front = news_of(events.drop_last(), run_id);
        if tells_of(events.last(), run_id) {
            front.push(events.last())
        } else {
            front
        }
    }
}

/// The news in two runs of events together are those of the one and then the other.
proof fn lemma_news_added(a: Seq<EventView>, b: Seq<EventView>, run_id: Seq<char>)
    ensures
        news_of(a + b, run_id) == news_of(a, run_id) + news_of(b, run_id),
    decreases b.len(),
{
    if b.len() == 0 {
        assert(a + b =~= a);
        assert(news_of(a, run_id) + news_of(b, run_id) =~= news_of(a, run_id));
    } else {
        assert((a + b).drop_last() =~= a + b.drop_last());
        lemma_news_added(a, b.drop_last(), run_id);
        assert(news_of(a + b, run_id) =~= news_of(a, run_id) + news_of(b, run_id));
    }
}

/// Events that all tell of a run are its news; events of which none does hold none.
proof fn lemma_news_of_like(events: Seq<EventView>, run_id: Seq<char>, b: bool)
    requires
        forall|i: int| 0 <= i < events.len() ==> tells_of(#[trigger] events[i], run_id) == b,
    ensures
        news_of(events, run_id) == if b {
            events
        } else {
            Seq::empty()
        },
    decreases events.len(),
{
    if events.len() > 0 {
        let front = events.drop_last();
        assert forall|i: int| 0 <= i < front.len() implies tells_of(#[trigger] front[i], run_id)
            == b by {
            assert(events[i] == front[i]);
        }
        lemma_news_of_like(front, run_id, b);
        assert(tells_of(events[events.len() - 1], run_id) == b);
        assert(front.push(events.last()) =~= events);
    }
}

/// What changed of a run is news of that run alone.
proof fn lemma_news_of_changes(
    name: Seq<char>,
    agent: AgentView,
    prev: Option<EmittedView>,
    run_id: Seq<char>,
)
    ensures
        news_of(changes(name, agent, prev), run_id) == if name == run_id {
            changes(name, agent, prev)
        } else {
            Seq::empty()
        },
{
    let all = changes(name, agent, prev);
    assert forall|i: int| 0 <= i < all.len() implies tells_of(#[trigger] all[i], run_id) == (name
        == run_id) by {}
    lemma_news_of_like(all, run_id, name == run_id);
}

/// Reports of questions are news of no run.
proof fn lemma_news_of_questions(
    known: Seq<Seq<char>>,
    open: Seq<(Seq<char>, RequestView)>,
    run_id: Seq<char>,
)
    ensures
        news_of(announced(known, open).1, run_id) == Seq::<EventView>::empty(),
    decreases open.len(),
{
    if open.len() > 0 {
        lemma_news_of_questions(known, open.drop_last(), run_id);
        let before = announced(known, open.drop_last()).1;
        let after = announced(known, open).1;
        if after.len() > before.len() {
            assert(after.drop_last() =~= before);
        }
    }
}

/// The agent of a run among some.
pub open spec fn agent_among(
    h: HostView,
    runs: Seq<(Seq<char>, Entity)>,
    run_id: Seq<char>,
) -> Option<AgentView> {
    match lookup(runs, run_id) {
        Some(e) => agent_at(h.world, e),
        None => None,
    }
}

/// Among the first of some runs, each under its own name, a run is found as it is among all,
/// unless it is the last.
proof fn lemma_front_of_runs(h: HostView, runs: Seq<(Seq<char>, Entity)>, run_id: Seq<char>)
    requires
        names_unique(runs),
        runs.len() > 0,
    ensures
        names_unique(runs.drop_last()),
        lookup(runs, run_id) == if runs.last().0 == run_id {
            Some(runs.last().1)
        } else {
            lookup(runs.drop_last(), run_id)
        },
        runs.last().0 == run_id ==> lookup(runs.drop_last(), run_id) is None,
{
    let front = runs.drop_last();
    assert forall|i: int, j: int| 0 <= i < j < front.len() implies (#[trigger] front[i]).0 != (
    #[trigger] front[j]).0 by {
        assert(runs[i] == front[i] && runs[j] == front[j]);
    }
    lemma_name_at(front, run_id);
    assert(runs[runs.len() - 1] == runs.last());
    if let Some(k) = name_at(front, run_id) {
        assert(runs[k] == front[k]);
    }
}

/// A look at runs, each under its own name, tells of a run among them what changed of it,
/// and of any other nothing.
proof fn lemma_news_of_look(h: HostView, runs: Seq<(Seq<char>, Entity)>, run_id: Seq<char>)
    requires
        names_unique(runs),
    ensures
        news_of(looked(h, runs).events, run_id) == match agent_among(h, runs, run_id) {
            Some(agent) => changes(run_id, agent, lookup(h.emitted, run_id)),
            None => Seq::empty(),
        },
        agent_among(h, runs, run_id) is None ==> lookup(looked(h, runs).emitted, run_id) == lookup(
            h.emitted,
            run_id,
        ),
    decreases runs.len(),
{
    if runs.len() > 0 {
        let front = runs.drop_last();
        let (name, e) = runs.last();
        lemma_front_of_runs(h, runs, run_id);
        lemma_news_of_look(h, front, run_id);
        let p = looked(h, front);
        if let Some(agent) = agent_at(h.world, e) {
            let prev = lookup(p.emitted, name);
            lemma_news_of_changes(name, agent, prev, run_id);
            lemma_news_added(p.events, changes(name, agent, prev), run_id);
            lemma_inserted(p.emitted, name, snapshot(agent), run_id);
            let here = news_of(changes(name, agent, prev), run_id);
            assert(Seq::<EventView>::empty() + here =~= here);
            assert(news_of(p.events, run_id) + Seq::<EventView>::empty() =~= news_of(
                p.events,
                run_id,
            ));
        }
    }
}

/// A pass of reporting tells of a live run exactly what changed of it since it was last
/// reported; nothing, where nothing did. It does so whatever other runs do, and whether or
/// not any of them leaves.
pub proof fn law_pass_tells_exactly_what_changed(h: HostView, run_id: Seq<char>)
    requires
        h.wf(),
        agent_of(h, run_id) is Some,
    ensures
        news_of(report_events(h), run_id) == changes(
            run_id,
            agent_of(h, run_id)->0,
            lookup(h.emitted, run_id),
        ),
        lookup(h.emitted, run_id) == Some(snapshot(agent_of(h, run_id)->0)) ==> news_of(
            report_events(h),
            run_id,
        ) == Seq::<EventView>::empty(),
{
    let known = adopted(h, h.world.len());
    lemma_passing(h);
    let p = looked(known, known.by_run_id);
    lemma_news_of_look(known, known.by_run_id, run_id);
    let ids = if p.to_reap.len() > 0 {
        still_open(h.emitted_interactions, h.interactions)
    } else {
        h.emitted_interactions
    };
    lemma_news_of_questions(ids, h.interactions, run_id);
    lemma_news_added(p.events, announced(ids, h.interactions).1, run_id);
    assert(news_of(report_events(h), run_id) =~= news_of(p.events, run_id));
    law_unchanged_run_is_silent(run_id, agent_of(h, run_id)->0);
}

/// A run that stays registered and looks as it did when the pass before found it is not told
/// of by the next.
pub proof fn law_unchanged_run_is_silent_over_passes(
    hs: Seq<HostView>,
    nows: Seq<i64>,
    run_id: Seq<char>,
    k: int,
)
    requires
        passes_over(hs, nows, run_id),
        0 <= k < hs.len() - 1,
        snapshot(agent_of(hs[k + 1], run_id)->0) == snapshot(agent_of(hs[k], run_id)->0),
    ensures
        news_of(report_events(hs[k + 1]), run_id) == Seq::<EventView>::empty(),
{
    assert(stays_over(hs, nows, k, run_id));
    assert(hs[k].wf() && hs[k + 1].wf());
    law_pass_reports_an_end_when_due(hs[k], nows[k], run_id);
    law_pass_tells_exactly_what_changed(hs[k + 1], run_id);
}

/// Each kind of event about a run is sent exactly when it is due: that it appeared, where
/// there is no last report; its status, tokens or context, where there is none or they differ
/// from it.
pub proof fn law_each_kind_is_sent_when_due(
    run_id: Seq<char>,
    agent: AgentView,
    prev: Option<EmittedView>,
)
    ensures
        ({
            let all = changes(run_id, agent, prev);
            let cur = snapshot(agent);
            &&& all.contains(spawned_event(run_id, agent)) <==> prev is None
            &&& all.contains(status_event(run_id, agent)) <==> prev is None || !same_status(
                prev->0,
                cur,
            )
            &&& all.contains(tokens_event(run_id, agent)) <==> prev is None || !same_tokens(
                prev->0,
                cur,
            )
            &&& all.contains(context_event(run_id, agent)) <==> prev is None
                || prev->0.context_tokens != cur.context_tokens
        }),
{
    let all = changes(run_id, agent, prev);
    let cur = snapshot(agent);
    let a = event_if(prev is None, spawned_event(run_id, agent));
    let b = event_if(
        prev is None || !same_status(prev->0, cur),
        status_event(run_id, agent),
    );
    let c = event_if(
        prev is None || !same_tokens(prev->0, cur),
        tokens_event(run_id, agent),
    );
    if prev is None {
        assert(all[0] == spawned_event(run_id, agent));
    }
    if prev is None || !same_status(prev->0, cur) {
        assert(all[a.len() as int] == status_event(run_id, agent));
    }
    if prev is None || !same_tokens(prev->0, cur) {
        assert(all[(a.len() + b.len()) as int] == tokens_event(run_id, agent));
    }
    if prev is None || prev->0.context_tokens != cur.context_tokens {
        assert(all[(a.len() + b.len() + c.len()) as int] == context_event(run_id, agent));
    }
}

/// The place of a run as a pass of reporting finds it.
pub open spec fn place_of(h: HostView, run_id: Seq<char>) -> Option<Entity> {
    live(adopted(h, h.world.len()), run_id)
}

/// Whether a pass takes a live run out of the world because it is over: it is now, it was
/// when it was last reported, and no parent could still be waiting for it.
pub open spec fn ends_in_pass(h: HostView, run_id: Seq<char>) -> bool {
    let known = adopted(h, h.world.len());
    let agent = agent_of(h, run_id)->0;
    &&& agent.state.status.terminal()
    &&& was_terminal(lookup(h.emitted, run_id))
    &&& no_live_parent(known.world, agent)
}

/// Whether a pass pages a live run out because it is paused and nothing is open for it.
pub open spec fn parks_in_pass(h: HostView, run_id: Seq<char>) -> bool {
    can_park(adopted(h, h.world.len()), agent_of(h, run_id)->0)
}

/// The row of a live run as a pass of reporting finds it.
pub open spec fn row_in_pass(h: HostView, run_id: Seq<char>) -> RunEntryView {
    let known = adopted(h, h.world.len());
    row_of(known.world, known.interactions, run_id, agent_of(h, run_id)->0)
}

/// Whether a run is among those that leave.
pub open spec fn leaves(runs: Seq<Leaving>, run_id: Seq<char>) -> bool {
    exists|i: int| 0 <= i < runs.len() && (#[trigger] runs[i]).0 == run_id
}

/// Whether each run that leaves does so once, with its own row.
pub open spec fn leave_once(runs: Seq<Leaving>) -> bool {
    &&& forall|i: int, j: int|
        0 <= i < j < runs.len() ==> (#[trigger] runs[i]).0 != (#[trigger] runs[j]).0
    &&& forall|i: int| 0 <= i < runs.len() ==> (#[trigger] runs[i]).2.run_id == runs[i].0
}

/// With one more run a list of those that leave has that one too.
proof fn lemma_one_more_leaves(runs: Seq<Leaving>, run: Leaving, run_id: Seq<char>)
    ensures
        leaves(runs.push(run), run_id) <==> leaves(runs, run_id) || run.0 == run_id,
        leave_once(runs) && !leaves(runs, run.0) && run.2.run_id == run.0 ==> leave_once(
            runs.push(run),
        ),
{
    let more = runs.push(run);
    if leaves(runs, run_id) {
        let i = choose|i: int| 0 <= i < runs.len() && (#[trigger] runs[i]).0 == run_id;
        assert(more[i] == runs[i]);
    }
    if run.0 == run_id {
        assert(more[runs.len() as int] == run);
    }
    if leaves(more, run_id) && run.0 != run_id {
        let i = choose|i: int| 0 <= i < more.len() && (#[trigger] more[i]).0 == run_id;
        assert(runs[i] == more[i]);
    }
    if leave_once(runs) && !leaves(runs, run.0) && run.2.run_id == run.0 {
        assert forall|i: int, j: int| 0 <= i < j < more.len() implies (#[trigger] more[i]).0 != (
        #[trigger] more[j]).0 by {
            assert(more[i] == runs[i]);
            if j < runs.len() {
                assert(more[j] == runs[j]);
            }
        }
        assert forall|i: int| 0 <= i < more.len() implies (#[trigger] more[i]).2.run_id
            == more[i].0 by {
            if i < runs.len() {
                assert(more[i] == runs[i]);
            }
        }
    }
}

/// A look at runs, each under its own name, has exactly those leave that are due to, each
/// once and with its place and row.
proof fn lemma_leaving_of_look(h: HostView, runs: Seq<(Seq<char>, Entity)>, run_id: Seq<char>)
    requires
        names_unique(runs),
    ensures
        ({
            let p = looked(h, runs);
            let found = agent_among(h, runs, run_id);
            let run = (
                run_id,
                lookup(runs, run_id)->0,
                row_of(h.world, h.interactions, run_id, found->0),
            );
            &&& leaves(p.to_reap, run_id) <==> found is Some
                && found->0.state.status.terminal() && was_terminal(lookup(h.emitted, run_id))
                && no_live_parent(h.world, found->0)
            &&& leaves(p.to_park, run_id) <==> found is Some && can_park(h, found->0)
            &&& forall|i: int|
                0 <= i < p.to_reap.len() && (#[trigger] p.to_reap[i]).0 == run_id ==> p.to_reap[i]
                    == run
            &&& forall|i: int|
                0 <= i < p.to_park.len() && (#[trigger] p.to_park[i]).0 == run_id ==> p.to_park[i]
                    == run
        }),
    decreases runs.len(),
{
    if runs.len() > 0 {
        let front = runs.drop_last();
        let (name, e) = runs.last();
        lemma_front_of_runs(h, runs, run_id);
        lemma_leaving_of_look(h, front, run_id);
        lemma_news_of_look(h, front, run_id);
        let p = looked(h, front);
        if let Some(agent) = agent_at(h.world, e) {
            let run = (name, e, row_of(h.world, h.interactions, name, agent));
            lemma_one_more_leaves(p.to_reap, run, run_id);
            lemma_one_more_leaves(p.to_park, run, run_id);
            let after = looked(h, runs);
            assert forall|i: int|
                0 <= i < after.to_reap.len() && (#[trigger] after.to_reap[i]).0
                    == run_id implies after.to_reap[i] == (
                run_id,
                lookup(runs, run_id)->0,
                row_of(h.world, h.interactions, run_id, agent_among(h, runs, run_id)->0),
            ) by {
                if i < p.to_reap.len() {
                    assert(p.to_reap[i] == after.to_reap[i]);
                    assert(leaves(p.to_reap, run_id));
                }
            }
            assert forall|i: int|
                0 <= i < after.to_park.len() && (#[trigger] after.to_park[i]).0
                    == run_id implies after.to_park[i] == (
                run_id,
                lookup(runs, run_id)->0,
                row_of(h.world, h.interactions, run_id, agent_among(h, runs, run_id)->0),
            ) by {
                if i < p.to_park.len() {
                    assert(p.to_park[i] == after.to_park[i]);
                    assert(leaves(p.to_park, run_id));
                }
            }
        }
    }
}

/// Of runs that each stand under their own name, those that leave do so once.
proof fn lemma_look_has_each_leave_once(h: HostView, runs: Seq<(Seq<char>, Entity)>)
    requires
        names_unique(runs),
    ensures
        leave_once(looked(h, runs).to_reap),
        leave_once(looked(h, runs).to_park),
    decreases runs.len(),
{
    if runs.len() > 0 {
        let front = runs.drop_last();
        let (name, e) = runs.last();
        lemma_front_of_runs(h, runs, name);
        lemma_look_has_each_leave_once(h, front);
        lemma_leaving_of_look(h, front, name);
        let p = looked(h, front);
        if let Some(agent) = agent_at(h.world, e) {
            let run = (name, e, row_of(h.world, h.interactions, name, agent));
            lemma_one_more_leaves(p.to_reap, run, name);
            lemma_one_more_leaves(p.to_park, run, name);
        }
    }
}

/// A list of runs that leave, without its last.
proof fn lemma_last_leaves(runs: Seq<Leaving>, run_id: Seq<char>)
    requires
        runs.len() > 0,
    ensures
        leaves(runs, run_id) <==> leaves(runs.drop_last(), run_id) || runs.last().0 == run_id,
        leave_once(runs) ==> leave_once(runs.drop_last()) && !leaves(
            runs.drop_last(),
            runs.last().0,
        ),
{
    let front = runs.drop_last();
    assert(front.push(runs.last()) =~= runs);
    lemma_one_more_leaves(front, runs.last(), run_id);
    if leave_once(runs) {
        assert forall|i: int, j: int| 0 <= i < j < front.len() implies (#[trigger] front[i]).0 != (
        #[trigger] front[j]).0 by {
            assert(runs[i] == front[i] && runs[j] == front[j]);
        }
        assert forall|i: int| 0 <= i < front.len() implies (#[trigger] front[i]).2.run_id
            == front[i].0 by {
            assert(runs[i] == front[i]);
        }
        if leaves(front, runs.last().0) {
            let i = choose|i: int|
                0 <= i < front.len() && (#[trigger] front[i]).0 == runs.last().0;
            assert(runs[i] == front[i]);
            assert(runs[runs.len() - 1] == runs.last());
        }
    }
}

/// Runs that leave because they are over are no longer registered, their places are empty,
/// and every other run is registered as it was.
proof fn lemma_reaped_run(h: HostView, runs: Seq<Leaving>, now: i64, run_id: Seq<char>)
    requires
        names_unique(h.by_run_id),
    ensures
        ({
            let after = all_reaped(h, runs, now);
            &&& names_unique(after.by_run_id)
            &&& lookup(after.by_run_id, run_id) == if leaves(runs, run_id) {
                None
            } else {
                lookup(h.by_run_id, run_id)
            }
            &&& after.world.len() == h.world.len()
            &&& after.parked == h.parked
            &&& after.finished_retention_secs == h.finished_retention_secs
            &&& forall|i: int|
                0 <= i < runs.len() ==> agent_at(after.world, (#[trigger] runs[i]).1) is None
            &&& forall|e: Entity|
                agent_at(h.world, e) is None ==> #[trigger] agent_at(after.world, e) is None
        }),
    decreases runs.len(),
{
    if runs.len() > 0 {
        let front = runs.drop_last();
        let last = runs.last();
        let before = all_reaped(h, front, now);
        lemma_reaped_run(h, front, now, run_id);
        lemma_last_leaves(runs, run_id);
        lemma_removed(before.by_run_id, last.0, run_id);
        let after = all_reaped(h, runs, now);
        assert forall|i: int| 0 <= i < runs.len() implies agent_at(
            after.world,
            (#[trigger] runs[i]).1,
        ) is None by {
            if i < front.len() {
                assert(front[i] == runs[i]);
                assert(agent_at(before.world, front[i].1) is None);
            }
        }
        assert forall|e: Entity| agent_at(h.world, e) is None implies #[trigger] agent_at(
            after.world,
            e,
        ) is None by {
            assert(agent_at(before.world, e) is None);
        }
    }
}

/// Runs that are paged out are no longer registered, their places are empty and their rows
/// kept, and every other run is registered as it was.
proof fn lemma_parked_run(h: HostView, runs: Seq<Leaving>, run_id: Seq<char>)
    requires
        names_unique(h.by_run_id),
        leave_once(runs),
    ensures
        ({
            let after = all_parked(h, runs);
            &&& names_unique(after.by_run_id)
            &&& lookup(after.by_run_id, run_id) == if leaves(runs, run_id) {
                None
            } else {
                lookup(h.by_run_id, run_id)
            }
            &&& after.finished == h.finished
            &&& after.finished_retention_secs == h.finished_retention_secs
            &&& forall|i: int|
                0 <= i < runs.len() ==> agent_at(after.world, (#[trigger] runs[i]).1) is None
                    && lookup(after.parked, runs[i].0) == Some(runs[i].2)
            &&& forall|e: Entity|
                agent_at(h.world, e) is None ==> #[trigger] agent_at(after.world, e) is None
        }),
    decreases runs.len(),
{
    if runs.len() > 0 {
        let front = runs.drop_last();
        let last = runs.last();
        let before = all_parked(h, front);
        lemma_last_leaves(runs, run_id);
        lemma_parked_run(h, front, run_id);
        lemma_removed(before.by_run_id, last.0, run_id);
        let out = unloaded(before, last.0, last.1);
        let after = all_parked(h, runs);
        assert forall|i: int| 0 <= i < runs.len() implies agent_at(
            after.world,
            (#[trigger] runs[i]).1,
        ) is None && lookup(after.parked, runs[i].0) == Some(runs[i].2) by {
            lemma_inserted(out.parked, last.0, last.2, runs[i].0);
            if i < front.len() {
                assert(front[i] == runs[i]);
                assert(agent_at(before.world, front[i].1) is None);
                assert(runs[i].0 != runs[runs.len() - 1].0);
            }
        }
        assert forall|e: Entity| agent_at(h.world, e) is None implies #[trigger] agent_at(
            after.world,
            e,
        ) is None by {
            assert(agent_at(before.world, e) is None);
        }
    }
}

/// Dropping a run's rows leaves the last ones in place, where none of them is of that run.
proof fn lemma_tail_stays(finished: Seq<(i64, RunEntryView)>, run_id: Seq<char>, t: nat)
    requires
        t <= finished.len(),
        forall|i: int|
            finished.len() - t <= i < finished.len() ==> (#[trigger] finished[i]).1.run_id
                != run_id,
    ensures
        ({
            let left = without_run(finished, run_id);
            &&& left.len() >= t
            &&& left.skip(left.len() - t) == finished.skip(finished.len() - t)
        }),
    decreases t,
{
    let left = without_run(finished, run_id);
    if t == 0 {
        assert(left.skip(left.len() as int) =~= finished.skip(finished.len() as int));
    } else {
        let front = finished.drop_last();
        assert(finished[finished.len() - 1].1.run_id != run_id);
        assert forall|i: int| front.len() - (t - 1) <= i < front.len() implies (
        #[trigger] front[i]).1.run_id != run_id by {
            assert(finished[i] == front[i]);
        }
        lemma_tail_stays(front, run_id, (t - 1) as nat);
        let kept = without_run(front, run_id);
        assert forall|i: int| 0 <= i < t implies (#[trigger] left.skip(left.len() - t)[i])
            == finished.skip(finished.len() - t)[i] by {
            if i < t - 1 {
                assert(kept.skip(kept.len() - (t - 1))[i] == front.skip(front.len() - (t - 1))[i]);
            }
        }
        assert(left.skip(left.len() - t) =~= finished.skip(finished.len() - t));
    }
}

/// The runs that leave because they are over have the newest rows, in the order in which they
/// leave, as far as rows are kept.
proof fn lemma_newest_rows(h: HostView, runs: Seq<Leaving>, now: i64)
    requires
        h.finished_retention_secs > 0,
        leave_once(runs),
    ensures
        ({
            let after = all_reaped(h, runs, now).finished;
            &&& all_reaped(h, runs, now).finished_retention_secs == h.finished_retention_secs
            &&& after.len() >= runs.len() || after.len() >= MAX_RETAINED_FINISHED
            &&& forall|i: int|
                0 <= i < runs.len() && runs.len() - i <= MAX_RETAINED_FINISHED ==> runs.len() - i
                    <= after.len() && after[after.len() - (runs.len() - i)] == (
                    now,
                    last_row((#[trigger] runs[i]).2, now),
                )
        }),
    decreases runs.len(),
{
    if runs.len() > 0 {
        let front = runs.drop_last();
        let last = runs.last();
        lemma_last_leaves(runs, last.0);
        lemma_newest_rows(h, front, now);
        let out = unloaded(all_reaped(h, front, now), last.0, last.1);
        let before = out.finished;
        let t: nat = if front.len() <= MAX_RETAINED_FINISHED {
            front.len()
        } else {
            MAX_RETAINED_FINISHED as nat
        };
        assert forall|i: int| before.len() - t <= i < before.len() implies (
        #[trigger] before[i]).1.run_id != last.2.run_id by {
            let k = front.len() - (before.len() - i);
            assert(front[k] == runs[k]);
            assert(before[before.len() - (front.len() - k)] == (now, last_row(front[k].2, now)));
            assert(runs[k].0 != runs[runs.len() - 1].0);
            assert(runs[runs.len() - 1].2.run_id == runs[runs.len() - 1].0);
        }
        lemma_tail_stays(before, last.2.run_id, t);
        let left = without_run(before, last.2.run_id);
        let all = left.push((now, last_row(last.2, now)));
        let after = newest(all);
        assert(all_reaped(h, runs, now).finished == after);
        assert forall|i: int|
            0 <= i < runs.len() && runs.len() - i <= MAX_RETAINED_FINISHED implies runs.len() - i
            <= after.len() && after[after.len() - (runs.len() - i)] == (
            now,
            last_row((#[trigger] runs[i]).2, now),
        ) by {
            let d = runs.len() - i;
            assert(d <= all.len());
            assert(after[after.len() - d] == all[all.len() - d]);
            if i < front.len() {
                assert(front[i] == runs[i]);
                let b = front.len() - i;
                assert(b <= t);
                assert(all[all.len() - d] == left[left.len() - b]);
                assert(left.skip(left.len() - t)[t - b] == before.skip(before.len() - t)[t - b]);
                assert(before[before.len() - b] == (now, last_row(front[i].2, now)));
            }
        }
    }
}

/// Pruning drops rows from the front alone, and none that is within the window.
proof fn lemma_pruned_from_the_front(
    finished: Seq<(i64, RunEntryView)>,
    now: i64,
    window: int,
    d: int,
)
    requires
        0 < d <= finished.len(),
        age(now, finished[finished.len() - d].0) <= window,
    ensures
        d <= pruned_rows(finished, now, window).len(),
        pruned_rows(finished, now, window)[pruned_rows(finished, now, window).len() - d]
            == finished[finished.len() - d],
    decreases finished.len(),
{
    if age(now, finished[0].0) > window {
        let rest = finished.skip(1);
        assert(d < finished.len());
        assert(rest[rest.len() - d] == finished[finished.len() - d]);
        lemma_pruned_from_the_front(rest, now, window, d);
    }
}

/// A pass unloads a live run exactly where it is over, was over when it was last reported and
/// no parent could be waiting for it, or where it is paused with nothing open. A run that
/// leaves is no longer registered and its place is empty; one that is over has its last row
/// among the newest, which are those of the runs that leave in this pass, in their order; one
/// that is paused keeps its row. Any other run stays registered where it was, one that waits
/// among them.
pub proof fn law_pass_unloads_exactly_the_settled(h: HostView, now: i64, run_id: Seq<char>)
    requires
        h.wf(),
        agent_of(h, run_id) is Some,
    ensures
        ({
            let known = adopted(h, h.world.len());
            let leaving = looked(known, known.by_run_id).to_reap;
            let after = reported(h, now);
            let e = place_of(h, run_id)->0;
            let ends = ends_in_pass(h, run_id);
            let parks = parks_in_pass(h, run_id);
            &&& lookup(after.by_run_id, run_id) == if ends || parks {
                None
            } else {
                Some(e)
            }
            &&& ends || parks ==> agent_at(after.world, e) is None
            &&& parks ==> lookup(after.parked, run_id) == Some(row_in_pass(h, run_id))
            &&& leaves(leaving, run_id) <==> ends
            &&& ends && h.finished_retention_secs > 0 ==> exists|i: int|
                {
                    &&& 0 <= i < leaving.len()
                    &&& (#[trigger] leaving[i]).0 == run_id
                    &&& leaving.len() - i <= MAX_RETAINED_FINISHED ==> leaving.len() - i
                        <= after.finished.len() && after.finished[after.finished.len() - (
                    leaving.len() - i)] == (now, last_row(row_in_pass(h, run_id), now))
                }
            &&& agent_of(h, run_id)->0.state.status is Waiting ==> !ends && !parks
        }),
{
    let known = adopted(h, h.world.len());
    let runs = known.by_run_id;
    lemma_passing(h);
    lemma_adopting_alike(h, h, h.world.len());
    let p = looked(known, runs);
    lemma_leaving_of_look(known, runs, run_id);
    lemma_look_has_each_leave_once(known, runs);
    let seen = HostView { emitted: p.emitted, ..known };
    let out = all_reaped(seen, p.to_reap, now);
    lemma_reaped_run(seen, p.to_reap, now, run_id);
    let left = all_parked(out, p.to_park);
    lemma_parked_run(out, p.to_park, run_id);
    let after = reported(h, now);
    let e = place_of(h, run_id)->0;
    if ends_in_pass(h, run_id) {
        let i = choose|i: int| 0 <= i < p.to_reap.len() && (#[trigger] p.to_reap[i]).0 == run_id;
        assert(p.to_reap[i] == (run_id, e, row_in_pass(h, run_id)));
        assert(agent_at(out.world, p.to_reap[i].1) is None);
        assert(agent_at(left.world, e) is None);
        if h.finished_retention_secs > 0 {
            lemma_newest_rows(seen, p.to_reap, now);
            let d = p.to_reap.len() - i;
            if d <= MAX_RETAINED_FINISHED {
                lemma_pruned_from_the_front(
                    left.finished,
                    now,
                    window_of(left.finished_retention_secs),
                    d,
                );
            }
        }
    }
    if parks_in_pass(h, run_id) {
        let i = choose|i: int| 0 <= i < p.to_park.len() && (#[trigger] p.to_park[i]).0 == run_id;
        assert(p.to_park[i] == (run_id, e, row_in_pass(h, run_id)));
        assert(agent_at(left.world, p.to_park[i].1) is None);
    }
}

} // verus!
