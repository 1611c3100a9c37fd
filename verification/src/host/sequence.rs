//! What holds over several passes of reporting.

use crate::components::Entity;
use crate::host::events::{
    adopted, all_parked, all_reaped, announced, changes, completed_event, context_event, event_if,
    looked, report_events, reported, same_status, same_tokens, snapshot, spawned_event,
    status_event, still_open, tokens_event, was_terminal, Leaving,
};
use crate::host::laws::{law_look_brings_reports_up_to_date, lemma_passing};
use crate::host::types::EventView;
use crate::host::{live, EmittedView, HostView};
use crate::interaction::RequestView;
use crate::table::{lemma_inserted, lemma_name_at, lemma_removed, lookup, name_at, names_unique};
use crate::world::{agent_at, AgentView};
use vstd::prelude::*;

verus! {

/// The reports among some events that a run is over, in order.
pub open spec fn completions(events: Seq<EventView>, run_id: Seq<char>) -> Seq<EventView>
    decreases events.len(),
{
    if events.len() == 0 {
        Seq::empty()
    } else {
        let front = completions(events.drop_last(), run_id);
        if events.last() is Completed && events.last().run() == run_id {
            front.push(events.last())
        } else {
            front
        }
    }
}

/// The agent of a run as a pass of reporting finds it.
pub open spec fn agent_of(h: HostView, run_id: Seq<char>) -> Option<AgentView> {
    let known = adopted(h, h.world.len());
    match live(known, run_id) {
        Some(e) => agent_at(known.world, e),
        None => None,
    }
}

/// Whether a run stays registered over a pass, and what is reported of it is still so
/// when the next one starts. Whatever else changes in between is left open.
pub open spec fn stays_over(hs: Seq<HostView>, nows: Seq<i64>, k: int, run_id: Seq<char>) -> bool {
    let after = reported(hs[k], nows[k]);
    &&& lookup(after.by_run_id, run_id) is Some
    &&& lookup(hs[k + 1].emitted, run_id) == lookup(after.emitted, run_id)
}

/// Whether passes of reporting start from these hosts, and a run is registered in all of
/// them and stays so from each to the next.
pub open spec fn passes_over(hs: Seq<HostView>, nows: Seq<i64>, run_id: Seq<char>) -> bool {
    &&& hs.len() == nows.len()
    &&& forall|k: int|
        0 <= k < hs.len() ==> (#[trigger] hs[k]).wf() && agent_of(hs[k], run_id) is Some
    &&& forall|k: int| 0 <= k < hs.len() - 1 ==> #[trigger] stays_over(hs, nows, k, run_id)
}

/// The reports of two runs of events together are those of the one and then the other.
proof fn lemma_completions_added(a: Seq<EventView>, b: Seq<EventView>, run_id: Seq<char>)
    ensures
        completions(a + b, run_id) == completions(a, run_id) + completions(b, run_id),
    decreases b.len(),
{
    if b.len() == 0 {
        assert(a + b =~= a);
        assert(completions(a, run_id) + completions(b, run_id) =~= completions(a, run_id));
    } else {
        assert((a + b).drop_last() =~= a + b.drop_last());
        lemma_completions_added(a, b.drop_last(), run_id);
        assert(completions(a + b, run_id) =~= completions(a, run_id) + completions(b, run_id));
    }
}

/// Of no event or one, the report that a run is over is that event or none.
proof fn lemma_completions_of_one(b: bool, event: EventView, run_id: Seq<char>)
    ensures
        completions(event_if(b, event), run_id) == event_if(
            b && event is Completed && event.run() == run_id,
            event,
        ),
{
    let one = event_if(b, event);
    if b {
        reveal_with_fuel(completions, 2);
        assert(one.drop_last() =~= Seq::empty());
        assert(completions(one, run_id) =~= event_if(
            event is Completed && event.run() == run_id,
            event,
        ));
    }
}

/// What changed of a run includes the report that it is over exactly where that is due.
proof fn lemma_completions_of_changes(
    name: Seq<char>,
    agent: AgentView,
    prev: Option<EmittedView>,
    run_id: Seq<char>,
)
    ensures
        completions(changes(name, agent, prev), run_id) == event_if(
            name == run_id && agent.state.status.terminal() && !was_terminal(prev),
            completed_event(name, agent),
        ),
{
    let cur = snapshot(agent);
    let a = event_if(prev is None, spawned_event(name, agent));
    let b = event_if(
        prev is None || !same_status(prev->0, cur),
        status_event(name, agent),
    );
    let c = event_if(
        prev is None || !same_tokens(prev->0, cur),
        tokens_event(name, agent),
    );
    let d = event_if(
        prev is None || prev->0.context_tokens != cur.context_tokens,
        context_event(name, agent),
    );
    let e = event_if(cur.terminal && !was_terminal(prev), completed_event(name, agent));
    lemma_completions_of_one(
        prev is None,
        spawned_event(name, agent),
        run_id,
    );
    lemma_completions_of_one(
        prev is None || !same_status(prev->0, cur),
        status_event(name, agent),
        run_id,
    );
    lemma_completions_of_one(
        prev is None || !same_tokens(prev->0, cur),
        tokens_event(name, agent),
        run_id,
    );
    lemma_completions_of_one(
        prev is None || prev->0.context_tokens != cur.context_tokens,
        context_event(name, agent),
        run_id,
    );
    lemma_completions_of_one(
        cur.terminal && !was_terminal(prev),
        completed_event(name, agent),
        run_id,
    );
    lemma_completions_added(a, b, run_id);
    lemma_completions_added(a + b, c, run_id);
    lemma_completions_added(a + b + c, d, run_id);
    lemma_completions_added(a + b + c + d, e, run_id);
    assert(completions(changes(name, agent, prev), run_id) =~= completions(e, run_id));
}

/// The reports of questions say of no run that it is over.
proof fn lemma_completions_of_questions(
    known: Seq<Seq<char>>,
    open: Seq<(Seq<char>, RequestView)>,
    run_id: Seq<char>,
)
    ensures
        completions(announced(known, open).1, run_id) == Seq::<EventView>::empty(),
    decreases open.len(),
{
    if open.len() > 0 {
        lemma_completions_of_questions(known, open.drop_last(), run_id);
        let before = announced(known, open.drop_last()).1;
        let after = announced(known, open).1;
        if after.len() > before.len() {
            assert(after.drop_last() =~= before);
        }
    }
}

/// A look at runs, each under its own name, reports that a run among them is over where
/// that is due, once; of a run that is not among them it reports nothing.
proof fn lemma_completions_of_look(h: HostView, runs: Seq<(Seq<char>, Entity)>, run_id: Seq<char>)
    requires
        names_unique(runs),
    ensures
        ({
            let found = match lookup(runs, run_id) {
                Some(e) => agent_at(h.world, e),
                None => None,
            };
            &&& found is None ==> lookup(looked(h, runs).emitted, run_id) == lookup(
                h.emitted,
                run_id,
            )
            &&& completions(looked(h, runs).events, run_id) == event_if(
                found is Some && found->0.state.status.terminal() && !was_terminal(
                    lookup(h.emitted, run_id),
                ),
                completed_event(run_id, found->0),
            )
        }),
    decreases runs.len(),
{
    if runs.len() > 0 {
        let front = runs.drop_last();
        let (name, e) = runs.last();
        assert forall|i: int, j: int| 0 <= i < j < front.len() implies (#[trigger] front[i]).0 != (
        #[trigger] front[j]).0 by {
            assert(runs[i] == front[i] && runs[j] == front[j]);
        }
        lemma_completions_of_look(h, front, run_id);
        lemma_name_at(front, run_id);
        let p = looked(h, front);
        if name == run_id && name_at(front, run_id) is Some {
            let i = name_at(front, run_id)->0;
            assert(runs[i] == front[i]);
            assert(runs[runs.len() - 1].0 == name);
            assert(false);
        }
        assert(runs[runs.len() - 1] == runs.last());
        assert(name_at(front, run_id) is Some ==> runs[name_at(front, run_id)->0]
            == front[name_at(front, run_id)->0]);
        if let Some(agent) = agent_at(h.world, e) {
            let prev = lookup(p.emitted, name);
            lemma_completions_of_changes(name, agent, prev, run_id);
            lemma_completions_added(p.events, changes(name, agent, prev), run_id);
            lemma_inserted(p.emitted, name, snapshot(agent), run_id);
            assert(completions(looked(h, runs).events, run_id) =~= completions(p.events, run_id)
                + completions(changes(name, agent, prev), run_id));
        }
    }
}

/// Unloading other runs leaves what is reported of a run that stays registered.
proof fn lemma_stays_reaped(h: HostView, runs: Seq<Leaving>, now: i64, run_id: Seq<char>)
    requires
        names_unique(h.by_run_id),
        names_unique(h.emitted),
    ensures
        ({
            let after = all_reaped(h, runs, now);
            &&& names_unique(after.by_run_id)
            &&& names_unique(after.emitted)
            &&& lookup(after.by_run_id, run_id) is Some ==> lookup(after.emitted, run_id) == lookup(
                h.emitted,
                run_id,
            ) && lookup(h.by_run_id, run_id) is Some
        }),
    decreases runs.len(),
{
    if runs.len() > 0 {
        let last = runs.last();
        let before = all_reaped(h, runs.drop_last(), now);
        lemma_stays_reaped(h, runs.drop_last(), now, run_id);
        lemma_removed(before.by_run_id, last.0, run_id);
        lemma_removed(before.emitted, last.0, run_id);
    }
}

/// Paging out other runs leaves what is reported of a run that stays registered.
proof fn lemma_stays_parked(h: HostView, runs: Seq<Leaving>, run_id: Seq<char>)
    requires
        names_unique(h.by_run_id),
        names_unique(h.emitted),
    ensures
        ({
            let after = all_parked(h, runs);
            &&& names_unique(after.by_run_id)
            &&& names_unique(after.emitted)
            &&& lookup(after.by_run_id, run_id) is Some ==> lookup(after.emitted, run_id) == lookup(
                h.emitted,
                run_id,
            ) && lookup(h.by_run_id, run_id) is Some
        }),
    decreases runs.len(),
{
    if runs.len() > 0 {
        let last = runs.last();
        let before = all_parked(h, runs.drop_last());
        lemma_stays_parked(h, runs.drop_last(), run_id);
        lemma_removed(before.by_run_id, last.0, run_id);
        lemma_removed(before.emitted, last.0, run_id);
    }
}

/// One pass reports that a run is over exactly where it is and the last report said
/// otherwise, and leaves it reported as it is, if the run stays registered.
pub proof fn law_pass_reports_an_end_when_due(h: HostView, now: i64, run_id: Seq<char>)
    requires
        h.wf(),
        agent_of(h, run_id) is Some,
    ensures
        ({
            let agent = agent_of(h, run_id)->0;
            &&& completions(report_events(h), run_id) == event_if(
                agent.state.status.terminal() && !was_terminal(lookup(h.emitted, run_id)),
                completed_event(run_id, agent),
            )
            &&& lookup(reported(h, now).by_run_id, run_id) is Some ==> lookup(
                reported(h, now).emitted,
                run_id,
            ) == Some(snapshot(agent))
        }),
{
    let known = adopted(h, h.world.len());
    let runs = known.by_run_id;
    lemma_passing(h);
    let p = looked(known, runs);
    let agent = agent_of(h, run_id)->0;
    lemma_completions_of_look(known, runs, run_id);
    let ids = if p.to_reap.len() > 0 {
        still_open(h.emitted_interactions, h.interactions)
    } else {
        h.emitted_interactions
    };
    lemma_completions_of_questions(ids, h.interactions, run_id);
    lemma_completions_added(p.events, announced(ids, h.interactions).1, run_id);
    assert(completions(report_events(h), run_id) =~= completions(p.events, run_id));
    law_look_brings_reports_up_to_date(known, runs);
    lemma_name_at(runs, run_id);
    let at = name_at(runs, run_id)->0;
    assert(runs[at].0 == run_id);
    let seen = HostView { emitted: p.emitted, ..known };
    lemma_stays_reaped(seen, p.to_reap, now, run_id);
    lemma_stays_parked(all_reaped(seen, p.to_reap, now), p.to_park, run_id);
}

/// Over any passes of reporting through which a run stays registered, its end is reported
/// exactly once: by the first pass that finds it over, with how it ended and what it
/// handed back at that moment. No pass before that reports it, and none after.
pub proof fn law_end_is_reported_once_over_passes(
    hs: Seq<HostView>,
    nows: Seq<i64>,
    run_id: Seq<char>,
    first: int,
)
    requires
        passes_over(hs, nows, run_id),
        hs.len() > 0 ==> !was_terminal(lookup(hs[0].emitted, run_id)),
        0 <= first,
        forall|k: int|
            0 <= k < hs.len() ==> agent_of(#[trigger] hs[k], run_id)->0.state.status.terminal()
                == (k >= first),
    ensures
        forall|k: int|
            0 <= k < hs.len() ==> completions(report_events(#[trigger] hs[k]), run_id) == event_if(
                k == first,
                completed_event(run_id, agent_of(hs[k], run_id)->0),
            ),
{
    assert forall|k: int| 0 <= k < hs.len() implies completions(
        report_events(#[trigger] hs[k]),
        run_id,
    ) == event_if(
        k == first,
        completed_event(run_id, agent_of(hs[k], run_id)->0),
    ) by {
        law_pass_reports_an_end_when_due(hs[k], nows[k], run_id);
        if k > 0 {
            assert(stays_over(hs, nows, k - 1, run_id));
            law_pass_reports_an_end_when_due(hs[k - 1], nows[k - 1], run_id);
        }
    }
}

} // verus!
