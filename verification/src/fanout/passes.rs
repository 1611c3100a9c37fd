//! What holds of a whole pass over the parked parents.

use crate::components::Entity;
use crate::fanout::collect::{
    after_starts, attempts_of_pass, driven, item_ids, law_pass_fills_the_free_places,
    law_reaping_keeps_every_item, law_reaping_only_shrinks, law_starting_keeps_every_item, pass,
    place_driven, reaped, resumed, settled, unparked, worker_bound, FanOutSpawner, Started,
};
use crate::fanout::{ActiveWorkerView, FanOutWaitingView};
use crate::world::AgentView;
use vstd::prelude::*;

verus! {

/// Whether two records are of the same agent, and differ at most in whether its result is
/// consumed.
pub open spec fn alike(a: Option<AgentView>, b: Option<AgentView>) -> bool {
    match (a, b) {
        (Some(a), Some(b)) => b == (AgentView { merged_worker: b.merged_worker, ..a }),
        (None, None) => true,
        _ => false,
    }
}

/// Reaping workers changes of every agent at most whether its result is consumed.
proof fn lemma_reaped_alike(
    world: Seq<Option<AgentView>>,
    w: FanOutWaitingView,
    workers: Seq<ActiveWorkerView>,
)
    ensures
        reaped(world, w, workers).0.len() == world.len(),
        forall|i: int|
            0 <= i < world.len() ==> alike(
                world[i],
                #[trigger] reaped(world, w, workers).0[i],
            ),
    decreases workers.len(),
{
    if workers.len() > 0 {
        lemma_reaped_alike(world, w, workers.drop_last());
        let (mid, _) = reaped(world, w, workers.drop_last());
        let after = reaped(world, w, workers).0;
        assert forall|i: int| 0 <= i < world.len() implies alike(world[i], #[trigger] after[i]) by {
            assert(alike(world[i], mid[i]));
        }
    }
}

/// Starting workers below a parent leaves every other agent as it was, and of the parent
/// its status and what it waits for.
proof fn lemma_starts_alike(
    world: Seq<Option<AgentView>>,
    parent: Entity,
    w: FanOutWaitingView,
    attempts: Seq<Started>,
)
    requires
        parent < world.len(),
        world[parent as int] is Some,
    ensures
        ({
            let after = after_starts(world, parent, w, attempts).0;
            &&& after.len() >= world.len()
            &&& after[parent as int] is Some
            &&& after[parent as int]->0.fan_out == world[parent as int]->0.fan_out
            &&& forall|i: int|
                0 <= i < world.len() && i != parent ==> #[trigger] after[i] == world[i]
        }),
    decreases attempts.len(),
{
    if attempts.len() > 0 {
        lemma_starts_alike(world, parent, w, attempts.drop_last());
        let mid = after_starts(world, parent, w, attempts.drop_last()).0;
        let after = after_starts(world, parent, w, attempts).0;
        assert forall|i: int| 0 <= i < world.len() && i != parent implies #[trigger] after[i]
            == world[i] by {
            assert(mid[i] == world[i]);
        }
    }
}

/// Whether a record keeps every item of another, holds no more workers than may run at
/// once or than ran before, and leaves nothing in line while a place is free.
pub open spec fn kept_and_filled(before: FanOutWaitingView, after: FanOutWaitingView) -> bool {
    &&& item_ids(after) == item_ids(before)
    &&& after.active.len() <= worker_bound(before)
    &&& after.max_workers == before.max_workers
    &&& after.pending.len() == 0 || after.active.len() >= after.max_workers
}

/// Whether a parent that waited on a record has come out of a pass: parked again on a
/// record with the same items and its free places filled, or finished, with every item
/// answered or failed.
pub open spec fn came_out(w: FanOutWaitingView, after: Option<AgentView>) -> bool {
    exists|done: FanOutWaitingView, agent: AgentView|
        {
            &&& #[trigger] kept_and_filled(w, done)
            &&& agent.fan_out is None
            &&& alike(Some(#[trigger] resumed(agent, done)), after)
        }
}

/// Driving a parent that waits brings it out with every item kept and its free places
/// filled.
proof fn lemma_driven_parent<S: FanOutSpawner>(
    spawner: Option<&S>,
    world: Seq<Option<AgentView>>,
    parent: Entity,
    after: Seq<Option<AgentView>>,
)
    requires
        parent < world.len(),
        world[parent as int] is Some,
        world[parent as int]->0.fan_out is Some,
        world[parent as int]->0.state.status is Waiting,
        driven(spawner, world, parent, after),
    ensures
        came_out(world[parent as int]->0.fan_out->0, after[parent as int]),
{
    let agent = world[parent as int]->0;
    let w = agent.fan_out->0;
    let taken = world.update(parent as int, Some(unparked(agent)));
    lemma_reaped_alike(taken, w, w.active);
    law_reaping_keeps_every_item(taken, w);
    law_reaping_only_shrinks(taken, w, w.active);
    let (world1, w1) = reaped(taken, w, w.active);
    assert(alike(taken[parent as int], world1[parent as int]));
    let attempts = choose|attempts: Seq<Started>|
        {
            &&& #[trigger] attempts_of_pass(spawner, world1, parent, w1, attempts)
            &&& ({
                let (world2, w2) = after_starts(world1, parent, w1, attempts);
                after == settled(world2, parent, w2)
            })
        };
    lemma_starts_alike(world1, parent, w1, attempts);
    law_starting_keeps_every_item(spawner, world1, parent, w1, attempts);
    law_pass_fills_the_free_places(spawner, world1, parent, w1, attempts);
    let (world2, w2) = after_starts(world1, parent, w1, attempts);
    assert(kept_and_filled(w, w2));
    assert(after[parent as int] == Some(resumed(world2[parent as int]->0, w2)));
}

/// Driving a parent changes of every other agent at most whether its result is consumed.
proof fn lemma_driven_others<S: FanOutSpawner>(
    spawner: Option<&S>,
    world: Seq<Option<AgentView>>,
    parent: Entity,
    after: Seq<Option<AgentView>>,
)
    requires
        parent < world.len(),
        world[parent as int] is Some,
        driven(spawner, world, parent, after),
    ensures
        after.len() >= world.len(),
        forall|i: int|
            0 <= i < world.len() && i != parent ==> alike(world[i], #[trigger] after[i]),
{
    let agent = world[parent as int]->0;
    let w = agent.fan_out->0;
    let taken = world.update(parent as int, Some(unparked(agent)));
    if agent.state.status is Waiting {
        lemma_reaped_alike(taken, w, w.active);
        let (world1, w1) = reaped(taken, w, w.active);
        assert(alike(taken[parent as int], world1[parent as int]));
        let attempts = choose|attempts: Seq<Started>|
            {
                &&& #[trigger] attempts_of_pass(spawner, world1, parent, w1, attempts)
                &&& ({
                    let (world2, w2) = after_starts(world1, parent, w1, attempts);
                    after == settled(world2, parent, w2)
                })
            };
        lemma_starts_alike(world1, parent, w1, attempts);
        let (world2, w2) = after_starts(world1, parent, w1, attempts);
        assert forall|i: int| 0 <= i < world.len() && i != parent implies alike(
            world[i],
            #[trigger] after[i],
        ) by {
            assert(taken[i] == world[i]);
            assert(alike(taken[i], world1[i]));
            assert(world2[i] == world1[i]);
        }
    }
}

/// Passing over other places changes of an agent at most whether its result is consumed.
proof fn lemma_pass_over_others<S: FanOutSpawner>(
    spawner: Option<&S>,
    worlds: Seq<Seq<Option<AgentView>>>,
    from: int,
    to: int,
    i: int,
)
    requires
        pass(spawner, worlds),
        0 <= from <= to < worlds.len(),
        worlds.len() <= usize::MAX,
        0 <= i < worlds[from].len(),
        !(from <= i < to),
    ensures
        worlds[to].len() >= worlds[from].len(),
        alike(worlds[from][i], worlds[to][i]),
    decreases to - from,
{
    if from < to {
        lemma_pass_over_others(spawner, worlds, from, to - 1, i);
        let k = to - 1;
        assert(place_driven(spawner, worlds[k], k, worlds[k + 1]));
        if k < worlds[k].len() && worlds[k][k] is Some && worlds[k][k]->0.fan_out is Some {
            lemma_driven_others(spawner, worlds[k], k as usize, worlds[k + 1]);
            assert(alike(worlds[k][i], worlds[k + 1][i]));
        }
    }
}

/// A pass over the parked parents loses no work item of any of them and invents none: each
/// parent that waits comes out parked on the same items, with no more workers running than
/// may or than ran before and nothing in line while a place is free, or finished with all of
/// them.
pub proof fn law_pass_keeps_items_and_fills_places<S: FanOutSpawner>(
    spawner: Option<&S>,
    worlds: Seq<Seq<Option<AgentView>>>,
    parent: int,
)
    requires
        pass(spawner, worlds),
        worlds.len() == worlds[0].len() + 1,
        worlds.len() <= usize::MAX,
        0 <= parent < worlds[0].len(),
        worlds[0][parent] is Some,
        worlds[0][parent]->0.fan_out is Some,
        worlds[0][parent]->0.state.status is Waiting,
    ensures
        came_out(worlds[0][parent]->0.fan_out->0, worlds.last()[parent]),
{
    let w = worlds[0][parent]->0.fan_out->0;
    lemma_pass_over_others(spawner, worlds, 0, parent, parent);
    assert(place_driven(spawner, worlds[parent], parent, worlds[parent + 1]));
    lemma_driven_parent(spawner, worlds[parent], parent as usize, worlds[parent + 1]);
    lemma_driven_others(spawner, worlds[parent], parent as usize, worlds[parent + 1]);
    let (done, agent) = choose|done: FanOutWaitingView, agent: AgentView|
        {
            &&& #[trigger] kept_and_filled(w, done)
            &&& agent.fan_out is None
            &&& alike(Some(#[trigger] resumed(agent, done)), worlds[parent + 1][parent])
        };
    lemma_pass_over_others(spawner, worlds, parent + 1, worlds.len() - 1, parent);
    assert(kept_and_filled(w, done));
    assert(alike(Some(resumed(agent, done)), worlds.last()[parent]));
}

} // verus!
