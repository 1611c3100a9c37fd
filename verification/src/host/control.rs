//! Control operations: agents are addressed by run id, and paged in where they have
//! left the world.

use crate::components::Entity;

use crate::host::events::still_open;
use crate::host::tree::{subtree, within};
use crate::host::{live, HostView, WorldHost};
use crate::interaction::{InteractionRequest, RequestView};
use crate::table::{inserted, lookup, modelled, removed};
use crate::text::{same_text, texts};
use crate::world::{agent_at, agent_cancelled, opt_view, Agent, AgentView, World};
use vstd::prelude::*;

verus! {

/// The host after a run is registered.
pub open spec fn registered(h: HostView, run_id: Seq<char>, e: Entity) -> HostView {
    HostView {
        parked: removed(h.parked, run_id),
        by_run_id: inserted(h.by_run_id, run_id, e),
        ..h
    }
}

/// The host after an agent is placed in its world under a run id.
pub open spec fn placed_as(h: HostView, run_id: Seq<char>, agent: AgentView) -> HostView {
    registered(
        HostView { world: h.world.push(Some(agent)), ..h },
        run_id,
        h.world.len() as usize,
    )
}

/// Whether `got` may be what a reloader gives for a run: it is asked only where the
/// run is not in the world.
pub open spec fn reloaded_by<R: Fn(&World, &str) -> Option<Agent>>(
    reloader: Option<&R>,
    h: HostView,
    run_id: Seq<char>,
    got: Option<Agent>,
) -> bool {
    if live(h, run_id) is Some {
        got is None
    } else {
        match reloader {
            None => got is None,
            Some(r) => exists|snapshot: World, text: &str|
                {
                    &&& snapshot@ == h.world
                    &&& text@ == run_id
                    &&& #[trigger] call_ensures(*r, (&snapshot, text), got)
                },
        }
    }
}

/// The host after a run is looked for, given what a reloader gave.
pub open spec fn paged_in(h: HostView, run_id: Seq<char>, got: Option<AgentView>) -> HostView {
    match got {
        Some(agent) => placed_as(h, run_id, agent),
        None => h,
    }
}

/// Where a run is found, given what a reloader gave.
pub open spec fn found_at(h: HostView, run_id: Seq<char>, got: Option<AgentView>) -> Option<
    Entity,
> {
    match got {
        Some(_) => Some(h.world.len() as usize),
        None => live(h, run_id),
    }
}

impl WorldHost {
    /// Records where the agent of a run stands.
    pub fn register(&mut self, run_id: String, entity: Entity)
        ensures
            final(self)@ == registered(old(self)@, run_id@, entity),
    {
        let ghost rows = self.parked@;
        let _ = self.parked.remove(run_id.as_str());
        proof {
            if rows.len() > 0 {
                crate::table::lemma_modelled(rows, run_id@, rows[0].1);
            } else {
                assert(modelled(self.parked@) =~= removed(modelled(rows), run_id@));
            }
        }
        self.by_run_id.insert(run_id, entity);
    }

    /// Places an agent in the world under a run id.
    fn place(&mut self, run_id: &str, agent: Agent) -> (e: Entity)
        ensures
            e == old(self)@.world.len(),
            final(self)@ == placed_as(old(self)@, run_id@, agent@),
    {
        let e: usize = self.world.spawn(agent);
        self.register(run_id.to_owned(), e);
        e
    }

    /// Finds the agent of a run, paging it in where it has left the world. `None`
    /// where the run is neither in the world nor can be paged in.
    pub fn resolve_or_reload<R: Fn(&World, &str) -> Option<Agent>>(
        &mut self,
        run_id: &str,
        reloader: Option<&R>,
    ) -> (found: Option<Entity>)
        requires
            reloader is Some ==> forall|w: &World, text: &str|
                call_requires(*reloader->0, (w, text)),
        ensures
            found is Some ==> agent_at(final(self)@.world, found->0) is Some,
            exists|got: Option<Agent>|
                {
                    &&& #[trigger] reloaded_by(reloader, old(self)@, run_id@, got)
                    &&& final(self)@ == paged_in(old(self)@, run_id@, opt_view(got))
                    &&& found == found_at(old(self)@, run_id@, opt_view(got))
                },
    {
        let ghost h = self@;
        if let Some(e) = self.live_entity(run_id) {
            assert(reloaded_by(reloader, h, run_id@, None::<Agent>));
            return Some(e);
        }
        match reloader {
            None => {
                assert(reloaded_by(reloader, h, run_id@, None::<Agent>));
                None
            },
            Some(reload) => {
                let got = reload(&self.world, run_id);
                assert(reloaded_by(reloader, h, run_id@, got));
                match got {
                    Some(agent) => Some(self.place(run_id, agent)),
                    None => None,
                }
            },
        }
    }
}

/// Whether an agent within a tree has this id.
pub open spec fn id_in_tree(world: Seq<Option<AgentView>>, root: Entity, id: Seq<char>) -> bool {
    exists|e: Entity|
        {
            &&& e < world.len()
            &&& #[trigger] within(world, root, e)
            &&& world[e as int] is Some
            &&& world[e as int]->0.state.agent_id == id
        }
}

/// The open questions that no agent within a tree asked.
pub open spec fn asked_outside(
    open: Seq<(Seq<char>, RequestView)>,
    world: Seq<Option<AgentView>>,
    root: Entity,
) -> Seq<(Seq<char>, RequestView)>
    decreases open.len(),
{
    if open.len() == 0 {
        Seq::empty()
    } else {
        let front = asked_outside(open.drop_last(), world, root);
        if id_in_tree(world, root, open.last().0) {
            front
        } else {
            front.push(open.last())
        }
    }
}

/// The world with every agent within a tree cancelled.
pub open spec fn tree_cancelled(world: Seq<Option<AgentView>>, root: Entity) -> Seq<
    Option<AgentView>,
> {
    Seq::new(
        world.len(),
        |i: int|
            match world[i] {
                Some(agent) => if within(world, root, i as usize) {
                    Some(agent_cancelled(agent))
                } else {
                    Some(agent)
                },
                None => None,
            },
    )
}

/// The host once every agent within a tree is cancelled, and the questions they
/// asked are closed.
pub open spec fn cancelled_below(h: HostView, root: Entity) -> HostView {
    let open = asked_outside(h.interactions, h.world, root);
    HostView {
        world: tree_cancelled(h.world, root),
        interactions: open,
        emitted_interactions: still_open(h.emitted_interactions, open),
        ..h
    }
}

/// The ids of the agents within a tree.
fn tree_ids(world: &World, root: Entity, marks: &Vec<bool>) -> (ids: Vec<String>)
    requires
        marks@.len() == world@.len(),
        forall|e: Entity|
            e < world@.len() ==> (#[trigger] marks@[e as int]) == within(world@, root, e),
    ensures
        forall|id: Seq<char>| #[trigger]
            texts(ids@).contains(id) == id_in_tree(world@, root, id),
{
    let ghost w = world@;
    let mut ids: Vec<String> = Vec::new();
    let mut i: usize = 0;
    while i < world.agents.len()
        invariant
            w == world@,
            i <= w.len(),
            world.agents@.len() == w.len(),
            marks@.len() == w.len(),
            forall|e: Entity| e < w.len() ==> (#[trigger] marks@[e as int]) == within(w, root, e),
            forall|k: int|
                0 <= k < ids@.len() ==> id_in_tree(w, root, #[trigger] texts(ids@)[k]),
            forall|e: Entity|
                e < i && #[trigger] within(w, root, e) && w[e as int] is Some ==> texts(
                    ids@,
                ).contains(w[e as int]->0.state.agent_id),
        decreases w.len() - i,
    {
        let ghost before = texts(ids@);
        if marks[i] {
            assert(within(w, root, i));
            if let Some(agent) = &world.agents[i] {
                ids.push(agent.state.agent_id.clone());
                proof {
                    assert(w[i as int]->0.state.agent_id == agent.state.agent_id@);
                    assert(texts(ids@) =~= before.push(agent.state.agent_id@));
                    assert(id_in_tree(w, root, agent.state.agent_id@));
                    assert forall|k: int| 0 <= k < ids@.len() implies id_in_tree(
                        w,
                        root,
                        #[trigger] texts(ids@)[k],
                    ) by {
                        if k < before.len() {
                            assert(before[k] == texts(ids@)[k]);
                        }
                    }
                    assert forall|e: Entity|
                        e < i + 1 && #[trigger] within(w, root, e) && w[e as int]
                            is Some implies texts(ids@).contains(
                        w[e as int]->0.state.agent_id,
                    ) by {
                        if e < i {
                            let id = w[e as int]->0.state.agent_id;
                            let k = choose|k: int| 0 <= k < before.len() && before[k] == id;
                            assert(texts(ids@)[k] == id);
                        } else {
                            assert(texts(ids@)[before.len() as int] == agent.state.agent_id@);
                        }
                    }
                }
            } else {
                assert(w[i as int] is None);
            }
        } else {
            assert(!within(w, root, i));
        }
        i = i + 1;
    }
    proof {
        assert forall|id: Seq<char>| #[trigger] texts(ids@).contains(id) == id_in_tree(w, root, id) by {
            if id_in_tree(w, root, id) {
                let e = choose|e: Entity|
                    {
                        &&& e < w.len()
                        &&& #[trigger] within(w, root, e)
                        &&& w[e as int] is Some
                        &&& w[e as int]->0.state.agent_id == id
                    };
                assert(texts(ids@).contains(w[e as int]->0.state.agent_id));
            }
        }
    }
    ids
}

impl WorldHost {
    /// Cancels every agent that is marked.
    fn cancel_marked(&mut self, root: Entity, marks: &Vec<bool>)
        requires
            marks@.len() == old(self)@.world.len(),
            forall|e: Entity|
                e < old(self)@.world.len() ==> (#[trigger] marks@[e as int]) == within(
                    old(self)@.world,
                    root,
                    e,
                ),
        ensures
            final(self)@ == (HostView { world: tree_cancelled(old(self)@.world, root), ..old(self)@ }),
    {
        let ghost h = self@;
        let ghost w = h.world;
        let mut i: usize = 0;
        while i < self.world.agents.len()
            invariant
                i <= w.len(),
                self.world@.len() == w.len(),
                marks@.len() == w.len(),
                forall|e: Entity|
                    e < w.len() ==> (#[trigger] marks@[e as int]) == within(w, root, e),
                forall|k: int| 0 <= k < i ==> #[trigger] self.world@[k] == tree_cancelled(w, root)[k],
                forall|k: int| i <= k < w.len() ==> #[trigger] self.world@[k] == w[k],
                self@ == (HostView { world: self.world@, ..h }),
            decreases w.len() - i,
        {
            let ghost here = self.world@;
            assert(here[i as int] == w[i as int]);
            assert(marks@[i as int] == within(w, root, i));
            if marks[i] {
                if let Some(agent) = &mut self.world.agents[i] {
                    agent.cancel();
                }
            }
            proof {
                assert forall|k: int| 0 <= k < w.len() && k != i implies #[trigger] self.world@[k]
                    == here[k] by {}
                assert(self.world@[i as int] == tree_cancelled(w, root)[i as int]);
            }
            i = i + 1;
        }
        proof {
            assert(self.world@ =~= tree_cancelled(w, root));
        }
    }

    /// Closes the questions of some agents, by agent id.
    fn close_questions(&mut self, ids: &Vec<String>, root: Entity)
        requires
            forall|id: Seq<char>| #[trigger]
                texts(ids@).contains(id) == id_in_tree(old(self)@.world, root, id),
        ensures
            final(self)@ == (HostView {
                interactions: asked_outside(
                    old(self)@.interactions,
                    old(self)@.world,
                    root,
                ),
                ..old(self)@
            }),
    {
        let ghost h = self@;
        let mut all: Vec<(String, InteractionRequest)> = Vec::new();
        std::mem::swap(&mut all, &mut self.interactions.open);
        let ghost items = all@;
        let ghost views = h.interactions;
        proof {
            assert(views.take(0) =~= Seq::empty());
            assert(self.interactions@ =~= Seq::empty());
        }
        for item in it: all
            invariant
                it.seq() == items,
                views == crate::interaction::open_views(items),
                views == h.interactions,
                forall|id: Seq<char>| #[trigger]
                    texts(ids@).contains(id) == id_in_tree(h.world, root, id),
                self@ == (HostView {
                    interactions: asked_outside(views.take(it.index() as int), h.world, root),
                    ..h
                }),
        {
            let ghost before = self.interactions@;
            proof {
                let n = it.index() as int;
                assert(views.take(n + 1).drop_last() =~= views.take(n));
                assert(views.take(n + 1).last() == (item.0@, item.1@));
            }
            if !crate::blueprint::names(ids, item.0.as_str()) {
                self.interactions.open.push(item);
                proof {
                    assert(self.interactions@ =~= before.push((item.0@, item.1@)));
                }
            }
        }
        proof {
            assert(views.take(views.len() as int) =~= views);
        }
    }

    /// Cancels the agent at a place and everything below it, and closes the questions
    /// they asked.
    pub fn cancel_below(&mut self, root: Entity)
        ensures
            final(self)@ == cancelled_below(old(self)@, root),
    {
        let marks = subtree(&self.world, root);
        let ids = tree_ids(&self.world, root, &marks);
        self.close_questions(&ids, root);
        self.prune_questions();
        self.cancel_marked(root, &marks);
    }

    /// Cancels a run and every descendant, paging it in first where it has left the
    /// world. Says whether the run was found.
    pub fn cancel_tree<R: Fn(&World, &str) -> Option<Agent>>(
        &mut self,
        run_id: &str,
        reloader: Option<&R>,
    ) -> (found: bool)
        requires
            reloader is Some ==> forall|w: &World, text: &str|
                call_requires(*reloader->0, (w, text)),
        ensures
            exists|got: Option<Agent>|
                {
                    &&& #[trigger] reloaded_by(reloader, old(self)@, run_id@, got)
                    &&& tree_cancel(
                        old(self)@,
                        run_id@,
                        opt_view(got),
                        final(self)@,
                        found,
                    )
                },
    {
        match self.resolve_or_reload(run_id, reloader) {
            Some(root) => {
                self.cancel_below(root);
                true
            },
            None => false,
        }
    }

    /// Whether a run is `ancestor` itself or one of its descendants. Both are paged in
    /// where they have left the world.
    pub fn is_within_tree<R: Fn(&World, &str) -> Option<Agent>>(
        &mut self,
        run_id: &str,
        ancestor: &str,
        reloader: Option<&R>,
    ) -> (b: bool)
        requires
            reloader is Some ==> forall|w: &World, text: &str|
                call_requires(*reloader->0, (w, text)),
        ensures
            within_tree(reloader, old(self)@, run_id@, ancestor@, final(self)@, b),
    {
        let ghost h = self@;
        if same_text(run_id, ancestor) {
            return true;
        }
        let target = self.resolve_or_reload(run_id, reloader);
        let ghost h1 = self@;
        let root = self.resolve_or_reload(ancestor, reloader);
        let b = match (target, root) {
            (Some(e), Some(r)) => {
                let marks = subtree(&self.world, r);
                e < marks.len() && marks[e]
            },
            _ => false,
        };
        proof {
            let got1 = choose|got: Option<Agent>|
                {
                    &&& #[trigger] reloaded_by(reloader, h, run_id@, got)
                    &&& h1 == paged_in(h, run_id@, opt_view(got))
                    &&& target == found_at(h, run_id@, opt_view(got))
                };
            let got2 = choose|got: Option<Agent>|
                {
                    &&& #[trigger] reloaded_by(reloader, h1, ancestor@, got)
                    &&& self@ == paged_in(h1, ancestor@, opt_view(got))
                    &&& root == found_at(h1, ancestor@, opt_view(got))
                };
            if target is Some && root is Some {
                assert(target->0 < self@.world.len());
                assert(b == within(self@.world, root->0, target->0));
            }
            assert(reloaded_by(reloader, h1, ancestor@, got2));
            assert(within_found(reloader, h1, target, ancestor@, self@, b));
            assert(reloaded_by(reloader, h, run_id@, got1));
        }
        b
    }
}

/// Whether a run, looked for and given what a reloader gave, is cancelled with its
/// whole tree where it was found.
pub open spec fn tree_cancel(
    h: HostView,
    run_id: Seq<char>,
    got: Option<AgentView>,
    after: HostView,
    found: bool,
) -> bool {
    let here = paged_in(h, run_id, got);
    match found_at(h, run_id, got) {
        Some(root) => found && after == cancelled_below(here, root),
        None => !found && after == here,
    }
}

/// Whether `b` says if a place is in the tree of a run that is looked for.
pub open spec fn within_found<R: Fn(&World, &str) -> Option<Agent>>(
    reloader: Option<&R>,
    h: HostView,
    target: Option<Entity>,
    ancestor: Seq<char>,
    after: HostView,
    b: bool,
) -> bool {
    exists|got: Option<Agent>|
        {
            &&& #[trigger] reloaded_by(reloader, h, ancestor, got)
            &&& after == paged_in(h, ancestor, opt_view(got))
            &&& b == (target is Some && found_at(h, ancestor, opt_view(got)) is Some && within(
                after.world,
                found_at(h, ancestor, opt_view(got))->0,
                target->0,
            ))
        }
}

/// Whether `b` says if a run is in the tree of another, both being looked for in
/// turn.
pub open spec fn within_tree<R: Fn(&World, &str) -> Option<Agent>>(
    reloader: Option<&R>,
    h: HostView,
    run_id: Seq<char>,
    ancestor: Seq<char>,
    after: HostView,
    b: bool,
) -> bool {
    if run_id == ancestor {
        b && after == h
    } else {
        exists|got: Option<Agent>|
            {
                &&& #[trigger] reloaded_by(reloader, h, run_id, got)
                &&& within_found(
                    reloader,
                    paged_in(h, run_id, opt_view(got)),
                    found_at(h, run_id, opt_view(got)),
                    ancestor,
                    after,
                    b,
                )
            }
    }
}

/// Cancelling reaches the whole tree: every agent in it is over afterwards. Every
/// other agent is as it was.
pub proof fn law_cancel_reaches_exactly_the_tree(h: HostView, root: Entity, e: Entity)
    requires
        e < h.world.len(),
        h.world[e as int] is Some,
    ensures
        ({
            let after = cancelled_below(h, root).world[e as int];
            &&& after is Some
            &&& within(h.world, root, e) ==> after->0.state.status.terminal()
            &&& within(h.world, root, e) && !h.world[e as int]->0.state.status.terminal()
                ==> after->0.state.status is Cancelled
            &&& !within(h.world, root, e) ==> after == h.world[e as int]
        }),
{
}

/// What is left of the open questions is what agents outside the tree asked, all of
/// it.
proof fn lemma_asked_outside(
    open: Seq<(Seq<char>, RequestView)>,
    world: Seq<Option<AgentView>>,
    root: Entity,
)
    ensures
        forall|i: int|
            0 <= i < asked_outside(open, world, root).len() ==> !id_in_tree(
                world,
                root,
                (#[trigger] asked_outside(open, world, root)[i]).0,
            ),
        forall|k: int|
            0 <= k < open.len() && !id_in_tree(world, root, (#[trigger] open[k]).0)
                ==> asked_outside(open, world, root).contains(open[k]),
    decreases open.len(),
{
    if open.len() > 0 {
        let front = open.drop_last();
        lemma_asked_outside(front, world, root);
        let left = asked_outside(open, world, root);
        let kept = asked_outside(front, world, root);
        assert forall|i: int| 0 <= i < left.len() implies !id_in_tree(
            world,
            root,
            (#[trigger] left[i]).0,
        ) by {
            if i < kept.len() {
                assert(left[i] == kept[i]);
            }
        }
        assert forall|k: int|
            0 <= k < open.len() && !id_in_tree(
                world,
                root,
                (#[trigger] open[k]).0,
            ) implies left.contains(open[k]) by {
            if k < front.len() {
                assert(front[k] == open[k]);
                let m = choose|m: int| 0 <= m < kept.len() && kept[m] == front[k];
                assert(left[m] == open[k]);
            } else {
                assert(left[left.len() - 1] == open[k]);
            }
        }
    }
}

/// Nothing is left waiting on a question of a cancelled agent, and every question of
/// an agent outside the tree stays open.
pub proof fn law_cancel_closes_the_trees_questions(h: HostView, root: Entity)
    ensures
        ({
            let open = cancelled_below(h, root).interactions;
            &&& forall|i: int|
                0 <= i < open.len() ==> !id_in_tree(h.world, root, (#[trigger] open[i]).0)
            &&& forall|k: int|
                0 <= k < h.interactions.len() && !id_in_tree(
                    h.world,
                    root,
                    (#[trigger] h.interactions[k]).0,
                ) ==> open.contains(h.interactions[k])
        }),
{
    lemma_asked_outside(h.interactions, h.world, root);
}

/// A run that is registered is found where it stands, and is no longer listed as
/// paged out.
pub proof fn law_registered_run_is_live(h: HostView, run_id: Seq<char>, e: Entity)
    requires
        agent_at(h.world, e) is Some,
        crate::table::names_unique(h.parked),
    ensures
        live(registered(h, run_id, e), run_id) == Some(e),
        lookup(registered(h, run_id, e).parked, run_id) is None,
{
    crate::table::lemma_inserted(h.by_run_id, run_id, e, run_id);
    crate::table::lemma_removed(h.parked, run_id, run_id);
}

/// Registering a run changes where no other run is found.
pub proof fn law_registering_leaves_others(
    h: HostView,
    run_id: Seq<char>,
    e: Entity,
    other: Seq<char>,
)
    requires
        other != run_id,
    ensures
        live(registered(h, run_id, e), other) == live(h, other),
{
    crate::table::lemma_inserted(h.by_run_id, run_id, e, other);
}

/// A run that is paged in is live at once, and the agents that were there stay as
/// they were.
pub proof fn law_paged_in_run_is_live(h: HostView, run_id: Seq<char>, agent: AgentView)
    requires
        h.world.len() < usize::MAX,
    ensures
        ({
            let after = paged_in(h, run_id, Some(agent));
            &&& live(after, run_id) == Some(h.world.len() as usize)
            &&& forall|i: int| 0 <= i < h.world.len() ==> #[trigger] after.world[i] == h.world[i]
        }),
{
    crate::table::lemma_inserted(h.by_run_id, run_id, h.world.len() as usize, run_id);
}

} // verus!
