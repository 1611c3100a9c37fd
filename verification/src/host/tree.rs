//! The tree of agents below an agent.

use crate::components::Entity;
use crate::world::{agent_at, AgentView, World};
use vstd::prelude::*;

verus! {

/// Whether the agent at one place has the one at another as its child.
pub open spec fn child_of(world: Seq<Option<AgentView>>, parent: Entity, child: Entity) -> bool {
    match agent_at(world, parent) {
        Some(agent) => match agent.children {
            Some(children) => children.children.contains(child),
            None => false,
        },
        None => false,
    }
}

/// Whether each place has the next one as its child.
pub open spec fn is_descent(world: Seq<Option<AgentView>>, path: Seq<Entity>) -> bool {
    &&& path.len() > 0
    &&& forall|i: int|
        0 <= i < path.len() - 1 ==> child_of(world, #[trigger] path[i], path[i + 1])
}

/// Whether a place is `root` or lies below it.
pub open spec fn within(world: Seq<Option<AgentView>>, root: Entity, e: Entity) -> bool {
    exists|path: Seq<Entity>|
        #[trigger] is_descent(world, path) && path[0] == root && path.last() == e
}

/// The root is within its own tree.
pub proof fn lemma_root_within(world: Seq<Option<AgentView>>, root: Entity)
    ensures
        within(world, root, root),
{
    assert(is_descent(world, seq![root]));
}

/// A child of something in the tree is in the tree.
pub proof fn lemma_child_within(
    world: Seq<Option<AgentView>>,
    root: Entity,
    parent: Entity,
    child: Entity,
)
    requires
        within(world, root, parent),
        child_of(world, parent, child),
    ensures
        within(world, root, child),
{
    let path = choose|path: Seq<Entity>|
        #[trigger] is_descent(world, path) && path[0] == root && path.last() == parent;
    let longer = path.push(child);
    assert forall|i: int| 0 <= i < longer.len() - 1 implies child_of(
        world,
        #[trigger] longer[i],
        longer[i + 1],
    ) by {
        if i < path.len() - 1 {
            assert(longer[i] == path[i]);
        }
    }
    assert(is_descent(world, longer));
}

/// Whether the children of a marked place are marked.
pub open spec fn children_marked(
    world: Seq<Option<AgentView>>,
    marks: Seq<bool>,
    e: Entity,
) -> bool {
    forall|c: Entity|
        #[trigger] child_of(world, e, c) && c < marks.len() ==> marks[c as int]
}

/// Where the root is marked and so are the children of everything marked, the whole
/// tree is.
proof fn lemma_closed_marks(
    world: Seq<Option<AgentView>>,
    root: Entity,
    marks: Seq<bool>,
    path: Seq<Entity>,
)
    requires
        marks.len() == world.len(),
        root < marks.len() ==> marks[root as int],
        forall|e: Entity|
            e < marks.len() && marks[e as int] ==> #[trigger] children_marked(world, marks, e),
        is_descent(world, path),
        path[0] == root,
    ensures
        path.last() < marks.len() ==> marks[path.last() as int],
    decreases path.len(),
{
    if path.len() > 1 {
        let front = path.drop_last();
        assert forall|i: int| 0 <= i < front.len() - 1 implies child_of(
            world,
            #[trigger] front[i],
            front[i + 1],
        ) by {
            assert(path[i] == front[i]);
        }
        lemma_closed_marks(world, root, marks, front);
        let parent = front.last();
        assert(path[path.len() - 2] == parent);
        assert(child_of(world, parent, path.last()));
        assert(children_marked(world, marks, parent));
    }
}

/// How many places are not marked.
pub open spec fn unmarked(marks: Seq<bool>) -> nat
    decreases marks.len(),
{
    if marks.len() == 0 {
        0
    } else {
        unmarked(marks.drop_last()) + if marks.last() {
            0nat
        } else {
            1nat
        }
    }
}

/// Marking a place leaves one fewer unmarked.
proof fn lemma_marking(marks: Seq<bool>, i: int)
    requires
        0 <= i < marks.len(),
        !marks[i],
    ensures
        unmarked(marks.update(i, true)) + 1 == unmarked(marks),
    decreases marks.len(),
{
    let after = marks.update(i, true);
    if i == marks.len() - 1 {
        assert(after.drop_last() =~= marks.drop_last());
    } else {
        assert(after.drop_last() =~= marks.drop_last().update(i, true));
        lemma_marking(marks.drop_last(), i);
    }
}

/// No place marked yet.
fn no_marks(n: usize) -> (marks: Vec<bool>)
    ensures
        marks@.len() == n,
        forall|i: int| 0 <= i < n ==> !#[trigger] marks@[i],
{
    let mut marks: Vec<bool> = Vec::new();
    let mut i: usize = 0;
    while i < n
        invariant
            i <= n,
            marks@.len() == i,
            forall|k: int| 0 <= k < i ==> !#[trigger] marks@[k],
        decreases n - i,
    {
        marks.push(false);
        i = i + 1;
    }
    marks
}

/// What holds while a tree is being marked: what is marked is in the tree, and what
/// is marked but not looked at yet stands on the stack.
pub open spec fn marking(
    world: Seq<Option<AgentView>>,
    root: Entity,
    marks: Seq<bool>,
    stack: Seq<Entity>,
) -> bool {
    &&& marks.len() == world.len()
    &&& root < marks.len() ==> marks[root as int]
    &&& forall|e: Entity| e < marks.len() && #[trigger] marks[e as int] ==> within(world, root, e)
    &&& forall|k: int|
        0 <= k < stack.len() ==> (#[trigger] stack[k]) < marks.len() && marks[stack[k] as int]
    &&& forall|e: Entity|
        e < marks.len() && marks[e as int] && !stack.contains(e) ==> #[trigger] children_marked(
            world,
            marks,
            e,
        )
}

/// Marks the tree below an agent: the agent itself and everything that descends from
/// it.
pub fn subtree(world: &World, root: Entity) -> (marks: Vec<bool>)
    ensures
        marks@.len() == world@.len(),
        forall|e: Entity|
            e < world@.len() ==> (#[trigger] marks@[e as int]) == within(world@, root, e),
{
    let ghost w = world@;
    let mut marks = no_marks(world.agents.len());
    let mut stack: Vec<Entity> = Vec::new();
    if root < marks.len() {
        marks[root] = true;
        stack.push(root);
        proof {
            lemma_root_within(w, root);
            assert(stack@[0] == root);
            assert forall|e: Entity| e < marks@.len() && marks@[e as int] && !stack@.contains(
                e,
            ) implies #[trigger] children_marked(w, marks@, e) by {}
        }
    }
    while stack.len() > 0
        invariant
            w == world@,
            world.agents@.len() == w.len(),
            marking(w, root, marks@, stack@),
        decreases unmarked(marks@), stack@.len(),
    {
        let ghost before = stack@;
        let ghost marked = marks@;
        if let Some(e) = stack.pop() {
            proof {
                assert(before.last() == e);
                assert(stack@ =~= before.drop_last());
                assert(before[before.len() - 1] == e);
                assert forall|o: Entity|
                    o < marks@.len() && marks@[o as int] && !stack@.contains(o) && o
                        != e implies #[trigger] children_marked(w, marks@, o) by {
                    assert(!before.contains(o)) by {
                        if before.contains(o) {
                            let k = choose|k: int| 0 <= k < before.len() && before[k] == o;
                            assert(stack@[k] == o);
                        }
                    }
                }
                assert forall|k: int| 0 <= k < stack@.len() implies (#[trigger] stack@[k])
                    < marks@.len() && marks@[stack@[k] as int] by {
                    assert(before[k] == stack@[k]);
                }
            }
            if let Some(agent) = world.get(e) {
                if let Some(children) = &agent.children {
                    let kids = &children.children;
                    let mut j: usize = 0;
                    while j < kids.len()
                        invariant
                            w == world@,
                            world.agents@.len() == w.len(),
                            j <= kids@.len(),
                            e < w.len(),
                            agent_at(w, e) is Some,
                            agent_at(w, e)->0.children is Some,
                            agent_at(w, e)->0.children->0.children == kids@,
                            marks@.len() == w.len(),
                            marks@[e as int],
                            root < marks@.len() ==> marks@[root as int],
                            unmarked(marks@) <= unmarked(marked),
                            unmarked(marks@) == unmarked(marked) ==> stack@.len() + 1
                                == before.len(),
                            forall|o: Entity|
                                o < marks@.len() && #[trigger] marks@[o as int] ==> within(
                                    w,
                                    root,
                                    o,
                                ),
                            forall|k: int|
                                0 <= k < stack@.len() ==> (#[trigger] stack@[k]) < marks@.len()
                                    && marks@[stack@[k] as int],
                            forall|o: Entity|
                                o < marks@.len() && marks@[o as int] && !stack@.contains(o) && o
                                    != e ==> #[trigger] children_marked(w, marks@, o),
                            forall|k: int|
                                0 <= k < j && kids@[k] < marks@.len()
                                    ==> marks@[#[trigger] kids@[k] as int],
                        decreases kids.len() - j,
                    {
                        let c: usize = kids[j];
                        if c < marks.len() && !marks[c] {
                            let ghost m0 = marks@;
                            let ghost s0 = stack@;
                            marks[c] = true;
                            stack.push(c);
                            proof {
                                lemma_marking(m0, c as int);
                                assert(kids@.contains(c));
                                assert(child_of(w, e, c));
                                lemma_child_within(w, root, e, c);
                                assert forall|o: Entity|
                                    o < marks@.len() && marks@[o as int] && !stack@.contains(o)
                                        && o != e implies #[trigger] children_marked(
                                    w,
                                    marks@,
                                    o,
                                ) by {
                                    assert(stack@[stack@.len() - 1] == c);
                                    assert(o != c);
                                    assert(!s0.contains(o)) by {
                                        if s0.contains(o) {
                                            let k = choose|k: int|
                                                0 <= k < s0.len() && s0[k] == o;
                                            assert(stack@[k] == o);
                                        }
                                    }
                                    assert(children_marked(w, m0, o));
                                }
                                assert forall|k: int|
                                    0 <= k < stack@.len() implies (#[trigger] stack@[k])
                                    < marks@.len() && marks@[stack@[k] as int] by {
                                    if k < s0.len() {
                                        assert(s0[k] == stack@[k]);
                                    }
                                }
                            }
                        }
                        j = j + 1;
                    }
                    proof {
                        assert(children_marked(w, marks@, e)) by {
                            assert forall|c: Entity|
                                #[trigger] child_of(w, e, c) && c < marks@.len() implies marks@[c as int] by {
                                let k = choose|k: int| 0 <= k < kids@.len() && kids@[k] == c;
                                assert(marks@[kids@[k] as int]);
                            }
                        }
                    }
                }
            }
            proof {
                assert(children_marked(w, marks@, e));
            }
        }
    }
    proof {
        assert forall|e: Entity| e < w.len() implies (#[trigger] marks@[e as int]) == within(
            w,
            root,
            e,
        ) by {
            assert forall|o: Entity|
                o < marks@.len() && marks@[o as int] implies #[trigger] children_marked(
                w,
                marks@,
                o,
            ) by {
                assert(!stack@.contains(o));
            }
            if within(w, root, e) {
                let path = choose|path: Seq<Entity>|
                    #[trigger] is_descent(w, path) && path[0] == root && path.last() == e;
                lemma_closed_marks(w, root, marks@, path);
            }
        }
    }
    marks
}

} // verus!
