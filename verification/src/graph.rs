//! Graph traversal: transition resolution, edge transforms, compaction.

pub mod laws;

use crate::blueprint::{
    names, opt_text, stage_at, Blueprint, EdgeTransform, EdgeTransformView, Stage, StageResult,
    TransitionCondition, TransitionEdge, TransitionEdgeView,
};
use crate::context::{
    public_entry, ContextWindow, EntryKind, EntryKindView, Region, RegionKind, RegionView,
    WindowView,
};
use crate::components::CompactionConfig;
use crate::engine::ProviderRegistry;
use crate::table::{lookup, NameTable};
use crate::text::{
    contains, eq_ignore_ascii_case, join, joined, lowercase_of, message_tokens, occurs_in,
    same_ignoring_ascii_case, texts, tokens_of, trim, trimmed,
};
use vstd::prelude::*;

verus! {

/// Whether any stage of a blueprint names the edges out of it.
pub fn is_graph_mode(blueprint: &Blueprint) -> (b: bool)
    ensures
        b == exists|i: int|
            0 <= i < blueprint.stages@.len() && (#[trigger] blueprint.stages@[i]).transitions
                is Some,
{
    let mut i: usize = 0;
    while i < blueprint.stages.len()
        invariant
            i <= blueprint.stages@.len(),
            forall|j: int| 0 <= j < i ==> (#[trigger] blueprint.stages@[j]).transitions is None,
        decreases blueprint.stages.len() - i,
    {
        if blueprint.stages[i].transitions.is_some() {
            return true;
        }
        i = i + 1;
    }
    false
}

/// An edge and the name it stands under.
pub type NamedEdge = (String, TransitionEdge);

/// The model of a [`NamedEdge`].
pub type NamedEdgeView = (Seq<char>, TransitionEdgeView);

/// The models of several named edges.
pub open spec fn edge_views(edges: Seq<NamedEdge>) -> Seq<NamedEdgeView> {
    Seq::new(edges.len(), |i: int| (edges[i].0@, edges[i].1@))
}

/// How often a stage has been entered.
pub open spec fn visits(counts: Seq<(Seq<char>, usize)>, name: Seq<char>) -> nat {
    match lookup(counts, name) {
        Some(n) => n as nat,
        None => 0,
    }
}

/// Whether the stage an edge stands for is known and may be entered again.
pub open spec fn may_enter(
    stages: Seq<Stage>,
    counts: Seq<(Seq<char>, usize)>,
    name: Seq<char>,
) -> bool {
    match stage_at(stages, name) {
        None => false,
        Some(i) => match stages[i].max_revisits {
            Some(most) => visits(counts, name) <= most,
            None => true,
        },
    }
}

/// The edges whose target may be entered, in order.
pub open spec fn available(
    edges: Seq<NamedEdgeView>,
    stages: Seq<Stage>,
    counts: Seq<(Seq<char>, usize)>,
) -> Seq<NamedEdgeView>
    decreases edges.len(),
{
    if edges.len() == 0 {
        Seq::empty()
    } else {
        let before = available(edges.drop_last(), stages, counts);
        if may_enter(stages, counts, edges.last().0) {
            before.push(edges.last())
        } else {
            before
        }
    }
}

/// Whether a condition leaves the choice of the edge open.
pub open spec fn open_condition(condition: TransitionCondition) -> bool {
    condition == TransitionCondition::Always || condition == TransitionCondition::LlmChoice
}

/// The edges that may be chosen between, in order.
pub open spec fn choosable(edges: Seq<NamedEdgeView>) -> Seq<NamedEdgeView>
    decreases edges.len(),
{
    if edges.len() == 0 {
        Seq::empty()
    } else {
        let before = choosable(edges.drop_last());
        if open_condition(edges.last().1.condition) {
            before.push(edges.last())
        } else {
            before
        }
    }
}

/// The first edge with a condition.
pub open spec fn first_with(
    edges: Seq<NamedEdgeView>,
    condition: TransitionCondition,
) -> Option<TransitionEdgeView>
    decreases edges.len(),
{
    if edges.len() == 0 {
        None
    } else if edges[0].1.condition == condition {
        Some(edges[0].1)
    } else {
        first_with(edges.skip(1), condition)
    }
}

/// The stage an edge leads to: the first one with its target's name, and the
/// first of all where there is none.
pub open spec fn target_index(stages: Seq<Stage>, target: Seq<char>) -> nat {
    match stage_at(stages, target) {
        Some(i) => i as nat,
        None => 0,
    }
}

/// The condition that follows by itself from how a stage ended.
pub open spec fn automatic(result: StageResult) -> Option<TransitionCondition> {
    match result {
        StageResult::Error => Some(TransitionCondition::Error),
        StageResult::MaxIterations => Some(TransitionCondition::MaxIterations),
        StageResult::Success => None,
    }
}

/// What is to be done when a stage has ended.
pub enum TransitionPlan {
    /// Nothing follows.
    Terminal,
    /// This edge is taken, to the stage at `index`.
    Follow { edge: TransitionEdge, index: usize },
    /// The model has to choose between these edges.
    Ask { edges: Vec<NamedEdge> },
}

/// The model of a [`TransitionPlan`].
pub enum TransitionPlanView {
    Terminal,
    Follow { edge: TransitionEdgeView, index: nat },
    Ask { edges: Seq<NamedEdgeView> },
}

impl View for TransitionPlan {
    type V = TransitionPlanView;

    open spec fn view(&self) -> TransitionPlanView {
        match *self {
            TransitionPlan::Terminal => TransitionPlanView::Terminal,
            TransitionPlan::Follow { edge, index } => TransitionPlanView::Follow {
                edge: edge@,
                index: index as nat,
            },
            TransitionPlan::Ask { edges } => TransitionPlanView::Ask {
                edges: edge_views(edges@),
            },
        }
    }
}

/// What follows a stage whose edges are named: the edge that the stage's end
/// calls for by itself; else the only edge there is to choose, unless the stage
/// may also end the run; else the model's choice.
pub open spec fn graph_plan(
    edges: Seq<NamedEdgeView>,
    allow_complete: bool,
    stages: Seq<Stage>,
    counts: Seq<(Seq<char>, usize)>,
    result: StageResult,
) -> TransitionPlanView {
    let open = available(edges, stages, counts);
    let called_for = match automatic(result) {
        Some(condition) => first_with(open, condition),
        None => None,
    };
    let choices = choosable(open);
    match called_for {
        Some(edge) => TransitionPlanView::Follow {
            edge,
            index: target_index(stages, edge.target),
        },
        None => if choices.len() == 0 {
            TransitionPlanView::Terminal
        } else if choices.len() == 1 && !allow_complete {
            TransitionPlanView::Follow {
                edge: choices[0].1,
                index: target_index(stages, choices[0].1.target),
            }
        } else {
            TransitionPlanView::Ask { edges: choices }
        },
    }
}

/// What follows a stage: the next one in line where no edges are named.
pub open spec fn plan(
    stage: Stage,
    stage_idx: nat,
    stages: Seq<Stage>,
    counts: Seq<(Seq<char>, usize)>,
    result: StageResult,
) -> TransitionPlanView {
    match stage.transitions {
        None => if stage_idx + 1 < stages.len() {
            TransitionPlanView::Follow {
                edge: TransitionEdgeView {
                    target: stages[stage_idx as int + 1].name@,
                    condition: TransitionCondition::Always,
                    hint: None,
                    transform: EdgeTransformView::Direct,
                },
                index: stage_idx + 1,
            }
        } else {
            TransitionPlanView::Terminal
        },
        Some(edges) => graph_plan(
            edge_views(edges@),
            stage.allow_complete,
            stages,
            counts,
            result,
        ),
    }
}

/// Whether the stage an edge stands for is known and may be entered again.
fn entry_allowed(blueprint: &Blueprint, visit_counts: &NameTable<usize>, name: &str) -> (b: bool)
    ensures
        b == may_enter(blueprint.stages@, visit_counts@, name@),
{
    match blueprint.stage_index(name) {
        None => false,
        Some(i) => match blueprint.stages[i].max_revisits {
            Some(most) => {
                let seen: usize = match visit_counts.get(name) {
                    Some(n) => *n,
                    None => 0,
                };
                seen <= most
            },
            None => true,
        },
    }
}

/// The stage an edge leads to.
fn index_of_target(blueprint: &Blueprint, edge: &TransitionEdge) -> (index: usize)
    ensures
        index == target_index(blueprint.stages@, edge.target@),
{
    match blueprint.stage_index(edge.target.as_str()) {
        Some(i) => i,
        None => 0,
    }
}

/// Copies of the edges whose target may be entered.
fn available_edges(
    edges: &Vec<NamedEdge>,
    blueprint: &Blueprint,
    visit_counts: &NameTable<usize>,
) -> (out: Vec<NamedEdge>)
    ensures
        edge_views(out@) == available(edge_views(edges@), blueprint.stages@, visit_counts@),
{
    let ghost all = edge_views(edges@);
    let mut out: Vec<NamedEdge> = Vec::new();
    let mut i: usize = 0;
    proof {
        assert(all.take(0) =~= Seq::empty());
        assert(edge_views(out@) =~= Seq::empty());
    }
    while i < edges.len()
        invariant
            i <= edges.len(),
            all == edge_views(edges@),
            edge_views(out@) == available(all.take(i as int), blueprint.stages@, visit_counts@),
        decreases edges.len() - i,
    {
        let ghost before = out@;
        proof {
            assert(all.take(i + 1).drop_last() =~= all.take(i as int));
        }
        if entry_allowed(blueprint, visit_counts, edges[i].0.as_str()) {
            out.push((edges[i].0.clone(), edges[i].1.clone()));
            proof {
                assert(edge_views(out@) =~= edge_views(before).push(all[i as int]));
            }
        }
        i = i + 1;
    }
    proof {
        assert(all.take(i as int) =~= all);
    }
    out
}

/// Copies of the edges that may be chosen between.
fn choosable_edges(edges: &Vec<NamedEdge>) -> (out: Vec<NamedEdge>)
    ensures
        edge_views(out@) == choosable(edge_views(edges@)),
{
    let ghost all = edge_views(edges@);
    let mut out: Vec<NamedEdge> = Vec::new();
    let mut i: usize = 0;
    proof {
        assert(all.take(0) =~= Seq::empty());
        assert(edge_views(out@) =~= Seq::empty());
    }
    while i < edges.len()
        invariant
            i <= edges.len(),
            all == edge_views(edges@),
            edge_views(out@) == choosable(all.take(i as int)),
        decreases edges.len() - i,
    {
        let ghost before = out@;
        proof {
            assert(all.take(i + 1).drop_last() =~= all.take(i as int));
        }
        let condition = edges[i].1.condition;
        if condition == TransitionCondition::Always || condition == TransitionCondition::LlmChoice {
            out.push((edges[i].0.clone(), edges[i].1.clone()));
            proof {
                assert(edge_views(out@) =~= edge_views(before).push(all[i as int]));
            }
        }
        i = i + 1;
    }
    proof {
        assert(all.take(i as int) =~= all);
    }
    out
}

/// The position of the first edge with a condition.
fn position_with(edges: &Vec<NamedEdge>, condition: TransitionCondition) -> (found: Option<usize>)
    ensures
        match found {
            Some(i) => i < edges@.len() && first_with(edge_views(edges@), condition) == Some(
                edges@[i as int].1@,
            ),
            None => first_with(edge_views(edges@), condition) is None,
        },
{
    let ghost all = edge_views(edges@);
    let mut i: usize = 0;
    proof {
        assert(all.skip(0) =~= all);
    }
    while i < edges.len()
        invariant
            i <= edges.len(),
            all == edge_views(edges@),
            first_with(all, condition) == first_with(all.skip(i as int), condition),
        decreases edges.len() - i,
    {
        proof {
            assert(all.skip(i as int).skip(1) =~= all.skip(i + 1));
        }
        if edges[i].1.condition == condition {
            return Some(i);
        }
        i = i + 1;
    }
    None
}

/// Takes stock when a stage has ended: which edge follows, or which edges the
/// model has to choose between.
pub fn plan_transition(
    stage: &Stage,
    stage_idx: usize,
    blueprint: &Blueprint,
    visit_counts: &NameTable<usize>,
    stage_result: StageResult,
) -> (out: TransitionPlan)
    ensures
        out@ == plan(
            *stage,
            stage_idx as nat,
            blueprint.stages@,
            visit_counts@,
            stage_result,
        ),
{
    match &stage.transitions {
        None => {
            if stage_idx < blueprint.stages.len() && stage_idx + 1 < blueprint.stages.len() {
                let target = blueprint.stages[stage_idx + 1].name.clone();
                TransitionPlan::Follow {
                    edge: TransitionEdge {
                        target,
                        condition: TransitionCondition::Always,
                        hint: None,
                        transform: EdgeTransform::Direct,
                    },
                    index: stage_idx + 1,
                }
            } else {
                TransitionPlan::Terminal
            }
        },
        Some(edges) => {
            let open = available_edges(edges, blueprint, visit_counts);
            let called_for = match stage_result {
                StageResult::Error => position_with(&open, TransitionCondition::Error),
                StageResult::MaxIterations => position_with(
                    &open,
                    TransitionCondition::MaxIterations,
                ),
                StageResult::Success => None,
            };
            if let Some(i) = called_for {
                let edge = open[i].1.clone();
                let index: usize = index_of_target(blueprint, &edge);
                return TransitionPlan::Follow { edge, index };
            }
            let choices = choosable_edges(&open);
            proof {
                assert(edge_views(choices@).len() == choices@.len());
                assert(choices@.len() > 0 ==> edge_views(choices@)[0].1 == choices@[0].1@);
            }
            if choices.len() == 0 {
                TransitionPlan::Terminal
            } else if choices.len() == 1 && !stage.allow_complete {
                let edge = choices[0].1.clone();
                let index: usize = index_of_target(blueprint, &edge);
                TransitionPlan::Follow { edge, index }
            } else {
                TransitionPlan::Ask { edges: choices }
            }
        },
    }
}

/// One line of a transition prompt: the edge's name and its hint.
pub open spec fn edge_line(edge: NamedEdgeView) -> Seq<char> {
    match edge.1.hint {
        Some(hint) => "- "@ + edge.0 + ": "@ + hint + "\n"@,
        None => "- "@ + edge.0 + "\n"@,
    }
}

/// The lines of a transition prompt, one for each edge.
pub open spec fn edge_lines(edges: Seq<NamedEdgeView>) -> Seq<char>
    decreases edges.len(),
{
    if edges.len() == 0 {
        Seq::empty()
    } else {
        edge_lines(edges.drop_last()) + edge_line(edges.last())
    }
}

/// What the model is asked when it has to choose an edge: the stage's own prompt
/// or the standing one, the edges, and how to answer.
pub open spec fn transition_question(
    name: Seq<char>,
    custom: Option<Seq<char>>,
    allow_complete: bool,
    edges: Seq<NamedEdgeView>,
) -> Seq<char> {
    match custom {
        Some(own) => own + "\n\nAvailable transitions:\n"@ + edge_lines(edges) + if allow_complete {
            "\nRespond with ONLY the stage name you want to transition to, or ONLY the word DONE if no further stage is needed and the run should end here."@
        } else {
            "\nRespond with ONLY the stage name you want to transition to, nothing else."@
        },
        None => "Stage '"@ + name + "' is complete. Available next stages:\n"@ + edge_lines(edges)
            + if allow_complete {
            "\nWhich stage should run next? Respond with ONLY the stage name, or ONLY the word DONE if no further stage is needed and the run should end here."@
        } else {
            "\nWhich stage should run next? Respond with ONLY the stage name."@
        },
    }
}

/// Appends the line of each edge.
fn append_edge_lines(out: &mut String, edges: &Vec<NamedEdge>)
    ensures
        final(out)@ == old(out)@ + edge_lines(edge_views(edges@)),
{
    let ghost all = edge_views(edges@);
    let ghost start = out@;
    let mut i: usize = 0;
    proof {
        assert(all.take(0) =~= Seq::empty());
        assert(out@ =~= start + edge_lines(all.take(0)));
    }
    while i < edges.len()
        invariant
            i <= edges.len(),
            all == edge_views(edges@),
            out@ == start + edge_lines(all.take(i as int)),
        decreases edges.len() - i,
    {
        let ghost before = out@;
        proof {
            assert(all.take(i + 1).drop_last() =~= all.take(i as int));
        }
        out.append("- ");
        out.append(edges[i].0.as_str());
        if let Some(hint) = &edges[i].1.hint {
            out.append(": ");
            out.append(hint.as_str());
        }
        out.append("\n");
        proof {
            assert(out@ =~= before + edge_line(all[i as int]));
            assert(out@ =~= start + edge_lines(all.take(i + 1)));
        }
        i = i + 1;
    }
    proof {
        assert(all.take(i as int) =~= all);
    }
}

/// What the model is asked when it has to choose an edge.
pub fn transition_prompt(stage: &Stage, edges: &Vec<NamedEdge>) -> (prompt: String)
    ensures
        prompt@ == transition_question(
            stage.name@,
            opt_text(stage.transition_prompt),
            stage.allow_complete,
            edge_views(edges@),
        ),
{
    match &stage.transition_prompt {
        Some(custom) => {
            let mut p = custom.clone();
            p.append("\n\nAvailable transitions:\n");
            append_edge_lines(&mut p, edges);
            if stage.allow_complete {
                p.append(
                    "\nRespond with ONLY the stage name you want to transition to, or ONLY the word DONE if no further stage is needed and the run should end here.",
                );
            } else {
                p.append(
                    "\nRespond with ONLY the stage name you want to transition to, nothing else.",
                );
            }
            p
        },
        None => {
            let mut p = "Stage '".to_owned();
            p.append(stage.name.as_str());
            p.append("' is complete. Available next stages:\n");
            append_edge_lines(&mut p, edges);
            if stage.allow_complete {
                p.append(
                    "\nWhich stage should run next? Respond with ONLY the stage name, or ONLY the word DONE if no further stage is needed and the run should end here.",
                );
            } else {
                p.append("\nWhich stage should run next? Respond with ONLY the stage name.");
            }
            p
        },
    }
}

/// The window with a message of the user's at the end of the conversation.
pub open spec fn with_user_message(w: WindowView, text: Seq<char>) -> WindowView {
    w.offered("conversation"@, public_entry(EntryKindView::UserMessage, text, tokens_of(text) + 1))
}

/// The window with the model's choice of a transition at the end of the
/// conversation.
pub open spec fn with_choice(w: WindowView, choice: Seq<char>) -> WindowView {
    w.offered(
        "conversation"@,
        public_entry(
            EntryKindView::AssistantTurn { tool_calls: Seq::empty() },
            "Transitioning to: "@ + choice,
            tokens_of(choice) + 1,
        ),
    )
}

/// The most tokens that the model's answer to a transition prompt may take.
pub const TRANSITION_ANSWER_TOKENS: usize = 256;

/// Puts the transition prompt into the conversation and says how long the
/// answer may be: what is left of the window, and never more than a short
/// response needs. Nothing is to be asked where the provider is not registered or
/// there is no window.
pub fn ask_transition<P>(
    stage: &Stage,
    edges: &Vec<NamedEdge>,
    registry: &ProviderRegistry<P>,
    provider_name: &str,
    window: &mut Option<ContextWindow>,
) -> (max_tokens: Option<usize>)
    ensures
        match (*old(window), *final(window)) {
            (Some(before), Some(after)) => after@ == with_user_message(
                before@,
                transition_question(
                    stage.name@,
                    opt_text(stage.transition_prompt),
                    stage.allow_complete,
                    edge_views(edges@),
                ),
            ),
            (None, None) => true,
            _ => false,
        },
        match max_tokens {
            Some(n) => {
                &&& lookup(registry.providers@, provider_name@) is Some
                &&& *final(window) is Some
                &&& n == answer_budget(final(window)->0@)
            },
            None => lookup(registry.providers@, provider_name@) is None || *old(window) is None,
        },
{
    match window {
        None => None,
        Some(w) => {
            let prompt = transition_prompt(stage, edges);
            let tokens: usize = message_tokens(prompt.as_str());
            let _ = w.add_typed_entry("conversation", EntryKind::UserMessage, prompt, tokens);
            if !registry.has(provider_name) {
                return None;
            }
            let remaining: usize = w.max_tokens.saturating_sub(w.current_tokens);
            if remaining < TRANSITION_ANSWER_TOKENS {
                Some(remaining)
            } else {
                Some(TRANSITION_ANSWER_TOKENS)
            }
        },
    }
}

/// How long the answer to a transition prompt may be.
pub open spec fn answer_budget(w: WindowView) -> nat {
    if w.current_tokens + TRANSITION_ANSWER_TOKENS <= w.max_tokens {
        TRANSITION_ANSWER_TOKENS as nat
    } else if w.current_tokens <= w.max_tokens {
        (w.max_tokens - w.current_tokens) as nat
    } else {
        0
    }
}

/// The first edge, at or after `from`, that the choice names: its name in any
/// case of its ASCII letters, or its name somewhere in the choice.
pub open spec fn named_by(choice: Seq<char>, edges: Seq<NamedEdgeView>, from: int) -> Option<int>
    decreases edges.len() - from,
{
    if from < 0 || from >= edges.len() {
        None
    } else if same_ignoring_ascii_case(choice, edges[from].0) || occurs_in(choice, edges[from].0) {
        Some(from)
    } else {
        named_by(choice, edges, from + 1)
    }
}

/// The first of some names, at or after `from`, that stands somewhere in the
/// choice.
pub open spec fn mentioned_in(choice: Seq<char>, names: Seq<Seq<char>>, from: int) -> Option<int>
    decreases names.len() - from,
{
    if from < 0 || from >= names.len() {
        None
    } else if occurs_in(choice, names[from]) {
        Some(from)
    } else {
        mentioned_in(choice, names, from + 1)
    }
}

/// The edge that a choice stands for. A stage that may end the run takes `DONE`
/// for no edge at all. Else an edge that is named, else one whose lower-case name
/// stands in the lower-case choice, else the first edge.
pub open spec fn picked(
    allow_complete: bool,
    choice: Seq<char>,
    lower_choice: Seq<char>,
    edges: Seq<NamedEdgeView>,
    lower_names: Seq<Seq<char>>,
) -> Option<TransitionEdgeView> {
    if allow_complete && same_ignoring_ascii_case(choice, "done"@) {
        None
    } else {
        match named_by(choice, edges, 0) {
            Some(i) => Some(edges[i].1),
            None => match mentioned_in(lower_choice, lower_names, 0) {
                Some(i) => Some(edges[i].1),
                None => if edges.len() > 0 {
                    Some(edges[0].1)
                } else {
                    None
                },
            },
        }
    }
}

/// Whether an exec edge is the modelled one.
pub open spec fn edge_outcome(
    got: Option<TransitionEdge>,
    want: Option<TransitionEdgeView>,
) -> bool {
    match (got, want) {
        (Some(edge), Some(view)) => edge@ == view,
        (None, None) => true,
        _ => false,
    }
}

/// The edge that a choice stands for, given the choice and the edges' names in
/// lower case too.
pub fn pick_edge(
    allow_complete: bool,
    edges: &Vec<NamedEdge>,
    choice: &str,
    lower_choice: &str,
    lower_names: &Vec<String>,
) -> (edge: Option<TransitionEdge>)
    requires
        lower_names@.len() == edges@.len(),
    ensures
        edge_outcome(
            edge,
            picked(allow_complete, choice@, lower_choice@, edge_views(edges@), texts(lower_names@)),
        ),
{
    let ghost all = edge_views(edges@);
    let ghost lower = texts(lower_names@);
    if allow_complete && eq_ignore_ascii_case(choice, "done") {
        return None;
    }
    let mut i: usize = 0;
    while i < edges.len()
        invariant
            i <= edges.len(),
            all == edge_views(edges@),
            all.len() == edges@.len(),
            named_by(choice@, all, 0) == named_by(choice@, all, i as int),
            !(allow_complete && same_ignoring_ascii_case(choice@, "done"@)),
        decreases edges.len() - i,
    {
        let name = edges[i].0.as_str();
        if eq_ignore_ascii_case(choice, name) || contains(choice, name) {
            return Some(edges[i].1.clone());
        }
        i = i + 1;
    }
    let mut k: usize = 0;
    while k < edges.len()
        invariant
            k <= edges.len(),
            all == edge_views(edges@),
            all.len() == edges@.len(),
            lower == texts(lower_names@),
            lower.len() == edges@.len(),
            lower_names@.len() == edges@.len(),
            named_by(choice@, all, 0) is None,
            mentioned_in(lower_choice@, lower, 0) == mentioned_in(lower_choice@, lower, k as int),
            !(allow_complete && same_ignoring_ascii_case(choice@, "done"@)),
        decreases edges.len() - k,
    {
        if contains(lower_choice, lower_names[k].as_str()) {
            return Some(edges[k].1.clone());
        }
        k = k + 1;
    }
    if edges.len() > 0 {
        Some(edges[0].1.clone())
    } else {
        None
    }
}

/// The names of some edges in lower case.
pub open spec fn lowered(edges: Seq<NamedEdgeView>) -> Seq<Seq<char>> {
    Seq::new(edges.len(), |i: int| lowercase_of(edges[i].0))
}

/// The edge that a model's answer to a transition prompt stands for.
pub open spec fn answered(
    allow_complete: bool,
    edges: Seq<NamedEdgeView>,
    response: Seq<char>,
) -> Option<TransitionEdgeView> {
    let choice = trimmed(response);
    picked(allow_complete, choice, lowercase_of(choice), edges, lowered(edges))
}

/// The edge that a model's answer to a transition prompt stands for.
pub fn match_answer(stage: &Stage, edges: &Vec<NamedEdge>, response: &str) -> (edge: Option<
    TransitionEdge,
>)
    ensures
        edge_outcome(edge, answered(stage.allow_complete, edge_views(edges@), response@)),
{
    let choice = trim(response);
    let mut lower_names: Vec<String> = Vec::new();
    let mut i: usize = 0;
    while i < edges.len()
        invariant
            i <= edges.len(),
            lower_names.len() == i,
            forall|j: int|
                0 <= j < i ==> (#[trigger] lower_names@[j])@ == lowercase_of(edges@[j].0@),
        decreases edges.len() - i,
    {
        lower_names.push(edges[i].0.as_str().to_lowercase());
        i = i + 1;
    }
    proof {
        assert(texts(lower_names@) =~= lowered(edge_views(edges@)));
    }
    let lower_choice = choice.to_lowercase();
    pick_edge(stage.allow_complete, edges, choice, lower_choice.as_str(), &lower_names)
}

/// Records the model's answer in the conversation and finds the edge it stands
/// for.
pub fn prompt_llm_transition(
    stage: &Stage,
    edges: &Vec<NamedEdge>,
    window: &mut ContextWindow,
    response: &str,
) -> (edge: Option<TransitionEdge>)
    ensures
        final(window)@ == with_choice(old(window)@, trimmed(response@)),
        edge_outcome(edge, answered(stage.allow_complete, edge_views(edges@), response@)),
{
    let choice = trim(response);
    let tokens: usize = message_tokens(choice);
    let mut line = "Transitioning to: ".to_owned();
    line.append(choice);
    let turn = EntryKind::AssistantTurn { tool_calls: Vec::new() };
    proof {
        assert(turn@->tool_calls =~= Seq::empty());
    }
    let _ = window.add_typed_entry("conversation", turn, line, tokens);
    match_answer(stage, edges, response)
}

/// Where a run goes after a stage: the planned edge, or the one that the model's
/// answer stands for. Without an answer to a question that was put, nothing
/// follows.
pub open spec fn resolved(
    decided: TransitionPlanView,
    allow_complete: bool,
    stages: Seq<Stage>,
    answer: Option<Seq<char>>,
) -> Option<(TransitionEdgeView, nat)> {
    match decided {
        TransitionPlanView::Terminal => None,
        TransitionPlanView::Follow { edge, index } => Some((edge, index)),
        TransitionPlanView::Ask { edges } => match answer {
            None => None,
            Some(response) => match answered(allow_complete, edges, response) {
                Some(edge) => Some((edge, target_index(stages, edge.target))),
                None => None,
            },
        },
    }
}

/// Resolves the transition from a stage. `answer` is what the model replied to
/// the transition prompt; it is read only where the plan calls for a choice.
pub fn resolve_transition(
    stage: &Stage,
    stage_idx: usize,
    blueprint: &Blueprint,
    visit_counts: &NameTable<usize>,
    stage_result: StageResult,
    answer: Option<&str>,
) -> (next: Option<(TransitionEdge, usize)>)
    ensures
        match (
            next,
            resolved(
                plan(
                    *stage,
                    stage_idx as nat,
                    blueprint.stages@,
                    visit_counts@,
                    stage_result,
                ),
                stage.allow_complete,
                blueprint.stages@,
                match answer {
                    Some(text) => Some(text@),
                    None => None,
                },
            ),
        ) {
            (Some(got), Some(want)) => got.0@ == want.0 && got.1 == want.1,
            (None, None) => true,
            _ => false,
        },
{
    match plan_transition(stage, stage_idx, blueprint, visit_counts, stage_result) {
        TransitionPlan::Terminal => None,
        TransitionPlan::Follow { edge, index } => Some((edge, index)),
        TransitionPlan::Ask { edges } => match answer {
            None => None,
            Some(response) => match match_answer(stage, &edges, response) {
                Some(edge) => {
                    let index: usize = index_of_target(blueprint, &edge);
                    Some((edge, index))
                },
                None => None,
            },
        },
    }
}

/// The window with the regions that a rule picks out cleared. The token count is
/// left as it was.
pub open spec fn clearing(w: WindowView, rule: spec_fn(RegionView) -> bool) -> WindowView {
    WindowView {
        regions: Seq::new(
            w.regions.len(),
            |i: int|
                if rule(w.regions[i]) {
                    w.regions[i].cleared()
                } else {
                    w.regions[i]
                },
        ),
        ..w
    }
}

/// Whether a region is kept when the context is cleared between stages.
pub open spec fn survives_clear(kind: RegionKind) -> bool {
    kind is Pinned || kind is CompactHistory || kind is HashMap
}

/// Whether a region is of a kind that a compaction takes in.
pub open spec fn compactable(kind: RegionKind) -> bool {
    kind is SlidingWindow || kind is Compacting || kind is Temporary || kind is Clearable
}

/// Whether a region is summarized and cleared by a compaction: never where it is
/// protected; else by name where names are given, and by kind where none are.
pub open spec fn compact_target(
    region: RegionView,
    only: Option<Seq<Seq<char>>>,
    protect: Seq<Seq<char>>,
) -> bool {
    !protect.contains(region.name) && match only {
        Some(listed) => listed.contains(region.name),
        None => compactable(region.kind),
    }
}

/// The names of an optional list.
pub open spec fn opt_names(list: Option<Vec<String>>) -> Option<Seq<Seq<char>>> {
    match list {
        Some(listed) => Some(texts(listed@)),
        None => None,
    }
}

/// Whether `region` should be summarized and cleared by a compact transform.
pub fn region_is_compact_target(
    region: &Region,
    only: &Option<Vec<String>>,
    protect: &Vec<String>,
) -> (b: bool)
    ensures
        b == compact_target(region@, opt_names(*only), texts(protect@)),
{
    if names(protect, region.name.as_str()) {
        return false;
    }
    match only {
        Some(listed) => names(listed, region.name.as_str()),
        None => match &region.kind {
            RegionKind::SlidingWindow { .. } => true,
            RegionKind::Compacting { .. } => true,
            RegionKind::Temporary => true,
            RegionKind::Clearable => true,
            _ => false,
        },
    }
}

/// Clears the regions that are marked.
fn clear_marked(window: &mut ContextWindow, marks: &Vec<bool>)
    requires
        marks@.len() == old(window)@.regions.len(),
    ensures
        final(window)@ == (WindowView {
            regions: Seq::new(
                old(window)@.regions.len(),
                |i: int|
                    if marks@[i] {
                        old(window)@.regions[i].cleared()
                    } else {
                        old(window)@.regions[i]
                    },
            ),
            ..old(window)@
        }),
{
    let ghost before = window@;
    let mut i: usize = 0;
    while i < marks.len()
        invariant
            i <= marks.len(),
            marks@.len() == before.regions.len(),
            window@ == (WindowView { regions: window@.regions, ..before }),
            window@.regions.len() == before.regions.len(),
            forall|j: int|
                0 <= j < before.regions.len() ==> (#[trigger] window@.regions[j]) == (if j < i
                    && marks@[j] {
                    before.regions[j].cleared()
                } else {
                    before.regions[j]
                }),
        decreases marks.len() - i,
    {
        if marks[i] {
            window.clear_at(i);
        }
        i = i + 1;
    }
    proof {
        assert(window@.regions =~= Seq::new(
            before.regions.len(),
            |i: int|
                if marks@[i] {
                    before.regions[i].cleared()
                } else {
                    before.regions[i]
                },
        ));
    }
}

/// The window after the context is cleared between two stages.
pub open spec fn cleared_between(w: WindowView) -> WindowView {
    clearing(w, |r: RegionView| !survives_clear(r.kind)).recounted()
}

/// Clears every region that is not pinned, a history or a map.
fn clear_between(window: &mut ContextWindow)
    ensures
        final(window)@ == cleared_between(old(window)@),
{
    let ghost before = window@;
    let mut marks: Vec<bool> = Vec::new();
    let mut i: usize = 0;
    while i < window.regions.len()
        invariant
            i <= window@.regions.len(),
            window@ == before,
            marks.len() == i,
            forall|j: int|
                0 <= j < i ==> (#[trigger] marks@[j]) == !survives_clear(before.regions[j].kind),
        decreases window.regions.len() - i,
    {
        let kept = match &window.regions[i].kind {
            RegionKind::Pinned => true,
            RegionKind::CompactHistory { .. } => true,
            RegionKind::HashMap => true,
            _ => false,
        };
        marks.push(!kept);
        i = i + 1;
    }
    clear_marked(window, &marks);
    proof {
        assert(window@.regions =~= clearing(
            before,
            |r: RegionView| !survives_clear(r.kind),
        ).regions);
    }
    window.recount();
}

/// The window after the listed regions are cleared, except those to be carried.
pub open spec fn cleared_listed(
    w: WindowView,
    clear: Seq<Seq<char>>,
    carry: Seq<Seq<char>>,
) -> WindowView {
    clearing(w, |r: RegionView| clear.contains(r.name) && !carry.contains(r.name)).recounted()
}

/// Clears the listed regions, except those to be carried.
fn clear_listed(window: &mut ContextWindow, clear: &Vec<String>, carry: &Vec<String>)
    ensures
        final(window)@ == cleared_listed(old(window)@, texts(clear@), texts(carry@)),
{
    let ghost before = window@;
    let ghost clears = texts(clear@);
    let ghost carries = texts(carry@);
    let mut marks: Vec<bool> = Vec::new();
    let mut i: usize = 0;
    while i < window.regions.len()
        invariant
            i <= window@.regions.len(),
            window@ == before,
            clears == texts(clear@),
            carries == texts(carry@),
            marks.len() == i,
            forall|j: int|
                0 <= j < i ==> (#[trigger] marks@[j]) == (clears.contains(before.regions[j].name)
                    && !carries.contains(before.regions[j].name)),
        decreases window.regions.len() - i,
    {
        let name = window.regions[i].name.as_str();
        marks.push(names(clear, name) && !names(carry, name));
        i = i + 1;
    }
    clear_marked(window, &marks);
    proof {
        assert(window@.regions =~= clearing(
            before,
            |r: RegionView| clears.contains(r.name) && !carries.contains(r.name),
        ).regions);
    }
    window.recount();
}

/// A compaction that an edge calls for.
pub struct CompactionPlan {
    /// What the model is told to do with the content.
    pub prompt: String,
    /// The regions it takes in by name; every compactable region where none are
    /// named.
    pub only: Option<Vec<String>>,
    /// The regions it must not touch.
    pub protect: Vec<String>,
}

/// The model of a [`CompactionPlan`].
pub struct CompactionPlanView {
    pub prompt: Seq<char>,
    pub only: Option<Seq<Seq<char>>>,
    pub protect: Seq<Seq<char>>,
}

impl View for CompactionPlan {
    type V = CompactionPlanView;

    open spec fn view(&self) -> CompactionPlanView {
        CompactionPlanView {
            prompt: self.prompt@,
            only: opt_names(self.only),
            protect: texts(self.protect@),
        }
    }
}

/// What an edge really does: going back to a stage with nothing said about the
/// context is taken for a compaction.
pub open spec fn effective(transform: EdgeTransformView, visited: nat) -> EdgeTransformView {
    if transform is Direct && visited > 0 {
        EdgeTransformView::Compact { prompt: None }
    } else {
        transform
    }
}

/// The window right after an edge, before any compaction.
pub open spec fn transformed(transform: EdgeTransformView, w: WindowView) -> WindowView {
    match transform {
        EdgeTransformView::Direct => w,
        EdgeTransformView::Compact { .. } => w,
        EdgeTransformView::Clear => cleared_between(w),
        EdgeTransformView::Custom { carry, clear, .. } => cleared_listed(w, clear, carry),
    }
}

/// The compaction that an edge to `target` calls for.
pub open spec fn compaction_of(transform: EdgeTransformView, target: Seq<char>) -> Option<
    CompactionPlanView,
> {
    match transform {
        EdgeTransformView::Direct => None,
        EdgeTransformView::Clear => None,
        EdgeTransformView::Compact { prompt } => Some(
            CompactionPlanView {
                prompt: match prompt {
                    Some(own) => own,
                    None => "Summarize the conversation so far as context for the next stage '"@
                        + target
                        + "'. Keep key decisions, findings, and action items. Be concise."@,
                },
                only: None,
                protect: Seq::empty(),
            },
        ),
        EdgeTransformView::Custom { carry, compact, compact_prompt, .. } => if compact.len() == 0 {
            None
        } else {
            Some(
                CompactionPlanView {
                    prompt: match compact_prompt {
                        Some(own) => own,
                        None => "Summarize the content from regions ["@ + joined(compact, ", "@)
                            + "] as context for stage '"@ + target + "'."@,
                    },
                    only: Some(compact),
                    protect: carry,
                },
            )
        },
    }
}

/// The compaction for every compactable region.
fn blanket_compaction(prompt: &Option<String>, target: &str) -> (out: CompactionPlan)
    ensures
        Some(out@) == compaction_of(
            EdgeTransformView::Compact { prompt: opt_text(*prompt) },
            target@,
        ),
{
    let prompt = match prompt {
        Some(own) => own.clone(),
        None => {
            let mut p =
                "Summarize the conversation so far as context for the next stage '".to_owned();
            p.append(target);
            p.append("'. Keep key decisions, findings, and action items. Be concise.");
            p
        },
    };
    let out = CompactionPlan { prompt, only: None, protect: Vec::new() };
    proof {
        assert(out@.protect =~= Seq::empty());
    }
    out
}

/// Applies an edge to the context before the next stage is entered, and says
/// which compaction is left to do.
pub fn apply_edge_transform(
    edge: &TransitionEdge,
    visit_counts: &NameTable<usize>,
    window: &mut Option<ContextWindow>,
) -> (left: Option<CompactionPlan>)
    ensures
        ({
            let transform = effective(edge.transform@, visits(visit_counts@, edge.target@));
            &&& match (*old(window), *final(window)) {
                (Some(before), Some(after)) => after@ == transformed(transform, before@),
                (None, None) => true,
                _ => false,
            }
            &&& match (left, compaction_of(transform, edge.target@)) {
                (Some(got), Some(want)) => got@ == want,
                (None, None) => true,
                _ => false,
            }
        }),
{
    let visited: usize = match visit_counts.get(edge.target.as_str()) {
        Some(n) => *n,
        None => 0,
    };
    match &edge.transform {
        EdgeTransform::Direct => if visited > 0 {
            Some(blanket_compaction(&None, edge.target.as_str()))
        } else {
            None
        },
        EdgeTransform::Clear => {
            if let Some(w) = window {
                clear_between(w);
            }
            None
        },
        EdgeTransform::Compact { prompt } => Some(
            blanket_compaction(prompt, edge.target.as_str()),
        ),
        EdgeTransform::Custom { carry, compact, clear, compact_prompt } => {
            if let Some(w) = window {
                clear_listed(w, clear, carry);
            }
            if compact.len() == 0 {
                return None;
            }
            let prompt = match compact_prompt {
                Some(own) => own.clone(),
                None => {
                    let mut p = "Summarize the content from regions [".to_owned();
                    p.append(join(compact, ", ").as_str());
                    p.append("] as context for stage '");
                    p.append(edge.target.as_str());
                    p.append("'.");
                    p
                },
            };
            Some(
                CompactionPlan {
                    prompt,
                    only: Some(crate::blueprint::copy_texts(compact)),
                    protect: crate::blueprint::copy_texts(carry),
                },
            )
        },
    }
}

/// The contents of some entries.
pub open spec fn contents(entries: Seq<crate::context::EntryView>) -> Seq<Seq<char>> {
    Seq::new(entries.len(), |i: int| entries[i].content)
}

/// The part of a compaction's content that one region makes: its name and its
/// entries.
pub open spec fn region_part(region: RegionView) -> Seq<char> {
    "["@ + region.name + "]:\n"@ + joined(contents(region.content), "\n"@)
}

/// The parts of a compaction's content, one for each region that is taken in and
/// holds anything.
pub open spec fn compaction_parts(
    regions: Seq<RegionView>,
    only: Option<Seq<Seq<char>>>,
    protect: Seq<Seq<char>>,
) -> Seq<Seq<char>>
    decreases regions.len(),
{
    if regions.len() == 0 {
        Seq::empty()
    } else {
        let before = compaction_parts(regions.drop_last(), only, protect);
        if compact_target(regions.last(), only, protect) && regions.last().content.len() > 0 {
            before.push(region_part(regions.last()))
        } else {
            before
        }
    }
}

/// The content that a compaction hands to the model.
pub open spec fn compaction_content(
    w: WindowView,
    only: Option<Seq<Seq<char>>>,
    protect: Seq<Seq<char>>,
) -> Seq<char> {
    joined(compaction_parts(w.regions, only, protect), "\n\n"@)
}

/// The contents of a region's entries with `sep` between each two.
pub fn join_entries(region: &Region, sep: &str) -> (out: String)
    ensures
        out@ == joined(contents(region@.content), sep@),
{
    let mut parts: Vec<String> = Vec::new();
    let mut i: usize = 0;
    while i < region.content.len()
        invariant
            i <= region.content.len(),
            parts.len() == i,
            forall|j: int|
                0 <= j < i ==> (#[trigger] parts@[j])@ == region.content@[j].content@,
        decreases region.content.len() - i,
    {
        parts.push(region.content[i].content.clone());
        i = i + 1;
    }
    proof {
        assert(texts(parts@) =~= contents(region@.content));
    }
    join(&parts, sep)
}

/// Gathers the content that a compaction hands to the model.
pub fn content_to_compact(
    window: &ContextWindow,
    only: &Option<Vec<String>>,
    protect: &Vec<String>,
) -> (out: String)
    ensures
        out@ == compaction_content(window@, opt_names(*only), texts(protect@)),
{
    let ghost listed = opt_names(*only);
    let ghost protected = texts(protect@);
    let ghost all = window@.regions;
    let mut parts: Vec<String> = Vec::new();
    let mut i: usize = 0;
    proof {
        assert(all.take(0) =~= Seq::empty());
        assert(texts(parts@) =~= Seq::empty());
    }
    while i < window.regions.len()
        invariant
            i <= window.regions.len(),
            all == window@.regions,
            listed == opt_names(*only),
            protected == texts(protect@),
            texts(parts@) == compaction_parts(all.take(i as int), listed, protected),
        decreases window.regions.len() - i,
    {
        let ghost before = parts@;
        proof {
            assert(all.take(i + 1).drop_last() =~= all.take(i as int));
        }
        let region = &window.regions[i];
        if region_is_compact_target(region, only, protect) && region.content.len() > 0 {
            let mut part = "[".to_owned();
            part.append(region.name.as_str());
            part.append("]:\n");
            part.append(join_entries(region, "\n").as_str());
            parts.push(part);
            proof {
                assert(part@ =~= region_part(all[i as int]));
                assert(texts(parts@) =~= texts(before).push(part@));
            }
        }
        i = i + 1;
    }
    proof {
        assert(all.take(i as int) =~= all);
    }
    join(&parts, "\n\n")
}

/// The window after a compaction: what was taken in is cleared, and the summary
/// stands in the conversation.
pub open spec fn compacted(
    w: WindowView,
    only: Option<Seq<Seq<char>>>,
    protect: Seq<Seq<char>>,
    summary: Seq<char>,
) -> WindowView {
    clearing(w, |r: RegionView| compact_target(r, only, protect)).offered(
        "conversation"@,
        public_entry(
            EntryKindView::Text,
            "[Context summary from previous stage]: "@ + summary,
            tokens_of(summary) + 1,
        ),
    ).recounted()
}

/// Clears the regions that were summarized and puts the summary into the
/// conversation.
pub fn apply_summary(
    window: &mut ContextWindow,
    only: &Option<Vec<String>>,
    protect: &Vec<String>,
    summary: &str,
)
    ensures
        final(window)@ == compacted(
            old(window)@,
            opt_names(*only),
            texts(protect@),
            summary@,
        ),
{
    let ghost before = window@;
    let ghost listed = opt_names(*only);
    let ghost protected = texts(protect@);
    let mut marks: Vec<bool> = Vec::new();
    let mut i: usize = 0;
    while i < window.regions.len()
        invariant
            i <= window@.regions.len(),
            window@ == before,
            listed == opt_names(*only),
            protected == texts(protect@),
            marks.len() == i,
            forall|j: int|
                0 <= j < i ==> (#[trigger] marks@[j]) == compact_target(
                    before.regions[j],
                    listed,
                    protected,
                ),
        decreases window.regions.len() - i,
    {
        marks.push(region_is_compact_target(&window.regions[i], only, protect));
        i = i + 1;
    }
    clear_marked(window, &marks);
    proof {
        assert(window@.regions =~= clearing(
            before,
            |r: RegionView| compact_target(r, listed, protected),
        ).regions);
    }
    let tokens: usize = message_tokens(summary);
    let mut line = "[Context summary from previous stage]: ".to_owned();
    line.append(summary);
    let _ = window.add_to_region("conversation", line, tokens);
    window.recount();
}

/// The most tokens of a summary where no configuration says otherwise.
pub const DEFAULT_SUMMARY_TOKENS: usize = 2000;

/// A compaction that is to be sent to a model.
pub struct CompactionRequest {
    pub provider: String,
    pub model: String,
    /// What the model is told to do with the content.
    pub system: String,
    pub content: String,
    pub max_tokens: usize,
}

/// The provider, the model and the length of a summary: the configured ones, else
/// those of the stage.
pub open spec fn summarizer(
    provider_name: Seq<char>,
    model_name: Seq<char>,
    config: Option<CompactionConfig>,
) -> (Seq<char>, Seq<char>, nat) {
    match config {
        Some(cc) => (cc.provider@, cc.model@, cc.max_summary_tokens as nat),
        None => (provider_name, model_name, DEFAULT_SUMMARY_TOKENS as nat),
    }
}

/// Prepares a compaction. Nothing is to be sent where the provider is not
/// registered, there is no window, or there is nothing to summarize.
pub fn compact_transform_request<P>(
    registry: &ProviderRegistry<P>,
    window: &Option<ContextWindow>,
    provider_name: &str,
    model_name: &str,
    config: &Option<CompactionConfig>,
    compaction: &CompactionPlan,
) -> (request: Option<CompactionRequest>)
    ensures
        ({
            let by = summarizer(provider_name@, model_name@, *config);
            let content = compaction_content(
                window->0@,
                compaction@.only,
                compaction@.protect,
            );
            match request {
                Some(r) => {
                    &&& lookup(registry.providers@, by.0) is Some
                    &&& *window is Some
                    &&& content.len() > 0
                    &&& r.provider@ == by.0
                    &&& r.model@ == by.1
                    &&& r.max_tokens == by.2
                    &&& r.system@ == compaction@.prompt
                    &&& r.content@ == content
                },
                None => lookup(registry.providers@, by.0) is None || *window is None
                    || content.len() == 0,
            }
        }),
{
    let (provider, model, max_tokens) = match config {
        Some(cc) => (cc.provider.clone(), cc.model.clone(), cc.max_summary_tokens),
        None => (provider_name.to_owned(), model_name.to_owned(), DEFAULT_SUMMARY_TOKENS),
    };
    if !registry.has(provider.as_str()) {
        return None;
    }
    match window {
        None => None,
        Some(w) => {
            let content = content_to_compact(w, &compaction.only, &compaction.protect);
            if content.as_str().is_empty() {
                return None;
            }
            Some(
                CompactionRequest {
                    provider,
                    model,
                    system: compaction.prompt.clone(),
                    content,
                    max_tokens,
                },
            )
        },
    }
}

/// Prepares a compaction of every compactable region.
pub fn apply_compact_transform<P>(
    registry: &ProviderRegistry<P>,
    window: &Option<ContextWindow>,
    provider_name: &str,
    model_name: &str,
    prompt: &str,
    config: &Option<CompactionConfig>,
) -> (request: Option<CompactionRequest>)
    ensures
        ({
            let by = summarizer(provider_name@, model_name@, *config);
            let content = compaction_content(window->0@, None, Seq::empty());
            match request {
                Some(r) => {
                    &&& lookup(registry.providers@, by.0) is Some
                    &&& *window is Some
                    &&& content.len() > 0
                    &&& r.provider@ == by.0
                    &&& r.model@ == by.1
                    &&& r.max_tokens == by.2
                    &&& r.system@ == prompt@
                    &&& r.content@ == content
                },
                None => lookup(registry.providers@, by.0) is None || *window is None
                    || content.len() == 0,
            }
        }),
{
    let compaction = CompactionPlan { prompt: prompt.to_owned(), only: None, protect: Vec::new() };
    proof {
        assert(compaction@.protect =~= Seq::empty());
    }
    compact_transform_request(registry, window, provider_name, model_name, config, &compaction)
}

/// A region that an edge carries is never cleared by it, whatever else the edge
/// lists.
pub proof fn law_carried_region_is_not_cleared(
    w: WindowView,
    carry: Seq<Seq<char>>,
    compact: Seq<Seq<char>>,
    clear: Seq<Seq<char>>,
    compact_prompt: Option<Seq<char>>,
    i: int,
)
    requires
        0 <= i < w.regions.len(),
        carry.contains(w.regions[i].name),
    ensures
        transformed(
            EdgeTransformView::Custom { carry, compact, clear, compact_prompt },
            w,
        ).regions[i] == w.regions[i],
{
}

/// A compaction never clears a region it has to protect: what the region held is
/// still there, at most with the summary behind it.
pub proof fn law_protected_region_survives_compaction(
    w: WindowView,
    only: Option<Seq<Seq<char>>>,
    protect: Seq<Seq<char>>,
    summary: Seq<char>,
    i: int,
)
    requires
        0 <= i < w.regions.len(),
        protect.contains(w.regions[i].name),
    ensures
        compacted(w, only, protect, summary).regions.len() == w.regions.len(),
        w.regions[i].content.is_prefix_of(compacted(w, only, protect, summary).regions[i].content),
        w.regions[i].name != "conversation"@ ==> compacted(w, only, protect, summary).regions[i]
            == w.regions[i],
{
    let rule = |r: RegionView| compact_target(r, only, protect);
    let step = clearing(w, rule);
    assert(step.regions[i] == w.regions[i]);
    crate::context::lemma_region_at(step.regions, "conversation"@);
}

/// A compaction by name leaves every region that is not named as it was, but for
/// a summary in the conversation.
pub proof fn law_unnamed_region_is_left_alone(
    w: WindowView,
    listed: Seq<Seq<char>>,
    protect: Seq<Seq<char>>,
    summary: Seq<char>,
    i: int,
)
    requires
        0 <= i < w.regions.len(),
        !listed.contains(w.regions[i].name),
        w.regions[i].name != "conversation"@,
    ensures
        compacted(w, Some(listed), protect, summary).regions[i] == w.regions[i],
{
    let rule = |r: RegionView| compact_target(r, Some(listed), protect);
    let step = clearing(w, rule);
    assert(step.regions[i] == w.regions[i]);
    crate::context::lemma_region_at(step.regions, "conversation"@);
}

/// The edge that a plan follows is one whose target may be entered, or the step to
/// the next stage in line.
pub proof fn law_followed_edge_may_be_entered(
    edges: Seq<NamedEdgeView>,
    allow_complete: bool,
    stages: Seq<Stage>,
    counts: Seq<(Seq<char>, usize)>,
    result: StageResult,
)
    ensures
        match graph_plan(edges, allow_complete, stages, counts, result) {
            TransitionPlanView::Terminal => true,
            TransitionPlanView::Follow { edge, .. } => exists|i: int|
                0 <= i < edges.len() && (#[trigger] edges[i]).1 == edge && may_enter(
                    stages,
                    counts,
                    edges[i].0,
                ),
            TransitionPlanView::Ask { edges: offered } => forall|k: int|
                0 <= k < offered.len() ==> {
                    &&& open_condition((#[trigger] offered[k]).1.condition)
                    &&& may_enter(stages, counts, offered[k].0)
                    &&& edges.contains(offered[k])
                },
        },
{
    let open = available(edges, stages, counts);
    lemma_available(edges, stages, counts);
    lemma_choosable(open);
    match automatic(result) {
        Some(condition) => {
            lemma_first_with(open, condition);
        },
        None => {},
    }
    match graph_plan(edges, allow_complete, stages, counts, result) {
        TransitionPlanView::Follow { edge, .. } => {
            let called_for = match automatic(result) {
                Some(condition) => first_with(open, condition),
                None => None,
            };
            let k = if called_for is Some {
                choose|k: int| 0 <= k < open.len() && (#[trigger] open[k]).1 == edge
            } else {
                choose|k: int| 0 <= k < open.len() && open[k] == choosable(open)[0]
            };
            assert(open[k].1 == edge);
            assert(edges.contains(open[k]));
            let i = choose|i: int| 0 <= i < edges.len() && edges[i] == open[k];
            assert(edges[i].1 == edge);
        },
        TransitionPlanView::Ask { edges: offered } => {
            assert forall|k: int| 0 <= k < offered.len() implies {
                &&& open_condition((#[trigger] offered[k]).1.condition)
                &&& may_enter(stages, counts, offered[k].0)
                &&& edges.contains(offered[k])
            } by {
                assert(open.contains(offered[k]));
                let j = choose|j: int| 0 <= j < open.len() && open[j] == offered[k];
                assert(edges.contains(open[j]));
            }
        },
        TransitionPlanView::Terminal => {},
    }
}

/// An available edge is one of the edges, and its target may be entered.
proof fn lemma_available(
    edges: Seq<NamedEdgeView>,
    stages: Seq<Stage>,
    counts: Seq<(Seq<char>, usize)>,
)
    ensures
        forall|k: int|
            0 <= k < available(edges, stages, counts).len() ==> may_enter(
                stages,
                counts,
                (#[trigger] available(edges, stages, counts)[k]).0,
            ) && edges.contains(available(edges, stages, counts)[k]),
    decreases edges.len(),
{
    if edges.len() > 0 {
        let front = edges.drop_last();
        lemma_available(front, stages, counts);
        let out = available(edges, stages, counts);
        assert forall|k: int| 0 <= k < out.len() implies may_enter(
            stages,
            counts,
            (#[trigger] out[k]).0,
        ) && edges.contains(out[k]) by {
            let before = available(front, stages, counts);
            if k < before.len() {
                assert(out[k] == before[k]);
                let j = choose|j: int| 0 <= j < front.len() && front[j] == before[k];
                assert(edges[j] == out[k]);
            } else {
                assert(edges[edges.len() - 1] == out[k]);
            }
        }
    }
}

/// A choosable edge is one of the edges, and its condition is open.
proof fn lemma_choosable(edges: Seq<NamedEdgeView>)
    ensures
        forall|k: int|
            0 <= k < choosable(edges).len() ==> open_condition(
                (#[trigger] choosable(edges)[k]).1.condition,
            ) && edges.contains(choosable(edges)[k]),
    decreases edges.len(),
{
    if edges.len() > 0 {
        let front = edges.drop_last();
        lemma_choosable(front);
        let out = choosable(edges);
        assert forall|k: int| 0 <= k < out.len() implies open_condition(
            (#[trigger] out[k]).1.condition,
        ) && edges.contains(out[k]) by {
            let before = choosable(front);
            if k < before.len() {
                assert(out[k] == before[k]);
                let j = choose|j: int| 0 <= j < front.len() && front[j] == before[k];
                assert(edges[j] == out[k]);
            } else {
                assert(edges[edges.len() - 1] == out[k]);
            }
        }
    }
}

/// A first edge with a condition is one of the edges.
proof fn lemma_first_with(edges: Seq<NamedEdgeView>, condition: TransitionCondition)
    ensures
        first_with(edges, condition) is Some ==> exists|k: int|
            0 <= k < edges.len() && (#[trigger] edges[k]).1 == first_with(edges, condition)->0
                && edges[k].1.condition == condition,
    decreases edges.len(),
{
    if edges.len() > 0 && edges[0].1.condition != condition {
        lemma_first_with(edges.skip(1), condition);
        if first_with(edges, condition) is Some {
            let k = choose|k: int|
                0 <= k < edges.skip(1).len() && (#[trigger] edges.skip(1)[k]).1 == first_with(
                    edges.skip(1),
                    condition,
                )->0 && edges.skip(1)[k].1.condition == condition;
            assert(edges[k + 1] == edges.skip(1)[k]);
        }
    }
}

/// A run ends on the model's word only where the stage allows it: without that leave an
/// answer always picks one of the offered edges, whatever it says.
pub proof fn law_answer_picks_an_offered_edge(
    allow_complete: bool,
    edges: Seq<NamedEdgeView>,
    response: Seq<char>,
)
    requires
        edges.len() > 0,
    ensures
        answered(allow_complete, edges, response) is None ==> allow_complete
            && same_ignoring_ascii_case(trimmed(response), "done"@),
        answered(allow_complete, edges, response) is Some ==> exists|i: int|
            0 <= i < edges.len() && (#[trigger] edges[i]).1 == answered(
                allow_complete,
                edges,
                response,
            )->0,
{
    let choice = trimmed(response);
    lemma_named_by(choice, edges, 0);
    lemma_mentioned_in(lowercase_of(choice), lowered(edges), 0);
    if !(allow_complete && same_ignoring_ascii_case(choice, "done"@)) {
        let i = match named_by(choice, edges, 0) {
            Some(i) => i,
            None => match mentioned_in(lowercase_of(choice), lowered(edges), 0) {
                Some(i) => i,
                None => 0,
            },
        };
        assert(edges[i].1 == answered(allow_complete, edges, response)->0);
    }
}

/// A named edge is one of the edges.
proof fn lemma_named_by(choice: Seq<char>, edges: Seq<NamedEdgeView>, from: int)
    ensures
        named_by(choice, edges, from) is Some ==> 0 <= named_by(choice, edges, from)->0
            < edges.len(),
    decreases edges.len() - from,
{
    if 0 <= from < edges.len() {
        lemma_named_by(choice, edges, from + 1);
    }
}

/// A mentioned name is one of the names.
proof fn lemma_mentioned_in(choice: Seq<char>, names: Seq<Seq<char>>, from: int)
    ensures
        mentioned_in(choice, names, from) is Some ==> 0 <= mentioned_in(choice, names, from)->0
            < names.len(),
    decreases names.len() - from,
{
    if 0 <= from < names.len() {
        lemma_mentioned_in(choice, names, from + 1);
    }
}

} // verus!
