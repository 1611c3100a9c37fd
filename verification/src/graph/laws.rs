//! What the transitions between stages come to: which edges are open, which is taken, and what
//! an edge does to the context.

use super::{
    answer_budget, answered, available, choosable, clearing, compact_target, compacted,
    compaction_content, compaction_of, compaction_parts, contents, effective, edge_lines,
    first_with, graph_plan, may_enter, mentioned_in, named_by, plan, region_part, resolved,
    summarizer, target_index, transformed, transition_question, visits, with_choice,
    with_user_message, NamedEdgeView, TransitionPlanView,
};
use crate::blueprint::{
    lemma_stage_at, stage_at, EdgeTransformView, Stage, StageResult, TransitionCondition,
};
use crate::components::CompactionConfig;
use crate::context::{lemma_region_at, EntryKindView, EntryView, RegionView, TaintLevel, WindowView};
use crate::engine::results::{all_offered, has_room_for, holds_also, lemma_all_offered, Addressed};
use crate::table::lemma_name_at;
use crate::text::{
    joined, occurs_at, occurs_in, same_ignoring_ascii_case, tokens_of, trimmed,
};
use vstd::prelude::*;

verus! {

/// Every part of a joined text stands in it.
proof fn lemma_part_occurs(parts: Seq<Seq<char>>, sep: Seq<char>, i: int)
    requires
        0 <= i < parts.len(),
    ensures
        occurs_in(joined(parts, sep), parts[i]),
    decreases parts.len(),
{
    let all = joined(parts, sep);
    if parts.len() == 1 {
        assert(all.subrange(0, all.len() as int) =~= parts[0]);
        assert(occurs_at(all, parts[0], 0));
    } else if i == parts.len() - 1 {
        let at = all.len() - parts[i].len();
        assert(all.subrange(at, all.len() as int) =~= parts[i]);
        assert(occurs_at(all, parts[i], at));
    } else {
        let front = parts.drop_last();
        assert(front[i] == parts[i]);
        lemma_part_occurs(front, sep, i);
        let less = joined(front, sep);
        let at = choose|at: int| occurs_at(less, parts[i], at);
        assert(all.subrange(at, at + parts[i].len()) =~= less.subrange(at, at + parts[i].len()));
        assert(occurs_at(all, parts[i], at));
    }
}

/// What stands in a part stands in the whole.
proof fn lemma_occurs_within(whole: Seq<char>, part: Seq<char>, piece: Seq<char>)
    requires
        occurs_in(whole, part),
        occurs_in(part, piece),
    ensures
        occurs_in(whole, piece),
{
    let a = choose|at: int| occurs_at(whole, part, at);
    let b = choose|at: int| occurs_at(part, piece, at);
    assert(whole.subrange(a + b, a + b + piece.len()) =~= whole.subrange(
        a,
        a + part.len(),
    ).subrange(b, b + piece.len()));
    assert(occurs_at(whole, piece, a + b));
}

/// Which regions a compaction is about: none that is protected; else those that are listed, or
/// where nothing is listed those whose content ages.
pub proof fn law_compaction_is_about_the_named_or_the_aging(
    region: RegionView,
    listed: Seq<Seq<char>>,
    protect: Seq<Seq<char>>,
)
    ensures
        protect.contains(region.name) ==> !compact_target(region, None, protect)
            && !compact_target(region, Some(listed), protect),
        !protect.contains(region.name) ==> compact_target(region, Some(listed), protect)
            == listed.contains(region.name),
        !protect.contains(region.name) ==> compact_target(region, None, protect) == (
        region.kind is SlidingWindow || region.kind is Compacting || region.kind is Temporary
            || region.kind is Clearable),
{
}

/// A region that is to be compacted and holds something is a part of the content.
proof fn lemma_region_is_a_part(
    regions: Seq<RegionView>,
    only: Option<Seq<Seq<char>>>,
    protect: Seq<Seq<char>>,
    i: int,
)
    requires
        0 <= i < regions.len(),
        compact_target(regions[i], only, protect),
        regions[i].content.len() > 0,
    ensures
        compaction_parts(regions, only, protect).contains(region_part(regions[i])),
    decreases regions.len(),
{
    let parts = compaction_parts(regions, only, protect);
    if i == regions.len() - 1 {
        assert(parts.last() == region_part(regions[i]));
        assert(parts[parts.len() - 1] == region_part(regions[i]));
    } else {
        let front = regions.drop_last();
        assert(front[i] == regions[i]);
        lemma_region_is_a_part(front, only, protect, i);
        let less = compaction_parts(front, only, protect);
        let k = choose|k: int| 0 <= k < less.len() && less[k] == region_part(regions[i]);
        assert(parts[k] == region_part(regions[i]));
    }
}

/// Whatever a compaction clears was handed to the model: the name of each such region that
/// holds anything, and everything that it holds.
pub proof fn law_what_is_cleared_was_handed_over(
    w: WindowView,
    only: Option<Seq<Seq<char>>>,
    protect: Seq<Seq<char>>,
    summary: Seq<char>,
    i: int,
    k: int,
)
    requires
        0 <= i < w.regions.len(),
        0 <= k < w.regions[i].content.len(),
        compact_target(w.regions[i], only, protect),
    ensures
        occurs_in(compaction_content(w, only, protect), w.regions[i].content[k].content),
        occurs_in(compaction_content(w, only, protect), "["@ + w.regions[i].name + "]:\n"@),
{
    let region = w.regions[i];
    let whole = compaction_content(w, only, protect);
    let parts = compaction_parts(w.regions, only, protect);
    lemma_region_is_a_part(w.regions, only, protect, i);
    let at = choose|at: int| 0 <= at < parts.len() && parts[at] == region_part(region);
    lemma_part_occurs(parts, "\n\n"@, at);
    let part = region_part(region);
    let head = "["@ + region.name + "]:\n"@;
    let texts = contents(region.content);
    let body = joined(texts, "\n"@);
    assert(part.subrange(0, head.len() as int) =~= head);
    assert(occurs_at(part, head, 0));
    lemma_occurs_within(whole, part, head);
    assert(part.subrange(head.len() as int, part.len() as int) =~= body);
    assert(occurs_at(part, body, head.len() as int));
    lemma_occurs_within(whole, part, body);
    lemma_part_occurs(texts, "\n"@, k);
    lemma_occurs_within(whole, body, texts[k]);
}

/// A region that is not compacted after the summary was put in is either left as it was, but
/// for the summary, or was handed to the model.
pub proof fn law_nothing_is_lost_unread(
    w: WindowView,
    only: Option<Seq<Seq<char>>>,
    protect: Seq<Seq<char>>,
    summary: Seq<char>,
    i: int,
    k: int,
)
    requires
        0 <= i < w.regions.len(),
        0 <= k < w.regions[i].content.len(),
    ensures
        ({
            let now = compacted(w, only, protect, summary).regions[i].content;
            (k < now.len() && now[k] == w.regions[i].content[k]) || occurs_in(
                compaction_content(w, only, protect),
                w.regions[i].content[k].content,
            )
        }),
{
    if compact_target(w.regions[i], only, protect) {
        law_what_is_cleared_was_handed_over(w, only, protect, summary, i, k);
    } else {
        let rule = |r: RegionView| compact_target(r, only, protect);
        lemma_region_at(clearing(w, rule).regions, "conversation"@);
    }
}

/// What the model is asked to sum up is the regions that are to be compacted and hold
/// anything, in their order, each under its name, with a blank line between each two.
pub proof fn law_content_is_the_regions_in_order(
    w: WindowView,
    only: Option<Seq<Seq<char>>>,
    protect: Seq<Seq<char>>,
)
    ensures
        compaction_content(w, only, protect) == joined(
            w.regions.filter(
                |r: RegionView| compact_target(r, only, protect) && r.content.len() > 0,
            ).map(
                |i: int, r: RegionView|
                    "["@ + r.name + "]:\n"@ + joined(
                        r.content.map(|j: int, e: EntryView| e.content),
                        "\n"@,
                    ),
            ),
            "\n\n"@,
        ),
{
    lemma_parts(w.regions, only, protect);
}

/// The parts of the content are those of the regions that are compacted.
proof fn lemma_parts(
    regions: Seq<RegionView>,
    only: Option<Seq<Seq<char>>>,
    protect: Seq<Seq<char>>,
)
    ensures
        compaction_parts(regions, only, protect) == regions.filter(
            |r: RegionView| compact_target(r, only, protect) && r.content.len() > 0,
        ).map(
            |i: int, r: RegionView|
                "["@ + r.name + "]:\n"@ + joined(
                    r.content.map(|j: int, e: EntryView| e.content),
                    "\n"@,
                ),
        ),
    decreases regions.len(),
{
    reveal(Seq::filter);
    let rule = |r: RegionView| compact_target(r, only, protect) && r.content.len() > 0;
    let part = |i: int, r: RegionView|
        "["@ + r.name + "]:\n"@ + joined(
            r.content.map(|j: int, e: EntryView| e.content),
            "\n"@,
        );
    if regions.len() > 0 {
        let front = regions.drop_last();
        let last = regions.last();
        lemma_parts(front, only, protect);
        assert(contents(last.content) =~= last.content.map(|j: int, e: EntryView| e.content));
        if rule(last) {
            assert(regions.filter(rule) == front.filter(rule).push(last));
            assert(front.filter(rule).push(last).map(part) =~= front.filter(rule).map(part).push(
                part(0, last),
            ));
        } else {
            assert(regions.filter(rule) == front.filter(rule));
        }
    } else {
        assert(regions.filter(rule).map(part) =~= Seq::empty());
    }
}

/// What a summary leaves: every region that was compacted is empty, but for the summary in
/// the conversation, and every other is as it was, but for the summary too. The summary stands
/// at the end of the conversation, where there is room for it.
pub proof fn law_summary_replaces_what_was_compacted(
    w: WindowView,
    only: Option<Seq<Seq<char>>>,
    protect: Seq<Seq<char>>,
    summary: Seq<char>,
    i: int,
)
    requires
        0 <= i < w.regions.len(),
    ensures
        ({
            let after = compacted(w, only, protect, summary);
            let kept = if compact_target(w.regions[i], only, protect) {
                Seq::empty()
            } else {
                w.regions[i].content
            };
            let used = if compact_target(w.regions[i], only, protect) {
                0
            } else {
                w.regions[i].current_tokens
            };
            let here = w.regions[i].name == "conversation"@ && forall|j: int|
                0 <= j < i ==> (#[trigger] w.regions[j]).name != "conversation"@;
            let fits = used + tokens_of(summary) + 1 <= w.regions[i].max_tokens;
            let now = after.regions[i].content;
            &&& after.regions.len() == w.regions.len()
            &&& after.regions[i].name == w.regions[i].name
            &&& after.regions[i].kind == w.regions[i].kind
            &&& after.regions[i].max_tokens == w.regions[i].max_tokens
            &&& !here || !fits ==> now == kept
            &&& here && fits ==> {
                &&& now.len() == kept.len() + 1
                &&& now.drop_last() == kept
                &&& now.last().kind is Text
                &&& now.last().content == "[Context summary from previous stage]: "@ + summary
            }
        }),
{
    let rule = |r: RegionView| compact_target(r, only, protect);
    let cleared = clearing(w, rule);
    lemma_region_at(cleared.regions, "conversation"@);
    assert forall|j: int| 0 <= j < w.regions.len() implies (#[trigger] cleared.regions[j]).name
        == w.regions[j].name by {}
    let after = compacted(w, only, protect, summary);
    let here = w.regions[i].name == "conversation"@ && forall|j: int|
        0 <= j < i ==> (#[trigger] w.regions[j]).name != "conversation"@;
    if here {
        assert forall|j: int| 0 <= j < i implies (#[trigger] cleared.regions[j]).name
            != "conversation"@ by {
            assert(w.regions[j].name != "conversation"@);
        }
        assert(cleared.regions[i].name == "conversation"@);
    } else if let Some(at) = crate::context::region_at(cleared.regions, "conversation"@) {
        assert(at != i) by {
            if at == i {
                assert forall|j: int| 0 <= j < i implies (#[trigger] w.regions[j]).name
                    != "conversation"@ by {
                    assert(cleared.regions[j].name != "conversation"@);
                }
            }
        }
    }
    if compact_target(w.regions[i], only, protect) {
        assert(cleared.regions[i].content =~= Seq::empty());
    }
    if after.regions[i].content.len() > 0 {
        assert(after.regions[i].content.drop_last() =~= cleared.regions[i].content
            || after.regions[i].content == cleared.regions[i].content);
    }
}

/// Clearing between stages empties every region but the pinned ones, the histories and the
/// maps; those stay as they were.
pub proof fn law_clearing_spares_what_is_kept(w: WindowView, i: int)
    requires
        0 <= i < w.regions.len(),
    ensures
        ({
            let after = transformed(EdgeTransformView::Clear, w);
            let spared = w.regions[i].kind is Pinned || w.regions[i].kind is CompactHistory
                || w.regions[i].kind is HashMap;
            &&& after.regions.len() == w.regions.len()
            &&& spared ==> after.regions[i] == w.regions[i]
            &&& !spared ==> after.regions[i].content.len() == 0
                && after.regions[i].current_tokens == 0 && after.regions[i].name
                == w.regions[i].name && after.regions[i].kind == w.regions[i].kind
        }),
{
}

/// A custom edge clears the regions that it lists and does not carry, and no others; a direct
/// or compacting edge clears nothing by itself.
pub proof fn law_edge_clears_what_it_lists(
    w: WindowView,
    carry: Seq<Seq<char>>,
    compact: Seq<Seq<char>>,
    clear: Seq<Seq<char>>,
    prompt: Option<Seq<char>>,
    i: int,
)
    requires
        0 <= i < w.regions.len(),
    ensures
        transformed(EdgeTransformView::Direct, w) == w,
        transformed(EdgeTransformView::Compact { prompt }, w) == w,
        ({
            let custom = EdgeTransformView::Custom { carry, compact, clear, compact_prompt: prompt };
            let after = transformed(custom, w);
            let listed = clear.contains(w.regions[i].name) && !carry.contains(w.regions[i].name);
            &&& after.regions.len() == w.regions.len()
            &&& listed ==> after.regions[i].content.len() == 0 && after.regions[i].name
                == w.regions[i].name
            &&& !listed ==> after.regions[i] == w.regions[i]
        }),
{
}

/// A direct edge to a stage that was visited before compacts, and on a first visit does not;
/// every other edge does what it says, however often the stage was visited.
pub proof fn law_revisit_compacts(transform: EdgeTransformView, visited: nat)
    ensures
        transform is Direct && visited == 0 ==> effective(transform, visited) is Direct,
        transform is Direct && visited > 0 ==> effective(transform, visited)
            == (EdgeTransformView::Compact { prompt: None }),
        !(transform is Direct) ==> effective(transform, visited) == transform,
{
}

/// Which edges call for a summary, of what and with which prompt: a compacting edge of every
/// region that ages, and a custom edge of the regions that it names for it, sparing those
/// that it carries.
pub proof fn law_edge_calls_for_a_summary(
    target: Seq<char>,
    carry: Seq<Seq<char>>,
    compact: Seq<Seq<char>>,
    clear: Seq<Seq<char>>,
    prompt: Option<Seq<char>>,
)
    ensures
        compaction_of(EdgeTransformView::Direct, target) is None,
        compaction_of(EdgeTransformView::Clear, target) is None,
        compaction_of(EdgeTransformView::Compact { prompt }, target) is Some,
        ({
            let blanket = compaction_of(EdgeTransformView::Compact { prompt }, target)->0;
            &&& blanket.only is None
            &&& blanket.protect.len() == 0
            &&& prompt is Some ==> blanket.prompt == prompt->0
            &&& prompt is None ==> occurs_in(blanket.prompt, target)
        }),
        ({
            let custom = EdgeTransformView::Custom { carry, compact, clear, compact_prompt: prompt };
            let left = compaction_of(custom, target);
            &&& left is Some <==> compact.len() > 0
            &&& left is Some ==> {
                &&& left->0.only == Some(compact)
                &&& left->0.protect == carry
                &&& prompt is Some ==> left->0.prompt == prompt->0
                &&& prompt is None ==> occurs_in(left->0.prompt, target) && occurs_in(
                    left->0.prompt,
                    joined(compact, ", "@),
                )
            }
        }),
{
    if prompt is None {
        let text = compaction_of(EdgeTransformView::Compact { prompt }, target)->0.prompt;
        let head = "Summarize the conversation so far as context for the next stage '"@;
        assert(text.subrange(head.len() as int, head.len() as int + target.len()) =~= target);
        assert(occurs_at(text, target, head.len() as int));
        if compact.len() > 0 {
            let custom = EdgeTransformView::Custom { carry, compact, clear, compact_prompt: prompt };
            let text = compaction_of(custom, target)->0.prompt;
            let names = joined(compact, ", "@);
            let a = "Summarize the content from regions ["@;
            let b = a + names + "] as context for stage '"@;
            assert(text.subrange(a.len() as int, a.len() as int + names.len()) =~= names);
            assert(occurs_at(text, names, a.len() as int));
            assert(text.subrange(b.len() as int, b.len() as int + target.len()) =~= target);
            assert(occurs_at(text, target, b.len() as int));
        }
    }
}

/// Who sums up: the configured model within its limit, and without a configuration the agent's
/// own within the usual one.
pub proof fn law_summary_is_asked_of_the_configured(
    provider: Seq<char>,
    model: Seq<char>,
    config: CompactionConfig,
)
    ensures
        summarizer(provider, model, Some(config)) == (
            config.provider@,
            config.model@,
            config.max_summary_tokens as nat,
        ),
        summarizer(provider, model, None) == (provider, model, 2000nat),
{
}

/// Whether a stage with this name is there and may be entered once more.
pub open spec fn is_open(
    stages: Seq<Stage>,
    counts: Seq<(Seq<char>, usize)>,
    name: Seq<char>,
) -> bool {
    exists|s: int|
        {
            &&& 0 <= s < stages.len()
            &&& (#[trigger] stages[s]).name@ == name
            &&& forall|j: int| 0 <= j < s ==> (#[trigger] stages[j]).name@ != name
            &&& match stages[s].max_revisits {
                None => true,
                Some(most) => forall|c: int|
                    0 <= c < counts.len() && (#[trigger] counts[c]).0 == name && (forall|d: int|
                        0 <= d < c ==> (#[trigger] counts[d]).0 != name) ==> counts[c].1 <= most,
            }
        }
}

/// A stage may be entered where there is one of that name and it was not visited more often
/// than its limit allows.
pub proof fn law_stage_is_entered_within_its_limit(
    stages: Seq<Stage>,
    counts: Seq<(Seq<char>, usize)>,
    name: Seq<char>,
)
    ensures
        may_enter(stages, counts, name) <==> is_open(stages, counts, name),
{
    lemma_stage_at(stages, name);
    lemma_name_at(counts, name);
    if may_enter(stages, counts, name) {
        let s = stage_at(stages, name)->0;
        assert(stages[s].name@ == name);
    }
    if is_open(stages, counts, name) {
        let s = choose|s: int|
            {
                &&& 0 <= s < stages.len()
                &&& (#[trigger] stages[s]).name@ == name
                &&& forall|j: int| 0 <= j < s ==> (#[trigger] stages[j]).name@ != name
                &&& match stages[s].max_revisits {
                    None => true,
                    Some(most) => forall|c: int|
                        0 <= c < counts.len() && (#[trigger] counts[c]).0 == name && (forall|d: int|
                            0 <= d < c ==> (#[trigger] counts[d]).0 != name) ==> counts[c].1
                            <= most,
                }
            };
        assert(stage_at(stages, name) == Some(s));
    }
}

/// The edges that may be taken are those to stages that may be entered, in their order; a
/// model may choose among those of them that are not only for failures or limits.
pub proof fn law_open_edges_keep_their_order(
    edges: Seq<NamedEdgeView>,
    stages: Seq<Stage>,
    counts: Seq<(Seq<char>, usize)>,
)
    ensures
        available(edges, stages, counts) == edges.filter(
            |edge: NamedEdgeView| is_open(stages, counts, edge.0),
        ),
        choosable(edges) == edges.filter(
            |edge: NamedEdgeView|
                edge.1.condition == TransitionCondition::Always || edge.1.condition
                    == TransitionCondition::LlmChoice,
        ),
    decreases edges.len(),
{
    reveal(Seq::filter);
    if edges.len() > 0 {
        law_open_edges_keep_their_order(edges.drop_last(), stages, counts);
        law_stage_is_entered_within_its_limit(stages, counts, edges.last().0);
    }
}

/// The first edge with a condition is found.
proof fn lemma_first_with(edges: Seq<NamedEdgeView>, condition: TransitionCondition)
    ensures
        match first_with(edges, condition) {
            Some(edge) => exists|i: int|
                {
                    &&& 0 <= i < edges.len()
                    &&& (#[trigger] edges[i]).1 == edge
                    &&& edge.condition == condition
                    &&& forall|j: int|
                        0 <= j < i ==> (#[trigger] edges[j]).1.condition != condition
                },
            None => forall|j: int|
                0 <= j < edges.len() ==> (#[trigger] edges[j]).1.condition != condition,
        },
    decreases edges.len(),
{
    if edges.len() > 0 && edges[0].1.condition != condition {
        let rest = edges.skip(1);
        lemma_first_with(rest, condition);
        if let Some(edge) = first_with(rest, condition) {
            let i = choose|i: int|
                {
                    &&& 0 <= i < rest.len()
                    &&& (#[trigger] rest[i]).1 == edge
                    &&& edge.condition == condition
                    &&& forall|j: int|
                        0 <= j < i ==> (#[trigger] rest[j]).1.condition != condition
                };
            assert(edges[i + 1] == rest[i]);
            assert forall|j: int| 0 <= j < i + 1 implies (#[trigger] edges[j]).1.condition
                != condition by {
                if j > 0 {
                    assert(rest[j - 1] == edges[j]);
                }
            }
        } else {
            assert forall|j: int| 0 <= j < edges.len() implies (#[trigger] edges[j]).1.condition
                != condition by {
                if j > 0 {
                    assert(rest[j - 1] == edges[j]);
                }
            }
        }
    } else if edges.len() > 0 {
        assert(edges[0].1.condition == condition);
    }
}

/// A failed stage takes the first open edge for failures, where there is one, and a stage that
/// ran out of iterations the first open edge for that; neither edge is taken otherwise.
pub proof fn law_failure_takes_its_edge(
    edges: Seq<NamedEdgeView>,
    allow_complete: bool,
    stages: Seq<Stage>,
    counts: Seq<(Seq<char>, usize)>,
    result: StageResult,
)
    ensures
        ({
            let open = available(edges, stages, counts);
            let out = graph_plan(edges, allow_complete, stages, counts, result);
            let wanted = match result {
                StageResult::Error => Some(TransitionCondition::Error),
                StageResult::MaxIterations => Some(TransitionCondition::MaxIterations),
                StageResult::Success => None,
            };
            &&& forall|i: int|
                wanted is Some && 0 <= i < open.len() && (#[trigger] open[i]).1.condition
                    == wanted->0 && (forall|j: int|
                    0 <= j < i ==> (#[trigger] open[j]).1.condition != wanted->0) ==> out is Follow
                    && out->edge == open[i].1
            &&& wanted is None || (forall|j: int|
                0 <= j < open.len() ==> (#[trigger] open[j]).1.condition != wanted->0) ==> {
                let choices = choosable(open);
                &&& choices.len() == 0 ==> out is Terminal
                &&& choices.len() == 1 && !allow_complete ==> out is Follow && out->edge
                    == choices[0].1
                &&& choices.len() > 1 || (choices.len() == 1 && allow_complete) ==> out is Ask
                    && out->edges == choices
            }
        }),
{
    let open = available(edges, stages, counts);
    lemma_first_with(open, TransitionCondition::Error);
    lemma_first_with(open, TransitionCondition::MaxIterations);
}

/// An edge leads to the first stage that has the name of its target.
pub proof fn law_edge_leads_to_its_target(stages: Seq<Stage>, target: Seq<char>, i: int)
    requires
        0 <= i < stages.len(),
        stages[i].name@ == target,
        forall|j: int| 0 <= j < i ==> (#[trigger] stages[j]).name@ != target,
    ensures
        target_index(stages, target) == i,
{
    lemma_stage_at(stages, target);
}

/// Without transitions of its own a stage is followed by the next in the list, and the last by
/// none.
pub proof fn law_plain_stages_follow_one_another(
    stage: Stage,
    index: nat,
    stages: Seq<Stage>,
    counts: Seq<(Seq<char>, usize)>,
    result: StageResult,
)
    requires
        stage.transitions is None,
    ensures
        ({
            let out = plan(stage, index, stages, counts, result);
            &&& index + 1 >= stages.len() ==> out is Terminal
            &&& index + 1 < stages.len() ==> {
                &&& out is Follow
                &&& out->index == index + 1
                &&& out->edge.target == stages[index as int + 1].name@
                &&& out->edge.transform is Direct
            }
        }),
{
}

/// Where a plan leads: nowhere from the end; along the edge that it follows; and where a model
/// is asked, along the edge that its answer picks, to that edge's target, or nowhere where it
/// picks none or gave no answer.
pub proof fn law_plan_is_followed(
    decided: TransitionPlanView,
    allow_complete: bool,
    stages: Seq<Stage>,
    answer: Option<Seq<char>>,
)
    ensures
        ({
            let out = resolved(decided, allow_complete, stages, answer);
            &&& decided is Terminal ==> out is None
            &&& decided is Follow ==> out == Some((decided->edge, decided->index))
            &&& decided is Ask && answer is None ==> out is None
            &&& decided is Ask && answer is Some ==> {
                let edge = answered(allow_complete, decided->edges, answer->0);
                &&& out is Some <==> edge is Some
                &&& edge is Some ==> out == Some(
                    (edge->0, target_index(stages, edge->0.target)),
                )
            }
        }),
{
}

/// Whether an answer names an edge: it is the edge's name, but for upper and lower case, or
/// the name stands in it.
pub open spec fn names_edge(choice: Seq<char>, edge: NamedEdgeView) -> bool {
    same_ignoring_ascii_case(choice, edge.0) || occurs_in(choice, edge.0)
}

/// An answer picks the first edge that it names; where it names none, the first whose name
/// stands in it in lower case; where there is none of those, the first edge. Only an answer of
/// `done`, where the stage may end the run, picks none.
pub proof fn law_answer_picks_the_edge_it_names(
    allow_complete: bool,
    edges: Seq<NamedEdgeView>,
    response: Seq<char>,
    i: int,
)
    ensures
        ({
            let choice = trimmed(response);
            let low = crate::text::lowercase_of(choice);
            let done = allow_complete && same_ignoring_ascii_case(choice, "done"@);
            let out = answered(allow_complete, edges, response);
            &&& done ==> out is None
            &&& !done && 0 <= i < edges.len() && names_edge(choice, edges[i]) && (forall|j: int|
                0 <= j < i ==> !names_edge(choice, #[trigger] edges[j])) ==> out == Some(
                edges[i].1,
            )
            &&& !done && (forall|j: int|
                0 <= j < edges.len() ==> !names_edge(choice, #[trigger] edges[j])) ==> {
                &&& 0 <= i < edges.len() && occurs_in(
                    low,
                    crate::text::lowercase_of(edges[i].0),
                ) && (forall|j: int|
                    0 <= j < i ==> !occurs_in(
                        low,
                        crate::text::lowercase_of((#[trigger] edges[j]).0),
                    )) ==> out == Some(edges[i].1)
                &&& (forall|j: int|
                    0 <= j < edges.len() ==> !occurs_in(
                        low,
                        crate::text::lowercase_of((#[trigger] edges[j]).0),
                    )) && edges.len() > 0 ==> out == Some(edges[0].1)
            }
            &&& edges.len() == 0 ==> out is None
        }),
{
    let choice = trimmed(response);
    lemma_named_by(choice, edges, 0);
    lemma_mentioned_in(crate::text::lowercase_of(choice), super::lowered(edges), 0);
    let low = crate::text::lowercase_of(choice);
    assert forall|j: int| 0 <= j < edges.len() implies super::lowered(edges)[j]
        == crate::text::lowercase_of((#[trigger] edges[j]).0) by {}
    if let Some(k) = mentioned_in(low, super::lowered(edges), 0) {
        assert(occurs_in(low, crate::text::lowercase_of(edges[k].0)));
        if 0 <= i < k {
            assert(!occurs_in(low, super::lowered(edges)[i]));
        }
    }
    if let Some(k) = named_by(choice, edges, 0) {
        assert(names_edge(choice, edges[k]));
    }
}

/// The first edge that an answer names is found.
proof fn lemma_named_by(choice: Seq<char>, edges: Seq<NamedEdgeView>, from: int)
    requires
        0 <= from,
    ensures
        match named_by(choice, edges, from) {
            Some(i) => from <= i < edges.len() && names_edge(choice, edges[i]) && forall|j: int|
                from <= j < i ==> !names_edge(choice, #[trigger] edges[j]),
            None => forall|j: int|
                from <= j < edges.len() ==> !names_edge(choice, #[trigger] edges[j]),
        },
    decreases edges.len() - from,
{
    if from < edges.len() && !names_edge(choice, edges[from]) {
        lemma_named_by(choice, edges, from + 1);
    }
}

/// The first name that stands in an answer is found.
proof fn lemma_mentioned_in(choice: Seq<char>, names: Seq<Seq<char>>, from: int)
    requires
        0 <= from,
    ensures
        match mentioned_in(choice, names, from) {
            Some(i) => from <= i < names.len() && occurs_in(choice, names[i]) && forall|j: int|
                from <= j < i ==> !occurs_in(choice, #[trigger] names[j]),
            None => forall|j: int|
                from <= j < names.len() ==> !occurs_in(choice, #[trigger] names[j]),
        },
    decreases names.len() - from,
{
    if from < names.len() && !occurs_in(choice, names[from]) {
        lemma_mentioned_in(choice, names, from + 1);
    }
}

/// The question lists every edge on a line of its own, in order, with its hint where it has
/// one.
pub proof fn law_question_lists_every_edge(edges: Seq<NamedEdgeView>, edge: NamedEdgeView)
    ensures
        edge_lines(Seq::empty()) == Seq::<char>::empty(),
        edge.1.hint is Some ==> edge_lines(edges.push(edge)) == edge_lines(edges) + ("- "@ + edge.0
            + ": "@ + edge.1.hint->0 + "\n"@),
        edge.1.hint is None ==> edge_lines(edges.push(edge)) == edge_lines(edges) + ("- "@ + edge.0
            + "\n"@),
{
    assert(edges.push(edge).drop_last() =~= edges);
}

/// The question is the stage's own, where it has one, with the edges behind it; it offers to
/// end the run exactly where the stage may.
pub proof fn law_question_offers_the_edges(
    name: Seq<char>,
    custom: Option<Seq<char>>,
    allow_complete: bool,
    edges: Seq<NamedEdgeView>,
)
    ensures
        ({
            let text = transition_question(name, custom, allow_complete, edges);
            &&& custom is Some ==> (custom->0 + "\n\nAvailable transitions:\n"@ + edge_lines(
                edges,
            )).is_prefix_of(text)
            &&& custom is None ==> ("Stage '"@ + name
                + "' is complete. Available next stages:\n"@ + edge_lines(edges)).is_prefix_of(
                text,
            )
            &&& custom is Some && allow_complete ==> text == custom->0
                + "\n\nAvailable transitions:\n"@ + edge_lines(edges)
                + "\nRespond with ONLY the stage name you want to transition to, or ONLY the word DONE if no further stage is needed and the run should end here."@
            &&& custom is None && allow_complete ==> text == "Stage '"@ + name
                + "' is complete. Available next stages:\n"@ + edge_lines(edges)
                + "\nWhich stage should run next? Respond with ONLY the stage name, or ONLY the word DONE if no further stage is needed and the run should end here."@
            &&& custom is Some && !allow_complete ==> text == custom->0
                + "\n\nAvailable transitions:\n"@ + edge_lines(edges)
                + "\nRespond with ONLY the stage name you want to transition to, nothing else."@
            &&& custom is None && !allow_complete ==> text == "Stage '"@ + name
                + "' is complete. Available next stages:\n"@ + edge_lines(edges)
                + "\nWhich stage should run next? Respond with ONLY the stage name."@
        }),
{
    let text = transition_question(name, custom, allow_complete, edges);
    let a = if custom is Some {
        custom->0 + "\n\nAvailable transitions:\n"@ + edge_lines(edges)
    } else {
        "Stage '"@ + name + "' is complete. Available next stages:\n"@ + edge_lines(edges)
    };
    assert(text.take(a.len() as int) =~= a);
}

/// An answer to a transition may be as long as what is left of the window, and no longer than
/// its limit.
pub proof fn law_transition_answer_is_short(w: WindowView)
    ensures
        answer_budget(w) <= 256,
        w.current_tokens + answer_budget(w) <= w.max_tokens || answer_budget(w) == 0,
        answer_budget(w) == 256 || w.current_tokens + answer_budget(w) == w.max_tokens || (
        answer_budget(w) == 0 && w.current_tokens >= w.max_tokens),
{
}

/// The question and the model's choice stand at the end of the conversation, where there is
/// room for them, and nothing else changes.
pub proof fn law_question_and_choice_are_kept(w: WindowView, text: Seq<char>)
    ensures
        ({
            let asked = seq![
                (
                    "conversation"@,
                    EntryView {
                        kind: EntryKindView::UserMessage,
                        content: text,
                        tokens: tokens_of(text) + 1,
                        taint: TaintLevel::Public,
                    },
                ),
            ];
            has_room_for(w, asked) ==> holds_also(w, asked, with_user_message(w, text))
        }),
        ({
            let chosen = seq![
                (
                    "conversation"@,
                    EntryView {
                        kind: EntryKindView::AssistantTurn { tool_calls: Seq::empty() },
                        content: "Transitioning to: "@ + text,
                        tokens: tokens_of(text) + 1,
                        taint: TaintLevel::Public,
                    },
                ),
            ];
            has_room_for(w, chosen) ==> holds_also(w, chosen, with_choice(w, text))
        }),
{
    let asked: Seq<Addressed> = seq![
        (
            "conversation"@,
            EntryView {
                kind: EntryKindView::UserMessage,
                content: text,
                tokens: tokens_of(text) + 1,
                taint: TaintLevel::Public,
            },
        ),
    ];
    let chosen: Seq<Addressed> = seq![
        (
            "conversation"@,
            EntryView {
                kind: EntryKindView::AssistantTurn { tool_calls: Seq::empty() },
                content: "Transitioning to: "@ + text,
                tokens: tokens_of(text) + 1,
                taint: TaintLevel::Public,
            },
        ),
    ];
    reveal_with_fuel(all_offered, 2);
    assert(asked.drop_last() =~= Seq::empty());
    assert(chosen.drop_last() =~= Seq::empty());
    if has_room_for(w, asked) {
        lemma_all_offered(w, asked);
        assert(all_offered(w, asked) == with_user_message(w, text));
    }
    if has_room_for(w, chosen) {
        lemma_all_offered(w, chosen);
        assert(all_offered(w, chosen) == with_choice(w, text));
    }
}

/// How often a stage was visited is what is counted under its name, and never where nothing is.
pub proof fn law_visits_are_counted(counts: Seq<(Seq<char>, usize)>, name: Seq<char>, i: int)
    ensures
        (forall|j: int| 0 <= j < counts.len() ==> (#[trigger] counts[j]).0 != name) ==> visits(
            counts,
            name,
        ) == 0,
        0 <= i < counts.len() && counts[i].0 == name && (forall|j: int|
            0 <= j < i ==> (#[trigger] counts[j]).0 != name) ==> visits(counts, name)
            == counts[i].1,
{
    lemma_name_at(counts, name);
}

/// Whether there is room or not, a question and the choice that was made are offered to the
/// conversation.
pub proof fn law_question_and_choice_are_offered(w: WindowView, text: Seq<char>)
    ensures
        with_user_message(w, text) == w.offered(
            "conversation"@,
            EntryView {
                kind: EntryKindView::UserMessage,
                content: text,
                tokens: tokens_of(text) + 1,
                taint: TaintLevel::Public,
            },
        ),
        with_choice(w, text) == w.offered(
            "conversation"@,
            EntryView {
                kind: EntryKindView::AssistantTurn { tool_calls: Seq::empty() },
                content: "Transitioning to: "@ + text,
                tokens: tokens_of(text) + 1,
                taint: TaintLevel::Public,
            },
        ),
{
}

} // verus!
