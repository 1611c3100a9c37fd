//! What is put into an agent's window: the results of its tools, and the messages for it.

use super::{
    after_tools, delivered, limited, nudged, routed, sensitivity_of, tool_name_of, with_messages,
    with_tool_results, with_user_messages,
};
use crate::components::{AgentMessage, RoutingView, ToolCallView};
use crate::context::{
    lemma_region_at, public_entry, region_at, EntryKindView, EntryView, RegionView, TaintLevel,
    WindowView,
};
use crate::table::{lemma_name_at, NameTable};
use crate::text::{decimal, tokens_of};
use crate::world::AgentView;
use vstd::prelude::*;

verus! {

/// An entry with the name of the region it is meant for.
pub type Addressed = (Seq<char>, EntryView);

/// The entries that are meant for a region, in order.
pub open spec fn entries_for(log: Seq<Addressed>, name: Seq<char>) -> Seq<EntryView>
    decreases log.len(),
{
    if log.len() == 0 {
        Seq::empty()
    } else if log.last().0 == name {
        entries_for(log.drop_last(), name).push(log.last().1)
    } else {
        entries_for(log.drop_last(), name)
    }
}

/// The tokens of some entries together.
pub open spec fn log_tokens(log: Seq<Addressed>) -> nat
    decreases log.len(),
{
    if log.len() == 0 {
        0
    } else {
        log_tokens(log.drop_last()) + log.last().1.tokens
    }
}

/// Whether this is the first region of its name.
pub open spec fn is_first(regions: Seq<RegionView>, p: int) -> bool {
    &&& 0 <= p < regions.len()
    &&& forall|j: int| 0 <= j < p ==> (#[trigger] regions[j]).name != regions[p].name
}

/// Whether a window has a region for each of some entries, with room for all of them.
pub open spec fn has_room_for(w: WindowView, log: Seq<Addressed>) -> bool {
    forall|k: int|
        0 <= k < log.len() ==> exists|p: int|
            {
                &&& #[trigger] is_first(w.regions, p)
                &&& w.regions[p].name == (#[trigger] log[k]).0
                &&& w.regions[p].current_tokens + log_tokens(log) <= w.regions[p].max_tokens
            }
}

/// Whether a window is another with just these entries added: each behind what its region
/// held, in order, and nothing else in the regions changed but their token counts.
pub open spec fn holds_also(before: WindowView, log: Seq<Addressed>, after: WindowView) -> bool {
    &&& after.regions.len() == before.regions.len()
    &&& after.max_tokens == before.max_tokens
    &&& after.tracks_taint == before.tracks_taint
    &&& forall|p: int|
        0 <= p < before.regions.len() ==> {
            let was = before.regions[p];
            let now = #[trigger] after.regions[p];
            &&& now.name == was.name
            &&& now.kind == was.kind
            &&& now.max_tokens == was.max_tokens
            &&& now.content == was.content + if is_first(before.regions, p) {
                entries_for(log, was.name)
            } else {
                Seq::empty()
            }
        }
}

/// Where the first region of a name is.
proof fn lemma_first_region(regions: Seq<RegionView>, p: int)
    requires
        is_first(regions, p),
    ensures
        region_at(regions, regions[p].name) == Some(p),
{
    lemma_region_at(regions, regions[p].name);
}

/// The window after several entries were offered to it, one after the other.
pub open spec fn all_offered(w: WindowView, log: Seq<Addressed>) -> WindowView
    decreases log.len(),
{
    if log.len() == 0 {
        w
    } else {
        all_offered(w, log.drop_last()).offered(log.last().0, log.last().1)
    }
}

/// Fewer entries need no more room.
proof fn lemma_room_for_fewer(w: WindowView, log: Seq<Addressed>)
    requires
        log.len() > 0,
        has_room_for(w, log),
    ensures
        has_room_for(w, log.drop_last()),
{
    let front = log.drop_last();
    assert forall|k: int| 0 <= k < front.len() implies exists|p: int|
        {
            &&& #[trigger] is_first(w.regions, p)
            &&& w.regions[p].name == (#[trigger] front[k]).0
            &&& w.regions[p].current_tokens + log_tokens(front) <= w.regions[p].max_tokens
        } by {
        assert(front[k] == log[k]);
        let p = choose|p: int|
            {
                &&& #[trigger] is_first(w.regions, p)
                &&& w.regions[p].name == log[k].0
                &&& w.regions[p].current_tokens + log_tokens(log) <= w.regions[p].max_tokens
            };
        assert(is_first(w.regions, p));
    }
}

/// How the token count of a region grows with the entries that it gets.
pub proof fn lemma_all_offered(w: WindowView, log: Seq<Addressed>)
    requires
        has_room_for(w, log),
    ensures
        holds_also(w, log, all_offered(w, log)),
        forall|p: int|
            0 <= p < w.regions.len() ==> (#[trigger] all_offered(w, log).regions[p]).current_tokens
                <= w.regions[p].current_tokens + log_tokens(log),
    decreases log.len(),
{
    if log.len() > 0 {
        let front = log.drop_last();
        let (name, entry) = log.last();
        lemma_room_for_fewer(w, log);
        lemma_all_offered(w, front);
        let mid = all_offered(w, front);
        let after = all_offered(w, log);
        assert(log[log.len() - 1] == log.last());
        let at = choose|p: int|
            {
                &&& #[trigger] is_first(w.regions, p)
                &&& w.regions[p].name == name
                &&& w.regions[p].current_tokens + log_tokens(log) <= w.regions[p].max_tokens
            };
        assert(is_first(mid.regions, at)) by {
            assert forall|j: int| 0 <= j < at implies (#[trigger] mid.regions[j]).name
                != mid.regions[at].name by {
                assert(w.regions[j].name != w.regions[at].name);
            }
        }
        lemma_first_region(mid.regions, at);
        assert(mid.regions[at].current_tokens <= w.regions[at].current_tokens + log_tokens(front));
        assert(after.regions == mid.regions.update(at, mid.regions[at].with_entry(entry)));
        assert forall|p: int| 0 <= p < w.regions.len() implies (#[trigger] after.regions[p]).content
            == w.regions[p].content + if is_first(w.regions, p) {
            entries_for(log, w.regions[p].name)
        } else {
            Seq::empty()
        } by {
            assert(mid.regions[p].name == w.regions[p].name);
            if is_first(w.regions, p) && w.regions[p].name == name {
                if p < at {
                    assert(w.regions[p].name != w.regions[at].name);
                } else if at < p {
                    assert(w.regions[at].name != w.regions[p].name);
                }
                assert(p == at);
                assert(after.regions[p].content =~= w.regions[p].content + entries_for(
                    log,
                    name,
                ));
            } else {
                assert(p != at);
                assert(after.regions[p] == mid.regions[p]);
            }
        }
        assert forall|p: int| 0 <= p < w.regions.len() implies (
        #[trigger] after.regions[p]).current_tokens <= w.regions[p].current_tokens + log_tokens(
            log,
        ) by {
            assert(mid.regions[p].current_tokens <= w.regions[p].current_tokens + log_tokens(front));
        }
    } else {
        assert forall|p: int| 0 <= p < w.regions.len() implies (#[trigger] w.regions[p]).content
            == w.regions[p].content + if is_first(w.regions, p) {
            entries_for(log, w.regions[p].name)
        } else {
            Seq::empty()
        } by {
            assert(w.regions[p].content + Seq::<EntryView>::empty() =~= w.regions[p].content);
        }
    }
}

/// Offering some entries and more is offering them one after the other.
proof fn lemma_offered_more(w: WindowView, log: Seq<Addressed>, more: Seq<Addressed>)
    ensures
        all_offered(w, log + more) == all_offered(all_offered(w, log), more),
        log_tokens(log + more) == log_tokens(log) + log_tokens(more),
    decreases more.len(),
{
    if more.len() > 0 {
        assert((log + more).drop_last() =~= log + more.drop_last());
        lemma_offered_more(w, log, more.drop_last());
    } else {
        assert(log + more =~= log);
    }
}

/// The results of some tool calls as entries: one for each result, in order, with its id,
/// under the name of the tool that was called.
pub open spec fn results_log(
    w: WindowView,
    routing: Option<RoutingView>,
    sensitivities: Option<NameTable<TaintLevel>>,
    calls: Seq<ToolCallView>,
    results: Seq<(String, String)>,
) -> Seq<Addressed> {
    Seq::new(
        results.len(),
        |i: int|
            {
                let id = results[i].0@;
                let text = limited(routing, results[i].1@);
                let tool = tool_name_of(calls, id);
                (
                    routed(routing, w, tool),
                    EntryView {
                        kind: EntryKindView::ToolResult {
                            tool_call_id: id,
                            tool_name: tool,
                            is_error: false,
                        },
                        content: text,
                        tokens: tokens_of(text) + 1,
                        taint: sensitivity_of(sensitivities, tool),
                    },
                )
            },
    )
}

/// Several messages of the user's as entries of the conversation.
pub open spec fn said(messages: Seq<String>) -> Seq<Addressed> {
    Seq::new(
        messages.len(),
        |i: int|
            (
                "conversation"@,
                public_entry(
                    EntryKindView::UserMessage,
                    messages[i]@,
                    tokens_of(messages[i]@) + 1,
                ),
            ),
    )
}

/// A turn of the assistant's as an entry of the conversation.
pub open spec fn turn(content: Seq<char>, calls: Seq<ToolCallView>) -> Addressed {
    (
        "conversation"@,
        public_entry(
            EntryKindView::AssistantTurn { tool_calls: calls },
            content,
            tokens_of(content),
        ),
    )
}

/// Offering entries leaves the names of the regions as they were.
proof fn lemma_names_stay(w: WindowView, log: Seq<Addressed>)
    ensures
        all_offered(w, log).regions.len() == w.regions.len(),
        forall|p: int|
            0 <= p < w.regions.len() ==> (#[trigger] all_offered(w, log).regions[p]).name
                == w.regions[p].name,
        forall|name: Seq<char>| #[trigger]
            all_offered(w, log).has_region(name) == w.has_region(name),
    decreases log.len(),
{
    if log.len() > 0 {
        lemma_names_stay(w, log.drop_last());
        lemma_region_at(all_offered(w, log.drop_last()).regions, log.last().0);
    }
    let after = all_offered(w, log);
    assert forall|name: Seq<char>| #[trigger] after.has_region(name) == w.has_region(name) by {
        lemma_region_at(after.regions, name);
        lemma_region_at(w.regions, name);
        if let Some(i) = region_at(after.regions, name) {
            assert(after.regions[i].name == w.regions[i].name);
        }
        if let Some(i) = region_at(w.regions, name) {
            assert(after.regions[i].name == w.regions[i].name);
        }
    }
}

/// Results with room for them are offered whole.
proof fn lemma_results_offered(
    w: WindowView,
    before: Seq<Addressed>,
    routing: Option<RoutingView>,
    sensitivities: Option<NameTable<TaintLevel>>,
    calls: Seq<ToolCallView>,
    results: Seq<(String, String)>,
)
    requires
        has_room_for(w, before + results_log(w, routing, sensitivities, calls, results)),
    ensures
        with_tool_results(all_offered(w, before), routing, sensitivities, calls, results)
            == all_offered(
            w,
            before + results_log(w, routing, sensitivities, calls, results),
        ),
    decreases results.len(),
{
    let log = results_log(w, routing, sensitivities, calls, results);
    let all = before + log;
    if results.len() > 0 {
        let front = results.drop_last();
        let less = results_log(w, routing, sensitivities, calls, front);
        assert(log.drop_last() =~= less);
        assert(all.drop_last() =~= before + less);
        lemma_room_for_fewer(w, all);
        lemma_results_offered(w, before, routing, sensitivities, calls, front);
        let mid = all_offered(w, before + less);
        let tool = tool_name_of(calls, results.last().0@);
        lemma_names_stay(w, before + less);
        assert(mid.has_region("scratch"@) == w.has_region("scratch"@));
        assert(routed(routing, mid, tool) == routed(routing, w, tool));
        let (name, entry) = all.last();
        assert(all.last() == log.last());
        assert(log.last() == log[results.len() - 1]);
        lemma_all_offered(w, before + less);
        assert(all[all.len() - 1] == all.last());
        let at = choose|p: int|
            {
                &&& #[trigger] is_first(w.regions, p)
                &&& w.regions[p].name == name
                &&& w.regions[p].current_tokens + log_tokens(all) <= w.regions[p].max_tokens
            };
        assert(is_first(mid.regions, at)) by {
            assert forall|j: int| 0 <= j < at implies (#[trigger] mid.regions[j]).name
                != mid.regions[at].name by {
                assert(w.regions[j].name != w.regions[at].name);
            }
        }
        lemma_first_region(mid.regions, at);
        assert(mid.regions[at].current_tokens <= w.regions[at].current_tokens + log_tokens(
            before + less,
        ));
        assert(mid.regions[at].fits(entry.tokens));
        assert(mid.adding(name, entry) is Ok);
    } else {
        assert(all =~= before);
    }
}

/// Messages of the user's are offered one after the other.
proof fn lemma_said(w: WindowView, messages: Seq<String>)
    ensures
        with_user_messages(w, messages) == all_offered(w, said(messages)),
    decreases messages.len(),
{
    if messages.len() > 0 {
        assert(said(messages).drop_last() =~= said(messages.drop_last()));
        lemma_said(w, messages.drop_last());
    }
}

/// What a batch of tool calls puts into a window that has room for it: the turn that made the
/// calls, one entry for each result with the id of its call, in order and whatever its text
/// is, and the nudges behind them. Nothing else is added, and nothing is lost.
pub proof fn law_every_tool_result_is_put_in(
    w: WindowView,
    routing: Option<RoutingView>,
    sensitivities: Option<NameTable<TaintLevel>>,
    content: Seq<char>,
    calls: Seq<ToolCallView>,
    results: Seq<(String, String)>,
    nudges: Seq<String>,
)
    requires
        has_room_for(
            w,
            seq![turn(content, calls)] + results_log(w, routing, sensitivities, calls, results)
                + said(nudges),
        ),
    ensures
        holds_also(
            w,
            seq![turn(content, calls)] + results_log(w, routing, sensitivities, calls, results)
                + said(nudges),
            after_tools(w, routing, sensitivities, content, calls, results, nudges),
        ),
{
    let first = seq![turn(content, calls)];
    let log = results_log(w, routing, sensitivities, calls, results);
    let more = said(nudges);
    let all = first + log + more;
    assert(first.drop_last() =~= Seq::empty());
    assert(all_offered(w, first.drop_last()) == w);
    assert(all_offered(w, first) == w.offered(first.last().0, first.last().1));
    lemma_room_for_part(w, first + log, more);
    lemma_results_offered(w, first, routing, sensitivities, calls, results);
    let mid = all_offered(w, first + log);
    lemma_said(mid, nudges);
    lemma_offered_more(w, first + log, more);
    lemma_all_offered(w, all);
    assert(after_tools(w, routing, sensitivities, content, calls, results, nudges) == all_offered(
        w,
        all,
    ));
}

/// A first part of some entries needs no more room.
proof fn lemma_room_for_part(w: WindowView, log: Seq<Addressed>, more: Seq<Addressed>)
    requires
        has_room_for(w, log + more),
    ensures
        has_room_for(w, log),
    decreases more.len(),
{
    if more.len() > 0 {
        assert((log + more).drop_last() =~= log + more.drop_last());
        lemma_room_for_fewer(w, log + more);
        lemma_room_for_part(w, log, more.drop_last());
    } else {
        assert(log + more =~= log);
    }
}

/// Without a routing, a window with room for them has the results at the end of the
/// conversation, behind the turn that called for them and ahead of the nudges: as many as
/// there are, in order, each whole and under the id of its call.
pub proof fn law_unrouted_results_end_the_conversation(
    w: WindowView,
    content: Seq<char>,
    calls: Seq<ToolCallView>,
    results: Seq<(String, String)>,
    nudges: Seq<String>,
    p: int,
)
    requires
        is_first(w.regions, p),
        w.regions[p].name == "conversation"@,
        w.regions[p].current_tokens + log_tokens(
            seq![turn(content, calls)] + results_log(w, None, None, calls, results) + said(nudges),
        ) <= w.regions[p].max_tokens,
    ensures
        ({
            let before = w.regions[p].content;
            let after = after_tools(w, None, None, content, calls, results, nudges);
            let now = after.regions[p].content;
            &&& now.len() == before.len() + 1 + results.len() + nudges.len()
            &&& now.take(before.len() as int) == before
            &&& now[before.len() as int].kind == (EntryKindView::AssistantTurn {
                tool_calls: calls,
            })
            &&& now[before.len() as int].content == content
            &&& forall|i: int|
                0 <= i < results.len() ==> {
                    let entry = #[trigger] now[before.len() + 1 + i];
                    &&& entry.kind is ToolResult
                    &&& entry.kind->tool_call_id == results[i].0@
                    &&& entry.content == results[i].1@
                }
            &&& forall|i: int|
                0 <= i < nudges.len() ==> {
                    let entry = #[trigger] now[before.len() + 1 + results.len() + i];
                    &&& entry.kind is UserMessage
                    &&& entry.content == nudges[i]@
                }
            &&& forall|q: int|
                0 <= q < w.regions.len() && q != p ==> (#[trigger] after.regions[q]).content
                    == w.regions[q].content
        }),
{
    let log = results_log(w, None, None, calls, results);
    let all = seq![turn(content, calls)] + log + said(nudges);
    assert forall|k: int| 0 <= k < all.len() implies (#[trigger] all[k]).0 == "conversation"@ by {
        if k == 0 {
        } else if k < 1 + log.len() {
            assert(all[k] == log[k - 1]);
        } else {
            assert(all[k] == said(nudges)[k - 1 - log.len()]);
        }
    }
    assert forall|k: int| 0 <= k < all.len() implies exists|p: int|
        {
            &&& #[trigger] is_first(w.regions, p)
            &&& w.regions[p].name == (#[trigger] all[k]).0
            &&& w.regions[p].current_tokens + log_tokens(all) <= w.regions[p].max_tokens
        } by {
        assert(is_first(w.regions, p));
    }
    law_every_tool_result_is_put_in(w, None, None, content, calls, results, nudges);
    lemma_all_for(all, "conversation"@);
    let before = w.regions[p].content;
    let after = after_tools(w, None, None, content, calls, results, nudges);
    let now = after.regions[p].content;
    assert(now == before + entries_for(all, "conversation"@));
    assert(now.take(before.len() as int) =~= before);
    assert forall|i: int| 0 <= i < results.len() implies ({
        let entry = #[trigger] now[before.len() + 1 + i];
        entry.kind is ToolResult && entry.kind->tool_call_id == results[i].0@ && entry.content
            == results[i].1@
    }) by {
        assert(all[1 + i] == log[i]);
    }
    assert forall|i: int| 0 <= i < nudges.len() implies ({
        let entry = #[trigger] now[before.len() + 1 + results.len() + i];
        entry.kind is UserMessage && entry.content == nudges[i]@
    }) by {
        assert(all[1 + log.len() + i] == said(nudges)[i]);
    }
    assert(all[0] == turn(content, calls));
    assert forall|q: int| 0 <= q < w.regions.len() && q != p implies (
    #[trigger] after.regions[q]).content == w.regions[q].content by {
        if is_first(w.regions, q) {
            if q < p {
                assert(w.regions[q].name != w.regions[p].name);
            } else {
                assert(w.regions[p].name != w.regions[q].name);
            }
            lemma_none_for(all, "conversation"@, w.regions[q].name);
        }
        assert(w.regions[q].content + Seq::<EntryView>::empty() =~= w.regions[q].content);
    }
}

/// Entries that are all meant for one region are its entries.
proof fn lemma_all_for(log: Seq<Addressed>, name: Seq<char>)
    requires
        forall|k: int| 0 <= k < log.len() ==> (#[trigger] log[k]).0 == name,
    ensures
        entries_for(log, name).len() == log.len(),
        forall|k: int| 0 <= k < log.len() ==> entries_for(log, name)[k] == (#[trigger] log[k]).1,
    decreases log.len(),
{
    if log.len() > 0 {
        let front = log.drop_last();
        assert forall|k: int| 0 <= k < front.len() implies (#[trigger] front[k]).0 == name by {
            assert(log[k] == front[k]);
        }
        lemma_all_for(front, name);
        assert(log[log.len() - 1] == log.last());
        assert forall|k: int| 0 <= k < log.len() implies entries_for(log, name)[k] == (
        #[trigger] log[k]).1 by {
            if k < front.len() {
                assert(front[k] == log[k]);
            }
        }
    }
}

/// Entries that are all meant for one region are none of another's.
proof fn lemma_none_for(log: Seq<Addressed>, name: Seq<char>, other: Seq<char>)
    requires
        forall|k: int| 0 <= k < log.len() ==> (#[trigger] log[k]).0 == name,
        other != name,
    ensures
        entries_for(log, other) == Seq::<EntryView>::empty(),
    decreases log.len(),
{
    if log.len() > 0 {
        let front = log.drop_last();
        assert forall|k: int| 0 <= k < front.len() implies (#[trigger] front[k]).0 == name by {
            assert(log[k] == front[k]);
        }
        lemma_none_for(front, name, other);
        assert(log[log.len() - 1] == log.last());
    }
}

/// Each further result adds one entry for its call, as long as the region it goes to has
/// room for a placeholder: the whole text where it fits, and something in its place where it
/// does not. No other region is touched.
pub proof fn law_each_result_adds_one_entry(
    w: WindowView,
    routing: Option<RoutingView>,
    sensitivities: Option<NameTable<TaintLevel>>,
    calls: Seq<ToolCallView>,
    results: Seq<(String, String)>,
    k: int,
    p: int,
)
    requires
        0 <= k < results.len(),
        ({
            let before = with_tool_results(w, routing, sensitivities, calls, results.take(k));
            let tool = tool_name_of(calls, results[k].0@);
            &&& is_first(before.regions, p)
            &&& before.regions[p].name == routed(routing, before, tool)
            &&& before.regions[p].current_tokens + 5 <= before.regions[p].max_tokens
        }),
    ensures
        ({
            let before = with_tool_results(w, routing, sensitivities, calls, results.take(k));
            let after = with_tool_results(w, routing, sensitivities, calls, results.take(k + 1));
            let tool = tool_name_of(calls, results[k].0@);
            let text = limited(routing, results[k].1@);
            let room = before.regions[p].max_tokens - before.regions[p].current_tokens;
            let was = before.regions[p].content;
            let now = after.regions[p].content;
            &&& after.regions.len() == before.regions.len()
            &&& now.len() == was.len() + 1
            &&& now.drop_last() == was
            &&& now.last().kind == (EntryKindView::ToolResult {
                tool_call_id: results[k].0@,
                tool_name: tool,
                is_error: false,
            })
            &&& now.last().taint == sensitivity_of(sensitivities, tool)
            &&& tokens_of(text) + 1 <= room ==> now.last().content == text
            &&& tokens_of(text) + 1 > room && room <= 100 ==> now.last().content
                == "[tool result truncated — context window full]"@ || now.last().content
                == "[result omitted]"@
            &&& tokens_of(text) + 1 > room && room > 100 ==> now.last().content
                == "[result omitted]"@ || text.take(
                if (room - 10) * 4 <= text.len() {
                    (room - 10) * 4
                } else {
                    text.len() as int
                },
            ).is_prefix_of(now.last().content)
            &&& after.regions[p].current_tokens <= after.regions[p].max_tokens
            &&& forall|q: int|
                0 <= q < before.regions.len() && q != p ==> #[trigger] after.regions[q]
                    == before.regions[q]
        }),
{
    let before = with_tool_results(w, routing, sensitivities, calls, results.take(k));
    let after = with_tool_results(w, routing, sensitivities, calls, results.take(k + 1));
    let tool = tool_name_of(calls, results[k].0@);
    let text = limited(routing, results[k].1@);
    let room = (before.regions[p].max_tokens - before.regions[p].current_tokens) as nat;
    assert(results.take(k + 1).drop_last() =~= results.take(k));
    lemma_first_region(before.regions, p);
    let short = super::shortened(text, room);
    if room > 100 {
        let kept = crate::text::prefix(text, ((room - 10) * 4) as nat);
        assert(text.take(text.len() as int) =~= text);
        assert(kept.is_prefix_of(short));
    }
    assert(after.regions[p].content.drop_last() =~= before.regions[p].content);
}

/// A result is kept as it is, unless its routing sets a limit that it is longer than: what is
/// kept of it is its beginning, with a mark behind it.
pub proof fn law_results_are_cut_only_above_a_limit(routing: Option<RoutingView>, text: Seq<char>)
    ensures
        routing is None ==> limited(routing, text) == text,
        routing is Some && routing->0.max_result_tokens is None ==> limited(routing, text) == text,
        routing is Some && routing->0.max_result_tokens is Some ==> {
            let most = routing->0.max_result_tokens->0 * 4;
            let bytes = vstd::utf8::encode_utf8(text).len();
            let kept = limited(routing, text);
            &&& bytes <= most ==> kept == text
            &&& bytes > most && text.len() >= most ==> kept == text.take(most)
                + "\n[...truncated]"@
            &&& bytes > most && text.len() < most ==> kept == text + "\n[...truncated]"@
        },
{
}

/// Where a tool's results go: into the conversation without a routing; else to the tool's own
/// region, or the default one where it has none, but into the scratch region where results
/// are not kept and there is one.
pub proof fn law_results_go_where_they_are_routed(
    r: RoutingView,
    w: WindowView,
    tool: Seq<char>,
)
    ensures
        routed(None, w, tool) == "conversation"@,
        ({
            let scratch = exists|i: int|
                0 <= i < w.regions.len() && (#[trigger] w.regions[i]).name == "scratch"@;
            &&& !r.persist && scratch ==> routed(Some(r), w, tool) == "scratch"@
            &&& r.persist || !scratch ==> {
                &&& (forall|i: int|
                    0 <= i < r.tool_overrides.len() ==> (#[trigger] r.tool_overrides[i]).0 != tool)
                    ==> routed(Some(r), w, tool) == r.default_region
                &&& forall|i: int|
                    0 <= i < r.tool_overrides.len() && (#[trigger] r.tool_overrides[i]).0 == tool
                        && (forall|j: int|
                        0 <= j < i ==> (#[trigger] r.tool_overrides[j]).0 != tool) ==> routed(
                        Some(r),
                        w,
                        tool,
                    ) == r.tool_overrides[i].1
            }
        }),
{
    lemma_region_at(w.regions, "scratch"@);
    lemma_name_at(r.tool_overrides, tool);
}

/// A result belongs to the first call with its id.
pub proof fn law_result_belongs_to_its_call(calls: Seq<ToolCallView>, id: Seq<char>, i: int)
    requires
        0 <= i < calls.len(),
        calls[i].id == id,
        forall|j: int| 0 <= j < i ==> (#[trigger] calls[j]).id != id,
    ensures
        tool_name_of(calls, id) == calls[i].name,
    decreases calls.len(),
{
    if i > 0 {
        assert(calls[0].id != id);
        let rest = calls.skip(1);
        assert forall|j: int| 0 <= j < i - 1 implies (#[trigger] rest[j]).id != id by {
            assert(rest[j] == calls[j + 1]);
        }
        assert(rest[i - 1] == calls[i]);
        law_result_belongs_to_its_call(rest, id, i - 1);
    }
}

/// What a tool gives is as sensitive as the tool, where that is tracked, and public where it
/// is not.
pub proof fn law_result_is_as_sensitive_as_its_tool(
    levels: NameTable<TaintLevel>,
    tool: Seq<char>,
    i: int,
)
    ensures
        sensitivity_of(None, tool) == TaintLevel::Public,
        (forall|j: int| 0 <= j < levels@.len() ==> (#[trigger] levels@[j]).0 != tool)
            ==> sensitivity_of(Some(levels), tool) == TaintLevel::Public,
        0 <= i < levels@.len() && levels@[i].0 == tool && (forall|j: int|
            0 <= j < i ==> (#[trigger] levels@[j]).0 != tool) ==> sensitivity_of(
            Some(levels),
            tool,
        ) == levels@[i].1,
{
    lemma_name_at(levels@, tool);
}

/// Messages as entries of the regions they are meant for: each where it says, and in the
/// conversation where it does not say.
pub open spec fn messages_log(messages: Seq<AgentMessage>) -> Seq<Addressed> {
    Seq::new(
        messages.len(),
        |i: int|
            (
                match messages[i].target_region {
                    Some(region) => region@,
                    None => "conversation"@,
                },
                EntryView {
                    kind: EntryKindView::UserMessage,
                    content: messages[i].content@,
                    tokens: tokens_of(messages[i].content@) + 1,
                    taint: TaintLevel::Public,
                },
            ),
    )
}

/// Messages are offered one after the other.
proof fn lemma_messages_offered(w: WindowView, messages: Seq<AgentMessage>)
    ensures
        with_messages(w, messages) == all_offered(w, messages_log(messages)),
    decreases messages.len(),
{
    if messages.len() > 0 {
        assert(messages_log(messages).drop_last() =~= messages_log(messages.drop_last()));
        lemma_messages_offered(w, messages.drop_last());
    }
}

/// An agent whose stage takes messages gets every one of them, in order, into the region it
/// is meant for, where that has room; and nothing else about the agent changes.
pub proof fn law_every_message_is_delivered(agent: AgentView)
    requires
        agent.state.accepts_messages,
        agent.inbox is Some,
        agent.window is Some,
        has_room_for(agent.window->0, messages_log(agent.inbox->0)),
    ensures
        delivered(agent).window is Some,
        holds_also(
            agent.window->0,
            messages_log(agent.inbox->0),
            delivered(agent).window->0,
        ),
        delivered(agent).inbox == Some(Seq::<AgentMessage>::empty()),
        (AgentView { window: agent.window, inbox: agent.inbox, ..delivered(agent) }) == agent,
{
    lemma_messages_offered(agent.window->0, agent.inbox->0);
    lemma_all_offered(agent.window->0, messages_log(agent.inbox->0));
}

/// A nudge puts what the model said into the conversation, as a turn without tool calls, and
/// the call to use its tools behind it.
pub proof fn law_nudge_follows_what_was_said(w: WindowView, content: Seq<char>)
    requires
        has_room_for(w, nudge_log(content)),
    ensures
        holds_also(w, nudge_log(content), nudged(w, content)),
{
    let log = nudge_log(content);
    lemma_all_offered(w, log);
    assert(log.drop_last() =~= seq![log[0]]);
    assert(log.drop_last().drop_last() =~= Seq::empty());
    reveal_with_fuel(all_offered, 3);
    assert(all_offered(w, log) == nudged(w, content));
}

/// What a model that only talks puts into the conversation.
pub open spec fn nudge_log(content: Seq<char>) -> Seq<Addressed> {
    seq![
        (
            "conversation"@,
            EntryView {
                kind: EntryKindView::AssistantTurn { tool_calls: Seq::empty() },
                content,
                tokens: tokens_of(content) + 1,
                taint: TaintLevel::Public,
            },
        ),
        (
            "conversation"@,
            EntryView {
                kind: EntryKindView::UserMessage,
                content: "You have tools available. Please use them to complete the task. Start by reading the relevant files in the working directory."@,
                tokens: tokens_of("You have tools available. Please use them to complete the task. Start by reading the relevant files in the working directory."@) + 1,
                taint: TaintLevel::Public,
            },
        ),
    ]
}

/// The beginning of a text that may be kept where there is room for so many tokens.
pub open spec fn kept_of(text: Seq<char>, room: int) -> Seq<char> {
    text.take(
        if (room - 10) * 4 <= text.len() {
            (room - 10) * 4
        } else {
            text.len() as int
        },
    )
}

/// What stands for a result that does not fit whole: with room for more than a hundred tokens
/// its beginning and how many bytes are missing, else a remark; with no room for either a
/// placeholder of five tokens, and with no room for that nothing at all.
pub proof fn law_result_that_does_not_fit_is_shortened(
    w: WindowView,
    routing: Option<RoutingView>,
    sensitivities: Option<NameTable<TaintLevel>>,
    calls: Seq<ToolCallView>,
    results: Seq<(String, String)>,
    id: String,
    result: String,
    p: int,
)
    requires
        ({
            let before = with_tool_results(w, routing, sensitivities, calls, results);
            let text = limited(routing, result@);
            &&& is_first(before.regions, p)
            &&& before.regions[p].name == routed(routing, before, tool_name_of(calls, id@))
            &&& before.regions[p].current_tokens <= before.regions[p].max_tokens
            &&& before.regions[p].current_tokens + tokens_of(text) + 1
                > before.regions[p].max_tokens
        }),
    ensures
        ({
            let before = with_tool_results(w, routing, sensitivities, calls, results);
            let after = with_tool_results(
                w,
                routing,
                sensitivities,
                calls,
                results.push((id, result)),
            );
            let text = limited(routing, result@);
            let room = before.regions[p].max_tokens - before.regions[p].current_tokens;
            let missing = vstd::utf8::encode_utf8(text).len() - vstd::utf8::encode_utf8(
                kept_of(text, room),
            ).len();
            let short = if room > 100 {
                kept_of(text, room) + "... [truncated, "@ + decimal(missing as nat)
                    + " chars omitted]"@
            } else {
                "[tool result truncated — context window full]"@
            };
            let last = after.regions[p].content.last();
            &&& tokens_of(short) + 1 <= room ==> after.regions[p].content.len()
                == before.regions[p].content.len() + 1 && last.content == short && last.tokens
                == tokens_of(short) + 1
            &&& tokens_of(short) + 1 > room && 5 <= room ==> after.regions[p].content.len()
                == before.regions[p].content.len() + 1 && last.content == "[result omitted]"@
                && last.tokens == 5
            &&& tokens_of(short) + 1 > room && room < 5 ==> after == before
        }),
{
    let before = with_tool_results(w, routing, sensitivities, calls, results);
    let text = limited(routing, result@);
    let room = (before.regions[p].max_tokens - before.regions[p].current_tokens) as nat;
    lemma_first_region(before.regions, p);
    assert(results.push((id, result)).drop_last() =~= results);
    if room > 100 {
        assert(text.take(text.len() as int) =~= text);
        assert(crate::text::prefix(text, ((room - 10) * 4) as nat) =~= kept_of(text, room as int));
    }
}

/// A result for a region that is not there leaves the window as it is.
pub proof fn law_result_needs_its_region(
    w: WindowView,
    routing: Option<RoutingView>,
    sensitivities: Option<NameTable<TaintLevel>>,
    calls: Seq<ToolCallView>,
    results: Seq<(String, String)>,
    id: String,
    result: String,
)
    requires
        ({
            let before = with_tool_results(w, routing, sensitivities, calls, results);
            forall|p: int|
                0 <= p < before.regions.len() ==> (#[trigger] before.regions[p]).name != routed(
                    routing,
                    before,
                    tool_name_of(calls, id@),
                )
        }),
    ensures
        with_tool_results(w, routing, sensitivities, calls, results.push((id, result)))
            == with_tool_results(w, routing, sensitivities, calls, results),
{
    let before = with_tool_results(w, routing, sensitivities, calls, results);
    lemma_region_at(before.regions, routed(routing, before, tool_name_of(calls, id@)));
    assert(results.push((id, result)).drop_last() =~= results);
}

/// A result whose id belongs to no call is under no tool's name.
pub proof fn law_result_of_no_call_has_no_tool(calls: Seq<ToolCallView>, id: Seq<char>)
    requires
        forall|j: int| 0 <= j < calls.len() ==> (#[trigger] calls[j]).id != id,
    ensures
        tool_name_of(calls, id).len() == 0,
    decreases calls.len(),
{
    if calls.len() > 0 {
        let rest = calls.skip(1);
        assert forall|j: int| 0 <= j < rest.len() implies (#[trigger] rest[j]).id != id by {
            assert(rest[j] == calls[j + 1]);
        }
        assert(calls[0].id != id);
        law_result_of_no_call_has_no_tool(rest, id);
    }
}

/// Whether there is room or not, the turn that made the calls is offered to the conversation
/// first; each further nudge is offered to it behind all that is there.
pub proof fn law_turn_comes_first_and_nudges_last(
    w: WindowView,
    routing: Option<RoutingView>,
    sensitivities: Option<NameTable<TaintLevel>>,
    content: Seq<char>,
    calls: Seq<ToolCallView>,
    results: Seq<(String, String)>,
    nudges: Seq<String>,
    nudge: String,
)
    ensures
        after_tools(w, routing, sensitivities, content, calls, Seq::empty(), Seq::empty())
            == w.offered(
            "conversation"@,
            EntryView {
                kind: EntryKindView::AssistantTurn { tool_calls: calls },
                content,
                tokens: tokens_of(content),
                taint: TaintLevel::Public,
            },
        ),
        after_tools(w, routing, sensitivities, content, calls, results, nudges.push(nudge))
            == after_tools(w, routing, sensitivities, content, calls, results, nudges).offered(
            "conversation"@,
            EntryView {
                kind: EntryKindView::UserMessage,
                content: nudge@,
                tokens: tokens_of(nudge@) + 1,
                taint: TaintLevel::Public,
            },
        ),
        after_tools(w, routing, sensitivities, content, calls, results, Seq::empty())
            == with_tool_results(
            after_tools(w, routing, sensitivities, content, calls, Seq::empty(), Seq::empty()),
            routing,
            sensitivities,
            calls,
            results,
        ),
{
    assert(nudges.push(nudge).drop_last() =~= nudges);
}

/// Whether there is room or not, each further message is offered to its region behind all
/// that is there.
pub proof fn law_messages_are_offered_in_order(
    w: WindowView,
    messages: Seq<AgentMessage>,
    msg: AgentMessage,
)
    ensures
        with_messages(w, Seq::empty()) == w,
        with_messages(w, messages.push(msg)) == with_messages(w, messages).offered(
            if msg.target_region is Some {
                msg.target_region->0@
            } else {
                "conversation"@
            },
            EntryView {
                kind: EntryKindView::UserMessage,
                content: msg.content@,
                tokens: tokens_of(msg.content@) + 1,
                taint: TaintLevel::Public,
            },
        ),
{
    assert(messages.push(msg).drop_last() =~= messages);
}

} // verus!
