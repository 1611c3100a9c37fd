//! Fan-out stages.

use vstd::prelude::*;

pub mod answers;
pub mod collect;
pub mod laws;
pub mod passes;
pub mod split;
pub mod split_parse;

pub use collect::{
    fan_out_collect, finish_fan_out, link_worker, slim_merged_workers, start_worker,
    worker_requires_output, worker_terminal_result, FanOutSpawner, NewWorker,
};
pub use split::fan_out_split;
pub use split_parse::WorkItem;

use crate::blueprint::FanOutConfig;
use crate::components::Entity;
use crate::context::{public_entry, ContextWindow, EntryKind, EntryKindView, WindowView};
use crate::text::{
    byte_count, byte_len, decimal, decimal_text, estimate_tokens, fitting, lemma_byte_count_concat,
    lemma_fitting, lemma_prefix_bytes, occurs_at, occurs_in, take_chars, tokens_of, trim, trimmed,
    truncate_at_boundary,
};
use crate::world::{agent_at, Agent, AgentView, World};
use split_parse::{item_views, outermost_array, outermost_brackets, WorkItemView};
use std::collections::VecDeque;

verus! {

/// A fan-out worker that is running.
pub struct ActiveWorker {
    pub item_id: String,
    pub entity: Entity,
    pub run_id: String,
}

/// The model of an [`ActiveWorker`].
pub struct ActiveWorkerView {
    pub item_id: Seq<char>,
    pub entity: Entity,
    pub run_id: Seq<char>,
}

impl View for ActiveWorker {
    type V = ActiveWorkerView;

    open spec fn view(&self) -> ActiveWorkerView {
        ActiveWorkerView { item_id: self.item_id@, entity: self.entity, run_id: self.run_id@ }
    }
}

/// The models of several workers.
pub open spec fn worker_views(workers: Seq<ActiveWorker>) -> Seq<ActiveWorkerView> {
    Seq::new(workers.len(), |i: int| workers[i]@)
}

/// A parent parked while its fan-out workers run.
pub struct FanOutWaiting {
    pub config: FanOutConfig,
    /// How many workers may run at once; the largest number there is for no limit.
    pub max_workers: usize,
    /// The work items not yet started, first in line first.
    pub pending: VecDeque<WorkItem>,
    /// The workers that are running.
    pub active: Vec<ActiveWorker>,
    /// What each finished worker handed in, by item id.
    pub summaries: Vec<(String, String)>,
    /// Why each failed worker failed, by item id.
    pub failures: Vec<(String, String)>,
}

/// Two strings as texts.
pub open spec fn pair_views(v: Seq<(String, String)>) -> Seq<(Seq<char>, Seq<char>)> {
    Seq::new(v.len(), |i: int| (v[i].0@, v[i].1@))
}

/// The model of a [`FanOutWaiting`].
pub struct FanOutWaitingView {
    pub config: FanOutConfig,
    pub max_workers: nat,
    pub pending: Seq<WorkItemView>,
    pub active: Seq<ActiveWorkerView>,
    pub summaries: Seq<(Seq<char>, Seq<char>)>,
    pub failures: Seq<(Seq<char>, Seq<char>)>,
}

impl View for FanOutWaiting {
    type V = FanOutWaitingView;

    open spec fn view(&self) -> FanOutWaitingView {
        FanOutWaitingView {
            config: self.config,
            max_workers: self.max_workers as nat,
            pending: item_views(self.pending@),
            active: worker_views(self.active@),
            summaries: pair_views(self.summaries@),
            failures: pair_views(self.failures@),
        }
    }
}

/// How many corrections a parent's split has had. Absent until the first malformed
/// split.
#[derive(Clone, Copy, Debug, PartialEq, Eq, Structural)]
pub struct SplitAttempts(pub usize);

/// The depth that fan-out workers may have where the blueprint sets none.
pub const DEFAULT_FANOUT_DEPTH: usize = 3;

/// How many times a malformed split is sent back to the model before the run
/// fails.
pub const MAX_SPLIT_RETRIES: usize = 2;

/// How much of a failed split response the error message carries, in characters.
pub const MAX_SPLIT_SNIPPET: usize = 200;

/// Smallest share of a report worth writing for one worker, in bytes.
pub const MIN_REPORT_BYTES_PER_WORKER: usize = 200;

/// The share of a worker where the results region's budget cannot be read.
pub const DEFAULT_REPORT_BYTES_PER_WORKER: usize = 4_000;

/// What stands behind a section that was cut to fit the report.
pub const REPORT_TRUNCATION_MARKER: &'static str =
    "\n[...truncated; read this worker's own run for the full answer]";

/// What the model is told after a split that could not be parsed.
pub open spec fn correction(reason: Seq<char>) -> Seq<char> {
    "Your previous response could not be used: "@ + reason
        + ". Reply with the JSON array of work items and nothing else - no prose before or after it, no markdown fences, no explanation. It must start with `[` and end with `]`."@
}

/// What the model is told after a split that could not be parsed.
pub fn split_correction(reason: &str) -> (out: String)
    ensures
        out@ == correction(reason@),
{
    let mut out = "Your previous response could not be used: ".to_owned();
    out.append(reason);
    out.append(
        ". Reply with the JSON array of work items and nothing else - no prose before or after it, no markdown fences, no explanation. It must start with `[` and end with `]`.",
    );
    out
}

/// What a failure message quotes of a response: nothing of an empty one, the whole
/// of a short one, the beginning of a long one.
pub open spec fn snippet(response: Seq<char>) -> Seq<char> {
    let text = trimmed(response);
    if text.len() == 0 {
        "the response was empty"@
    } else if text.len() > MAX_SPLIT_SNIPPET {
        "the response began: "@ + text.take(MAX_SPLIT_SNIPPET as int) + "…"@
    } else {
        "the response was: "@ + text
    }
}

/// The first characters of what the model actually said, for the failure message.
pub fn response_snippet(response: &str) -> (out: String)
    ensures
        out@ == snippet(response@),
{
    let text = trim(response);
    if text.is_empty() {
        return "the response was empty".to_owned();
    }
    let kept = take_chars(text, MAX_SPLIT_SNIPPET);
    if text.unicode_len() > MAX_SPLIT_SNIPPET {
        let mut out = "the response began: ".to_owned();
        out.append(kept.as_str());
        out.append("…");
        out
    } else {
        let mut out = "the response was: ".to_owned();
        out.append(kept.as_str());
        proof {
            assert(text@.take(text@.len() as int) =~= text@);
        }
        out
    }
}

/// A number as a machine word holds it.
pub open spec fn saturated(n: nat) -> nat {
    if n <= usize::MAX {
        n
    } else {
        usize::MAX as nat
    }
}

/// `a * k`, or the largest number there is.
fn saturating_mul(a: usize, k: usize) -> (r: usize)
    ensures
        r == saturated((a * k) as nat),
{
    proof {
        assert(0 <= a * k <= 0xffff_ffff_ffff_ffff * 0xffff_ffff_ffff_ffff) by (nonlinear_arith)
            requires
                0 <= a <= 0xffff_ffff_ffff_ffff,
                0 <= k <= 0xffff_ffff_ffff_ffff,
        ;
    }
    let wide: u128 = a as u128 * k as u128;
    if wide > usize::MAX as u128 {
        usize::MAX
    } else {
        wide as usize
    }
}

/// How many bytes each worker's section may use: an equal share of nine tenths of
/// the region's budget, and never less than a section needs to say anything.
pub open spec fn share(budget: Option<usize>, workers: nat) -> nat {
    match budget {
        None => DEFAULT_REPORT_BYTES_PER_WORKER as nat,
        Some(tokens) => if tokens == 0 {
            DEFAULT_REPORT_BYTES_PER_WORKER as nat
        } else {
            let usable = saturated(saturated((tokens * 4) as nat) * 9) / 10;
            let each = usable / (if workers > 1 {
                workers
            } else {
                1
            });
            if each > MIN_REPORT_BYTES_PER_WORKER {
                each
            } else {
                MIN_REPORT_BYTES_PER_WORKER as nat
            }
        },
    }
}

/// How many bytes each worker's section may use, given the region's token budget
/// and how many workers there are.
pub fn bytes_per_worker(region_budget_tokens: Option<usize>, workers: usize) -> (bytes: usize)
    ensures
        bytes == share(region_budget_tokens, workers as nat),
{
    match region_budget_tokens {
        None => DEFAULT_REPORT_BYTES_PER_WORKER,
        Some(tokens) => {
            if tokens == 0 {
                return DEFAULT_REPORT_BYTES_PER_WORKER;
            }
            let usable: usize = saturating_mul(saturating_mul(tokens, 4), 9) / 10;
            let each: usize = usable / (if workers > 1 {
                workers
            } else {
                1
            });
            if each > MIN_REPORT_BYTES_PER_WORKER {
                each
            } else {
                MIN_REPORT_BYTES_PER_WORKER
            }
        },
    }
}

/// A text cut to a number of bytes, marker included, where it is longer.
pub open spec fn fitted(text: Seq<char>, budget: nat) -> Seq<char> {
    if byte_count(text) <= budget {
        text
    } else {
        let marker = REPORT_TRUNCATION_MARKER@;
        fitting(
            text,
            if byte_count(marker) <= budget {
                (budget - byte_count(marker)) as nat
            } else {
                0
            },
        ) + marker
    }
}

/// One worker's contribution, trimmed to `budget` bytes.
pub fn fit_worker_section(content: &str, budget: usize) -> (out: String)
    ensures
        out@ == fitted(content@, budget as nat),
{
    if byte_len(content) <= budget {
        return content.to_owned();
    }
    let room: usize = budget.saturating_sub(byte_len(REPORT_TRUNCATION_MARKER));
    let mut out = truncate_at_boundary(content, room).to_owned();
    out.append(REPORT_TRUNCATION_MARKER);
    out
}

/// The section of a worker that succeeded.
pub open spec fn success_section(id: Seq<char>, content: Seq<char>, budget: nat) -> Seq<char> {
    "\n## worker "@ + id + "\n"@ + fitted(content, budget) + "\n"@
}

/// The section of a worker that failed.
pub open spec fn failure_section(id: Seq<char>, reason: Seq<char>) -> Seq<char> {
    "\n## worker "@ + id + " FAILED\n"@ + reason + "\n"@
}

/// The sections of the workers that succeeded.
pub open spec fn success_sections(summaries: Seq<(Seq<char>, Seq<char>)>, budget: nat) -> Seq<char>
    decreases summaries.len(),
{
    if summaries.len() == 0 {
        Seq::empty()
    } else {
        success_sections(summaries.drop_last(), budget) + success_section(
            summaries.last().0,
            summaries.last().1,
            budget,
        )
    }
}

/// The sections of the workers that failed.
pub open spec fn failure_sections(failures: Seq<(Seq<char>, Seq<char>)>) -> Seq<char>
    decreases failures.len(),
{
    if failures.len() == 0 {
        Seq::empty()
    } else {
        failure_sections(failures.drop_last()) + failure_section(
            failures.last().0,
            failures.last().1,
        )
    }
}

/// Whether any worker's answer is longer than its share.
pub open spec fn any_longer(summaries: Seq<(Seq<char>, Seq<char>)>, budget: nat) -> bool {
    exists|i: int| 0 <= i < summaries.len() && byte_count((#[trigger] summaries[i]).1) > budget
}

/// The first lines of a report: how many workers succeeded and failed, and the
/// share where it is tight.
pub open spec fn report_header(
    summaries: Seq<(Seq<char>, Seq<char>)>,
    failures: Seq<(Seq<char>, Seq<char>)>,
    budget: nat,
) -> Seq<char> {
    let count = "[fan_out results: "@ + decimal(summaries.len()) + " succeeded, "@ + decimal(
        failures.len(),
    ) + " failed]\n"@;
    if any_longer(summaries, budget) {
        count + "[each worker's answer is shown up to "@ + decimal(budget)
            + " characters; read a worker's own run for the whole thing]\n"@
    } else {
        count
    }
}

/// The consolidated report of a fan-out.
pub open spec fn report(
    summaries: Seq<(Seq<char>, Seq<char>)>,
    failures: Seq<(Seq<char>, Seq<char>)>,
    region_budget_tokens: Option<usize>,
) -> Seq<char> {
    let budget = share(region_budget_tokens, summaries.len());
    report_header(summaries, failures, budget) + success_sections(summaries, budget)
        + failure_sections(failures)
}

/// Whether any worker's answer is longer than its share.
fn some_longer(summaries: &Vec<(String, String)>, budget: usize) -> (b: bool)
    ensures
        b == any_longer(pair_views(summaries@), budget as nat),
{
    let ghost all = pair_views(summaries@);
    let mut i: usize = 0;
    while i < summaries.len()
        invariant
            i <= summaries.len(),
            all == pair_views(summaries@),
            forall|j: int| 0 <= j < i ==> byte_count((#[trigger] all[j]).1) <= budget,
        decreases summaries.len() - i,
    {
        if byte_len(summaries[i].1.as_str()) > budget {
            proof {
                assert(byte_count(all[i as int].1) > budget);
            }
            return true;
        }
        i = i + 1;
    }
    false
}

/// Appends the sections of the workers that succeeded.
fn append_successes(out: &mut String, summaries: &Vec<(String, String)>, budget: usize)
    ensures
        final(out)@ == old(out)@ + success_sections(pair_views(summaries@), budget as nat),
{
    let ghost all = pair_views(summaries@);
    let ghost start = out@;
    let mut i: usize = 0;
    proof {
        assert(all.take(0) =~= Seq::empty());
        assert(out@ =~= start + success_sections(all.take(0), budget as nat));
    }
    while i < summaries.len()
        invariant
            i <= summaries.len(),
            all == pair_views(summaries@),
            out@ == start + success_sections(all.take(i as int), budget as nat),
        decreases summaries.len() - i,
    {
        let ghost before = out@;
        proof {
            assert(all.take(i + 1).drop_last() =~= all.take(i as int));
        }
        out.append("\n## worker ");
        out.append(summaries[i].0.as_str());
        out.append("\n");
        out.append(fit_worker_section(summaries[i].1.as_str(), budget).as_str());
        out.append("\n");
        proof {
            assert(out@ =~= before + success_section(
                all[i as int].0,
                all[i as int].1,
                budget as nat,
            ));
            assert(out@ =~= start + success_sections(all.take(i + 1), budget as nat));
        }
        i = i + 1;
    }
    proof {
        assert(all.take(i as int) =~= all);
    }
}

/// Appends the sections of the workers that failed.
fn append_failures(out: &mut String, failures: &Vec<(String, String)>)
    ensures
        final(out)@ == old(out)@ + failure_sections(pair_views(failures@)),
{
    let ghost all = pair_views(failures@);
    let ghost start = out@;
    let mut i: usize = 0;
    proof {
        assert(all.take(0) =~= Seq::empty());
        assert(out@ =~= start + failure_sections(all.take(0)));
    }
    while i < failures.len()
        invariant
            i <= failures.len(),
            all == pair_views(failures@),
            out@ == start + failure_sections(all.take(i as int)),
        decreases failures.len() - i,
    {
        let ghost before = out@;
        proof {
            assert(all.take(i + 1).drop_last() =~= all.take(i as int));
        }
        out.append("\n## worker ");
        out.append(failures[i].0.as_str());
        out.append(" FAILED\n");
        out.append(failures[i].1.as_str());
        out.append("\n");
        proof {
            assert(out@ =~= before + failure_section(all[i as int].0, all[i as int].1));
            assert(out@ =~= start + failure_sections(all.take(i + 1)));
        }
        i = i + 1;
    }
    proof {
        assert(all.take(i as int) =~= all);
    }
}

/// Builds the consolidated report from the workers' outcomes.
pub fn build_report(
    summaries: &Vec<(String, String)>,
    failures: &Vec<(String, String)>,
    region_budget_tokens: Option<usize>,
) -> (out: String)
    ensures
        out@ == report(pair_views(summaries@), pair_views(failures@), region_budget_tokens),
{
    let budget: usize = bytes_per_worker(region_budget_tokens, summaries.len());
    let mut out = "[fan_out results: ".to_owned();
    out.append(decimal_text(summaries.len() as u64).as_str());
    out.append(" succeeded, ");
    out.append(decimal_text(failures.len() as u64).as_str());
    out.append(" failed]\n");
    if some_longer(summaries, budget) {
        out.append("[each worker's answer is shown up to ");
        out.append(decimal_text(budget as u64).as_str());
        out.append(" characters; read a worker's own run for the whole thing]\n");
    }
    append_successes(&mut out, summaries, budget);
    append_failures(&mut out, failures);
    out
}

/// The region that results really go to: the conversation where the layout has no
/// region of that name.
pub open spec fn results_target(w: WindowView, region: Seq<char>) -> Seq<char> {
    if w.has_region(region) {
        region
    } else {
        "conversation"@
    }
}

/// The text that is put into a region with so much room: cut where it is longer.
pub open spec fn fitted_to_room(text: Seq<char>, room: nat) -> Seq<char> {
    fitted(text, saturated(room * 4))
}

/// The window after results are put into a region.
pub open spec fn with_results(w: WindowView, region: Seq<char>, text: Seq<char>) -> WindowView {
    let target = results_target(w, region);
    let kept = fitted_to_room(text, w.room_in(target));
    w.offered(target, public_entry(EntryKindView::UserMessage, kept, tokens_of(kept)))
}

/// Adds `text` to the results region, trimming it to fit: a report that is too
/// long is cut and says so, rather than being refused outright.
pub fn add_results(window: &mut ContextWindow, region: &str, text: &str)
    ensures
        final(window)@ == with_results(old(window)@, region@, text@),
{
    let target = if window.region_index(region).is_some() {
        region
    } else {
        "conversation"
    };
    let room: usize = match window.get_region(target) {
        Some(r) => r.max_tokens.saturating_sub(r.current_tokens),
        None => 0,
    };
    let allowed: usize = saturating_mul(room, 4);
    let kept = fit_worker_section(text, allowed);
    let tokens: usize = estimate_tokens(kept.as_str());
    let _ = window.add_typed_entry(target, EntryKind::UserMessage, kept, tokens);
}

/// The world after results are put into the window of the agent at a place; nothing
/// happens where there is no window.
pub open spec fn results_injected(
    world: Seq<Option<AgentView>>,
    parent: Entity,
    region: Seq<char>,
    text: Seq<char>,
) -> Seq<Option<AgentView>> {
    match agent_at(world, parent) {
        Some(agent) => match agent.window {
            Some(w) => world.update(
                parent as int,
                Some(AgentView { window: Some(with_results(w, region, text)), ..agent }),
            ),
            None => world,
        },
        None => world,
    }
}

/// Adds `text` to the results region of the agent at a place, trimming it to fit.
pub fn inject_results(world: &mut World, parent: Entity, region: &str, text: &str)
    ensures
        final(world)@ == results_injected(old(world)@, parent, region@, text@),
{
    if parent < world.agents.len() {
        if let Some(agent) = &mut world.agents[parent] {
            if let Some(window) = &mut agent.window {
                add_results(window, region, text);
            }
        }
    }
    proof {
        assert(world@ =~= results_injected(old(world)@, parent, region@, text@));
    }
}

/// A text that stands in a part stands in the whole.
proof fn lemma_occurs_within(a: Seq<char>, part: Seq<char>, b: Seq<char>)
    ensures
        occurs_in(a + part + b, part),
{
    let whole = a + part + b;
    assert(whole.subrange(a.len() as int, a.len() as int + part.len()) =~= part);
    assert(occurs_at(whole, part, a.len() as int));
}

/// What stands in the middle of three texts stands in them together.
proof fn lemma_occurs_in_middle(a: Seq<char>, b: Seq<char>, c: Seq<char>, part: Seq<char>)
    requires
        occurs_in(b, part),
    ensures
        occurs_in(a + b + c, part),
{
    let at = choose|at: int| occurs_at(b, part, at);
    let whole = a + b + c;
    assert(whole.subrange(a.len() + at, a.len() + at + part.len()) =~= b.subrange(
        at,
        at + part.len(),
    ));
    assert(occurs_at(whole, part, a.len() + at));
}

/// The section of each worker that succeeded is among the sections.
proof fn lemma_success_section_present(
    summaries: Seq<(Seq<char>, Seq<char>)>,
    budget: nat,
    i: int,
)
    requires
        0 <= i < summaries.len(),
    ensures
        occurs_in(
            success_sections(summaries, budget),
            success_section(summaries[i].0, summaries[i].1, budget),
        ),
    decreases summaries.len(),
{
    let front = summaries.drop_last();
    let last = success_section(summaries.last().0, summaries.last().1, budget);
    let part = success_section(summaries[i].0, summaries[i].1, budget);
    let before = success_sections(front, budget);
    if i < front.len() {
        lemma_success_section_present(front, budget, i);
        lemma_occurs_in_middle(Seq::empty(), before, last, part);
        assert(Seq::<char>::empty() + before + last =~= before + last);
    } else {
        lemma_occurs_within(before, part, Seq::empty());
        assert(before + part + Seq::<char>::empty() =~= before + last);
    }
}

/// The section of each worker that failed is among the sections.
proof fn lemma_failure_section_present(failures: Seq<(Seq<char>, Seq<char>)>, i: int)
    requires
        0 <= i < failures.len(),
    ensures
        occurs_in(
            failure_sections(failures),
            failure_section(failures[i].0, failures[i].1),
        ),
    decreases failures.len(),
{
    let front = failures.drop_last();
    let last = failure_section(failures.last().0, failures.last().1);
    let part = failure_section(failures[i].0, failures[i].1);
    let before = failure_sections(front);
    if i < front.len() {
        lemma_failure_section_present(front, i);
        lemma_occurs_in_middle(Seq::empty(), before, last, part);
        assert(Seq::<char>::empty() + before + last =~= before + last);
    } else {
        lemma_occurs_within(before, part, Seq::empty());
        assert(before + part + Seq::<char>::empty() =~= before + last);
    }
}

/// Every worker that succeeded appears in the report, with its share of it.
pub proof fn law_every_success_is_reported(
    summaries: Seq<(Seq<char>, Seq<char>)>,
    failures: Seq<(Seq<char>, Seq<char>)>,
    region_budget_tokens: Option<usize>,
    i: int,
)
    requires
        0 <= i < summaries.len(),
    ensures
        occurs_in(
            report(summaries, failures, region_budget_tokens),
            success_section(
                summaries[i].0,
                summaries[i].1,
                share(region_budget_tokens, summaries.len()),
            ),
        ),
{
    let budget = share(region_budget_tokens, summaries.len());
    lemma_success_section_present(summaries, budget, i);
    lemma_occurs_in_middle(
        report_header(summaries, failures, budget),
        success_sections(summaries, budget),
        failure_sections(failures),
        success_section(summaries[i].0, summaries[i].1, budget),
    );
}

/// Every worker that failed appears in the report, with its reason.
pub proof fn law_every_failure_is_reported(
    summaries: Seq<(Seq<char>, Seq<char>)>,
    failures: Seq<(Seq<char>, Seq<char>)>,
    region_budget_tokens: Option<usize>,
    i: int,
)
    requires
        0 <= i < failures.len(),
    ensures
        occurs_in(
            report(summaries, failures, region_budget_tokens),
            failure_section(failures[i].0, failures[i].1),
        ),
{
    let budget = share(region_budget_tokens, summaries.len());
    let head = report_header(summaries, failures, budget) + success_sections(summaries, budget);
    lemma_failure_section_present(failures, i);
    lemma_occurs_in_middle(
        head,
        failure_sections(failures),
        Seq::empty(),
        failure_section(failures[i].0, failures[i].1),
    );
    assert(head + failure_sections(failures) + Seq::<char>::empty() =~= report(
        summaries,
        failures,
        region_budget_tokens,
    ));
}

/// The more workers there are, the smaller the share of each; the larger the
/// region's budget, the larger the share. A share is never below the minimum
/// where the budget can be read.
pub proof fn law_share_is_fair(tokens: usize, more: usize, workers: nat, crowd: nat)
    requires
        0 < tokens <= more,
        workers <= crowd,
    ensures
        share(Some(tokens), crowd) <= share(Some(tokens), workers),
        share(Some(tokens), workers) <= share(Some(more), workers),
        share(Some(tokens), workers) >= MIN_REPORT_BYTES_PER_WORKER,
{
    let few: nat = if workers > 1 {
        workers
    } else {
        1
    };
    let many: nat = if crowd > 1 {
        crowd
    } else {
        1
    };
    let small = saturated(saturated((tokens * 4) as nat) * 9) / 10;
    let large = saturated(saturated((more * 4) as nat) * 9) / 10;
    assert(small / many <= small / few) by (nonlinear_arith)
        requires
            0 < few <= many,
            small >= 0,
    ;
    assert(small <= large);
    assert(small / few <= large / few) by (nonlinear_arith)
        requires
            0 < few,
            0 <= small <= large,
    ;
}

/// A text cut to a budget that has room for the marker takes no more bytes than
/// the budget.
pub proof fn law_fitted_within_budget(text: Seq<char>, budget: nat)
    requires
        byte_count(REPORT_TRUNCATION_MARKER@) <= budget,
    ensures
        byte_count(fitted(text, budget)) <= budget,
{
    let marker = REPORT_TRUNCATION_MARKER@;
    let room = (budget - byte_count(marker)) as nat;
    lemma_fitting(text, room);
    lemma_byte_count_concat(fitting(text, room), marker);
}

/// Results always reach the region they go to, as long as it has room for the
/// truncation marker: the entry that is offered is accepted.
pub proof fn law_results_always_land(w: WindowView, region: Seq<char>, text: Seq<char>)
    requires
        w.has_region(results_target(w, region)),
        byte_count(REPORT_TRUNCATION_MARKER@) <= w.room_in(results_target(w, region)) * 4,
        w.room_in(results_target(w, region)) * 4 <= usize::MAX,
    ensures
        ({
            let target = results_target(w, region);
            let kept = fitted_to_room(text, w.room_in(target));
            w.adding(
                target,
                public_entry(EntryKindView::UserMessage, kept, tokens_of(kept)),
            ) is Ok
        }),
{
    let target = results_target(w, region);
    let marker = REPORT_TRUNCATION_MARKER@;
    law_fitted_within_budget(text, w.room_in(target) * 4);
    reveal_strlit("\n[...truncated; read this worker's own run for the full answer]");
    lemma_prefix_bytes(marker, 0, marker.len() as int);
    assert(marker.take(marker.len() as int) =~= marker);
}

/// Results that fit the room are put there whole.
pub proof fn law_fitting_results_are_whole(w: WindowView, region: Seq<char>, text: Seq<char>)
    requires
        byte_count(text) <= w.room_in(results_target(w, region)) * 4,
        byte_count(text) <= usize::MAX,
    ensures
        fitted_to_room(text, w.room_in(results_target(w, region))) == text,
{
}

/// Whether `out` is what a parser of work items makes of a response: it is given
/// the outermost brackets, and its reason is put into words.
pub open spec fn parsed_with<F: Fn(&str) -> Result<Vec<WorkItem>, String>>(
    parse: F,
    content: Seq<char>,
    out: Result<Vec<WorkItem>, String>,
) -> bool {
    match outermost_brackets(trimmed(content)) {
        None => out is Err && out->Err_0@ == "split output is not a JSON array"@,
        Some(slice) => exists|text: &str, got: Result<Vec<WorkItem>, String>|
            {
                &&& text@ == slice
                &&& #[trigger] call_ensures(parse, (text,), got)
                &&& match got {
                    Ok(items) => out == Ok::<Vec<WorkItem>, String>(items),
                    Err(e) => out is Err && out->Err_0@
                        == "split output is not a valid JSON array of work items: "@ + e@,
                }
            },
    }
}

/// Parses a split response into work items. Tolerates fences and prose by
/// extracting the outermost brackets, which `parse` reads as an array of work
/// items.
pub fn parse_work_items<F: Fn(&str) -> Result<Vec<WorkItem>, String>>(content: &str, parse: &F) -> (
out: Result<Vec<WorkItem>, String>)
    requires
        forall|text: &str| call_requires(*parse, (text,)),
    ensures
        parsed_with(*parse, content@, out),
{
    let text = trim(content);
    match outermost_array(text) {
        None => Err("split output is not a JSON array".to_owned()),
        Some(slice) => match parse(slice) {
            Ok(items) => Ok(items),
            Err(e) => {
                let mut message =
                    "split output is not a valid JSON array of work items: ".to_owned();
                message.append(e.as_str());
                Err(message)
            },
        },
    }
}

/// What is written of a parked parent, so that it resumes its merge after a
/// restart. Workers stand in it by run id.
pub struct FanOutState {
    pub config: FanOutConfig,
    pub max_workers: usize,
    pub pending: Vec<WorkItem>,
    /// The running workers, each as item id and run id.
    pub active: Vec<(String, String)>,
    pub summaries: Vec<(String, String)>,
    pub failures: Vec<(String, String)>,
}

/// The model of a [`FanOutState`].
pub struct FanOutStateView {
    pub config: FanOutConfig,
    pub max_workers: nat,
    pub pending: Seq<WorkItemView>,
    pub active: Seq<(Seq<char>, Seq<char>)>,
    pub summaries: Seq<(Seq<char>, Seq<char>)>,
    pub failures: Seq<(Seq<char>, Seq<char>)>,
}

impl View for FanOutState {
    type V = FanOutStateView;

    open spec fn view(&self) -> FanOutStateView {
        FanOutStateView {
            config: self.config,
            max_workers: self.max_workers as nat,
            pending: item_views(self.pending@),
            active: pair_views(self.active@),
            summaries: pair_views(self.summaries@),
            failures: pair_views(self.failures@),
        }
    }
}

impl FanOutWaitingView {
    /// What is written of this parent.
    pub open spec fn state(self) -> FanOutStateView {
        FanOutStateView {
            config: self.config,
            max_workers: self.max_workers,
            pending: self.pending,
            active: Seq::new(
                self.active.len(),
                |i: int| (self.active[i].item_id, self.active[i].run_id),
            ),
            summaries: self.summaries,
            failures: self.failures,
        }
    }
}

/// Equal pairs, in the same order.
fn copy_pairs(v: &Vec<(String, String)>) -> (out: Vec<(String, String)>)
    ensures
        pair_views(out@) == pair_views(v@),
{
    let mut out: Vec<(String, String)> = Vec::new();
    let mut i: usize = 0;
    while i < v.len()
        invariant
            i <= v.len(),
            out.len() == i,
            forall|j: int|
                0 <= j < i ==> (#[trigger] out@[j]).0@ == v@[j].0@ && out@[j].1@ == v@[j].1@,
        decreases v.len() - i,
    {
        out.push((v[i].0.clone(), v[i].1.clone()));
        i = i + 1;
    }
    proof {
        assert(pair_views(out@) =~= pair_views(v@));
    }
    out
}

impl FanOutWaiting {
    /// How many workers this parent is still parked on: those running and those
    /// not yet started.
    pub fn outstanding(&self) -> (n: usize)
        ensures
            n == saturated(self@.active.len() + self@.pending.len()),
    {
        self.active.len().saturating_add(self.pending.len())
    }

    /// What is written of this parent.
    pub fn to_state(&self) -> (state: FanOutState)
        ensures
            state@ == self@.state(),
    {
        let mut pending: Vec<WorkItem> = Vec::new();
        let mut i: usize = 0;
        while i < self.pending.len()
            invariant
                i <= self.pending@.len(),
                pending.len() == i,
                forall|j: int| 0 <= j < i ==> (#[trigger] pending@[j])@ == self.pending@[j]@,
            decreases self.pending.len() - i,
        {
            pending.push(self.pending[i].copy());
            i = i + 1;
        }
        let mut active: Vec<(String, String)> = Vec::new();
        let mut k: usize = 0;
        while k < self.active.len()
            invariant
                k <= self.active@.len(),
                active.len() == k,
                forall|j: int|
                    0 <= j < k ==> (#[trigger] active@[j]).0@ == self.active@[j].item_id@
                        && active@[j].1@ == self.active@[j].run_id@,
            decreases self.active.len() - k,
        {
            active.push((self.active[k].item_id.clone(), self.active[k].run_id.clone()));
            k = k + 1;
        }
        let state = FanOutState {
            config: self.config.clone(),
            max_workers: self.max_workers,
            pending,
            active,
            summaries: copy_pairs(&self.summaries),
            failures: copy_pairs(&self.failures),
        };
        proof {
            assert(state@.pending =~= self@.pending);
            assert(state@.active =~= self@.state().active);
        }
        state
    }
}

/// The running workers that were found again.
pub open spec fn found_workers(active: Seq<(Seq<char>, Seq<char>)>, found: Seq<Option<Entity>>) -> Seq<
    ActiveWorkerView,
>
    decreases active.len(),
{
    if active.len() == 0 {
        Seq::empty()
    } else {
        let before = found_workers(active.drop_last(), found.drop_last());
        match found.last() {
            Some(entity) => before.push(
                ActiveWorkerView { item_id: active.last().0, entity, run_id: active.last().1 },
            ),
            None => before,
        }
    }
}

/// The failures of workers that were not found again.
pub open spec fn lost_workers(active: Seq<(Seq<char>, Seq<char>)>, found: Seq<Option<Entity>>) -> Seq<
    (Seq<char>, Seq<char>),
>
    decreases active.len(),
{
    if active.len() == 0 {
        Seq::empty()
    } else {
        let before = lost_workers(active.drop_last(), found.drop_last());
        match found.last() {
            Some(_) => before,
            None => before.push((active.last().0, "worker did not reload after restart"@)),
        }
    }
}

/// The parent that a written state stands for, given which of its workers were
/// found again. The others count as failures, so that the merge still completes.
pub open spec fn restored(state: FanOutStateView, found: Seq<Option<Entity>>) -> FanOutWaitingView {
    FanOutWaitingView {
        config: state.config,
        max_workers: state.max_workers,
        pending: state.pending,
        active: found_workers(state.active, found),
        summaries: state.summaries,
        failures: state.failures + lost_workers(state.active, found),
    }
}

/// Rebuilds a parked parent from what was written of it. `found` says for each
/// running worker where it was reloaded, if it was.
pub fn restore_waiting(state: FanOutState, found: &Vec<Option<Entity>>) -> (waiting: FanOutWaiting)
    requires
        found@.len() == state.active@.len(),
    ensures
        waiting@ == restored(state@, found@),
{
    let ghost before = state@;
    let ghost all = before.active;
    let mut active: Vec<ActiveWorker> = Vec::new();
    let mut failures = state.failures;
    let mut i: usize = 0;
    proof {
        assert(all.take(0) =~= Seq::empty());
        assert(worker_views(active@) =~= Seq::empty());
        assert(pair_views(failures@) =~= before.failures + lost_workers(
            all.take(0),
            found@.take(0),
        ));
    }
    while i < state.active.len()
        invariant
            i <= state.active.len(),
            all == pair_views(state.active@),
            found@.len() == all.len(),
            worker_views(active@) == found_workers(all.take(i as int), found@.take(i as int)),
            pair_views(failures@) == before.failures + lost_workers(
                all.take(i as int),
                found@.take(i as int),
            ),
        decreases state.active.len() - i,
    {
        let ghost had = failures@;
        let ghost were = active@;
        proof {
            assert(all.take(i + 1).drop_last() =~= all.take(i as int));
            assert(found@.take(i + 1).drop_last() =~= found@.take(i as int));
        }
        match found[i] {
            Some(entity) => {
                active.push(
                    ActiveWorker {
                        item_id: state.active[i].0.clone(),
                        entity,
                        run_id: state.active[i].1.clone(),
                    },
                );
                proof {
                    assert(worker_views(active@) =~= worker_views(were).push(active@.last()@));
                }
            },
            None => {
                failures.push(
                    (
                        state.active[i].0.clone(),
                        "worker did not reload after restart".to_owned(),
                    ),
                );
                proof {
                    assert(pair_views(failures@) =~= pair_views(had).push(
                        (all[i as int].0, "worker did not reload after restart"@),
                    ));
                    assert(pair_views(failures@) =~= before.failures + lost_workers(
                        all.take(i + 1),
                        found@.take(i + 1),
                    ));
                }
            },
        }
        i = i + 1;
    }
    let mut pending: VecDeque<WorkItem> = VecDeque::new();
    let ghost items = state.pending@;
    for item in it: state.pending
        invariant
            it.seq() == items,
            pending@ == items.take(it.index() as int),
    {
        proof {
            let n = it.index() as int;
            assert(items.take(n + 1) =~= items.take(n).push(items[n]));
        }
        pending.push_back(item);
    }
    proof {
        assert(all.take(all.len() as int) =~= all);
        assert(found@.take(all.len() as int) =~= found@);
        assert(items.take(items.len() as int) =~= items);
    }
    FanOutWaiting {
        config: state.config,
        max_workers: state.max_workers,
        pending,
        active,
        summaries: state.summaries,
        failures,
    }
}

/// Whether a resolver may answer `found` for a run id.
pub open spec fn answers<F: Fn(&str) -> Option<Entity>>(
    resolve: F,
    run_id: Seq<char>,
    found: Option<Entity>,
) -> bool {
    exists|text: &str| text@ == run_id && #[trigger] call_ensures(resolve, (text,), found)
}

/// Whether `found` is what a resolver answers for each running worker of a written
/// state, by run id.
pub open spec fn resolved_by<F: Fn(&str) -> Option<Entity>>(
    resolve: F,
    active: Seq<(Seq<char>, Seq<char>)>,
    found: Seq<Option<Entity>>,
) -> bool {
    &&& found.len() == active.len()
    &&& forall|i: int|
        0 <= i < found.len() ==> answers(resolve, active[i].1, #[trigger] found[i])
}

/// Asks a resolver for each running worker of a written state.
fn resolve_workers<F: Fn(&str) -> Option<Entity>>(active: &Vec<(String, String)>, resolve: &F) -> (found:
    Vec<Option<Entity>>)
    requires
        forall|run_id: &str| call_requires(*resolve, (run_id,)),
    ensures
        resolved_by(*resolve, pair_views(active@), found@),
{
    let mut found: Vec<Option<Entity>> = Vec::new();
    let mut i: usize = 0;
    while i < active.len()
        invariant
            i <= active@.len(),
            found@.len() == i,
            forall|run_id: &str| call_requires(*resolve, (run_id,)),
            forall|k: int|
                0 <= k < i ==> answers(*resolve, pair_views(active@)[k].1, #[trigger] found@[k]),
        decreases active.len() - i,
    {
        let entity = resolve(active[i].1.as_str());
        assert(answers(*resolve, pair_views(active@)[i as int].1, entity));
        found.push(entity);
        i = i + 1;
    }
    found
}

/// The world with the agent at a place parked.
pub open spec fn with_waiting(
    world: Seq<Option<AgentView>>,
    parent: Entity,
    waiting: FanOutWaitingView,
) -> Seq<Option<AgentView>> {
    world.update(
        parent as int,
        Some(AgentView { fan_out: Some(waiting), ..world[parent as int]->0 }),
    )
}

/// Parks an agent.
fn park_agent(agent: &mut Agent, waiting: FanOutWaiting)
    ensures
        final(agent)@ == (AgentView { fan_out: Some(waiting@), ..old(agent)@ }),
{
    agent.fan_out = Some(waiting);
}

/// Parks the agent at a place.
fn insert_waiting(world: &mut World, parent: Entity, waiting: FanOutWaiting)
    requires
        agent_at(old(world)@, parent) is Some,
    ensures
        final(world)@ == with_waiting(old(world)@, parent, waiting@),
{
    let ghost before = world@;
    if let Some(agent) = &mut world.agents[parent] {
        park_agent(agent, waiting);
    }
    proof {
        let want = with_waiting(before, parent, waiting@);
        assert forall|k: int| 0 <= k < want.len() implies #[trigger] world@[k] == want[k] by {}
        assert(world@ =~= want);
    }
}

/// Rebuilds a parked parent from what was written of it, each running worker being
/// found again by its run id. Workers that did not reload count as failures.
pub fn restore_fan_out_waiting<F: Fn(&str) -> Option<Entity>>(
    world: &mut World,
    parent: Entity,
    state: FanOutState,
    resolve: &F,
)
    requires
        agent_at(old(world)@, parent) is Some,
        forall|run_id: &str| call_requires(*resolve, (run_id,)),
    ensures
        exists|found: Seq<Option<Entity>>|
            {
                &&& #[trigger] resolved_by(*resolve, state@.active, found)
                &&& final(world)@ == with_waiting(old(world)@, parent, restored(state@, found))
            },
{
    let found = resolve_workers(&state.active, resolve);
    let waiting = restore_waiting(state, &found);
    insert_waiting(world, parent, waiting);
}

/// A parent whose workers are all found again where they were is the parent that
/// was written.
pub proof fn law_restore_undoes_to_state(w: FanOutWaitingView, found: Seq<Option<Entity>>)
    requires
        found.len() == w.active.len(),
        forall|i: int| 0 <= i < found.len() ==> (#[trigger] found[i]) == Some(w.active[i].entity),
    ensures
        restored(w.state(), found) == w,
{
    lemma_all_found(w.active, found);
    assert(restored(w.state(), found).failures =~= w.failures);
}

/// Where every worker is found again, none is lost.
proof fn lemma_all_found(active: Seq<ActiveWorkerView>, found: Seq<Option<Entity>>)
    requires
        found.len() == active.len(),
        forall|i: int| 0 <= i < found.len() ==> (#[trigger] found[i]) == Some(active[i].entity),
    ensures
        ({
            let written = Seq::new(
                active.len(),
                |i: int| (active[i].item_id, active[i].run_id),
            );
            &&& found_workers(written, found) == active
            &&& lost_workers(written, found) == Seq::<(Seq<char>, Seq<char>)>::empty()
        }),
    decreases active.len(),
{
    let written = Seq::new(active.len(), |i: int| (active[i].item_id, active[i].run_id));
    if active.len() > 0 {
        let front = active.drop_last();
        assert forall|i: int| 0 <= i < found.drop_last().len() implies (#[trigger] found.drop_last()[i])
            == Some(front[i].entity) by {
            assert(found[i] == Some(active[i].entity));
        }
        lemma_all_found(front, found.drop_last());
        assert(written.drop_last() =~= Seq::new(
            front.len(),
            |i: int| (front[i].item_id, front[i].run_id),
        ));
        assert(found.last() == Some(active.last().entity));
    }
    assert(found_workers(written, found) =~= active);
}

/// No worker is dropped by a restart: each is running again or counts as failed.
pub proof fn law_restore_keeps_every_worker(state: FanOutStateView, found: Seq<Option<Entity>>)
    requires
        found.len() == state.active.len(),
    ensures
        ({
            let w = restored(state, found);
            w.active.len() + w.failures.len() == state.active.len() + state.failures.len()
        }),
{
    lemma_found_or_lost(state.active, found);
}

/// A worker is found or lost.
proof fn lemma_found_or_lost(active: Seq<(Seq<char>, Seq<char>)>, found: Seq<Option<Entity>>)
    requires
        found.len() == active.len(),
    ensures
        found_workers(active, found).len() + lost_workers(active, found).len() == active.len(),
    decreases active.len(),
{
    if active.len() > 0 {
        lemma_found_or_lost(active.drop_last(), found.drop_last());
    }
}

} // verus!
