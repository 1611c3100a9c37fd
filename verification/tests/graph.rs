use leviath_runtime::blueprint::{
    Blueprint, EdgeTransform, Stage, StageMode, StageResult, TransitionCondition, TransitionEdge,
};
use leviath_runtime::components::CompactionConfig;
use leviath_runtime::context::{ContextWindow, EntryKind, Region, RegionKind};
use leviath_runtime::engine::ProviderRegistry;
use leviath_runtime::graph::{
    apply_compact_transform, apply_edge_transform, apply_summary, ask_transition,
    compact_transform_request, is_graph_mode, match_answer, pick_edge, plan_transition,
    prompt_llm_transition, region_is_compact_target, resolve_transition, transition_prompt,
    TransitionPlan, DEFAULT_SUMMARY_TOKENS, TRANSITION_ANSWER_TOKENS,
};
use leviath_runtime::table::NameTable;

fn stage(name: &str) -> Stage {
    Stage {
        name: name.to_string(),
        mode: StageMode::Standard,
        transitions: None,
        max_revisits: None,
        allow_complete: false,
        transition_prompt: None,
        require_output: false,
    }
}

fn edge(target: &str, condition: TransitionCondition) -> (String, TransitionEdge) {
    (
        target.to_string(),
        TransitionEdge {
            target: target.to_string(),
            condition,
            hint: None,
            transform: EdgeTransform::Direct,
        },
    )
}

fn always(target: &str) -> (String, TransitionEdge) {
    edge(target, TransitionCondition::Always)
}

fn blueprint(stages: Vec<Stage>) -> Blueprint {
    Blueprint {
        stages,
        max_child_depth: None,
    }
}

/// A blueprint whose first stage has these edges, with stages of the given names
/// behind it.
fn graph(edges: Vec<(String, TransitionEdge)>, others: &[&str]) -> Blueprint {
    let mut first = stage("a");
    first.transitions = Some(edges);
    let mut stages = vec![first];
    for name in others {
        stages.push(stage(name));
    }
    blueprint(stages)
}

fn resolve(
    bp: &Blueprint,
    at: usize,
    counts: &NameTable<usize>,
    result: StageResult,
    answer: Option<&str>,
) -> Option<(String, usize)> {
    resolve_transition(&bp.stages[at], at, bp, counts, result, answer)
        .map(|(edge, index)| (edge.target, index))
}

fn fresh(bp: &Blueprint, result: StageResult) -> Option<(String, usize)> {
    resolve(bp, 0, &NameTable::new(), result, None)
}

fn window() -> ContextWindow {
    let mut w = ContextWindow::new(12000);
    w.add_region(Region::new("system".to_string(), RegionKind::Pinned, 2000));
    w.add_region(Region::new(
        "conversation".to_string(),
        RegionKind::SlidingWindow { max_items: 10 },
        10000,
    ));
    w
}

fn filled() -> ContextWindow {
    let mut w = window();
    let _ = w.add_to_region("system", "system content".to_string(), 5);
    let _ = w.add_to_region("conversation", "conv content".to_string(), 5);
    w
}

fn texts(w: &ContextWindow, region: &str) -> Vec<String> {
    w.get_region(region)
        .unwrap()
        .content
        .iter()
        .map(|e| e.content.clone())
        .collect()
}

fn registry(name: &str) -> ProviderRegistry<()> {
    let mut r = ProviderRegistry::new();
    r.register(name.to_string(), ());
    r
}

#[test]
fn region_is_compact_target_respects_names_and_carry() {
    let conv = Region::new(
        "conversation".to_string(),
        RegionKind::SlidingWindow { max_items: 10 },
        1000,
    );
    let files = Region::new("files".to_string(), RegionKind::Pinned, 1000);

    // Without names: compactable kinds are targets, pinned ones are not.
    assert!(region_is_compact_target(&conv, &None, &vec![]));
    assert!(!region_is_compact_target(&files, &None, &vec![]));

    // With names: only the regions that are named.
    let only_conv = Some(vec!["conversation".to_string()]);
    let only_other = Some(vec!["scratch".to_string()]);
    assert!(region_is_compact_target(&conv, &only_conv, &vec![]));
    assert!(!region_is_compact_target(&conv, &only_other, &vec![]));

    // A protected region is never a target.
    let protect = vec!["conversation".to_string()];
    assert!(!region_is_compact_target(&conv, &None, &protect));
    assert!(!region_is_compact_target(&conv, &only_conv, &protect));
}

#[test]
fn is_graph_mode_with_transitions_returns_true() {
    let mut main = stage("main");
    main.transitions = Some(vec![]);
    assert!(is_graph_mode(&blueprint(vec![main])));
}

#[test]
fn is_graph_mode_without_transitions_returns_false() {
    assert!(!is_graph_mode(&blueprint(vec![stage("main")])));
}

#[test]
fn is_graph_mode_mixed_stages() {
    let mut first = stage("a");
    first.transitions = Some(vec![]);
    assert!(is_graph_mode(&blueprint(vec![first, stage("b")])));
}

#[test]
fn is_graph_mode_empty_stages() {
    assert!(!is_graph_mode(&blueprint(vec![])));
}

#[test]
fn is_graph_mode_multiple_stages_none_with_transitions() {
    assert!(!is_graph_mode(&blueprint(vec![stage("a"), stage("b"), stage("c")])));
}

#[test]
fn resolve_transition_linear_mode_advances_to_next() {
    let bp = blueprint(vec![stage("a"), stage("b"), stage("c")]);
    assert_eq!(fresh(&bp, StageResult::Success), Some(("b".to_string(), 1)));
}

#[test]
fn resolve_transition_linear_mode_terminal() {
    let bp = blueprint(vec![stage("a")]);
    assert_eq!(fresh(&bp, StageResult::Success), None);
}

#[test]
fn resolve_transition_linear_middle_stage() {
    let bp = blueprint(vec![stage("a"), stage("b"), stage("c")]);
    assert_eq!(
        resolve(&bp, 1, &NameTable::new(), StageResult::Success, None),
        Some(("c".to_string(), 2))
    );
    assert_eq!(resolve(&bp, 2, &NameTable::new(), StageResult::Success, None), None);
}

#[test]
fn resolve_transition_single_always_edge() {
    let bp = graph(vec![always("b")], &["b"]);
    assert_eq!(fresh(&bp, StageResult::Success), Some(("b".to_string(), 1)));
}

#[test]
fn resolve_transition_error_condition_routes_to_error_handler() {
    let bp = graph(
        vec![always("b"), edge("error_handler", TransitionCondition::Error)],
        &["b", "error_handler"],
    );
    assert_eq!(
        fresh(&bp, StageResult::Error),
        Some(("error_handler".to_string(), 2))
    );
    // After a success the edge for errors is not taken.
    assert_eq!(fresh(&bp, StageResult::Success), Some(("b".to_string(), 1)));
}

#[test]
fn resolve_transition_max_iterations_condition() {
    let bp = graph(
        vec![always("b"), edge("timeout", TransitionCondition::MaxIterations)],
        &["b", "timeout"],
    );
    assert_eq!(
        fresh(&bp, StageResult::MaxIterations),
        Some(("timeout".to_string(), 2))
    );
}

#[test]
fn resolve_transition_error_result_no_error_edge_falls_through_to_always() {
    let bp = graph(vec![always("b")], &["b"]);
    assert_eq!(fresh(&bp, StageResult::Error), Some(("b".to_string(), 1)));
    assert_eq!(fresh(&bp, StageResult::MaxIterations), Some(("b".to_string(), 1)));
}

#[test]
fn resolve_transition_only_conditional_edges_is_terminal_on_success() {
    let bp = graph(vec![edge("b", TransitionCondition::Error)], &["b"]);
    assert_eq!(fresh(&bp, StageResult::Success), None);
}

#[test]
fn resolve_transition_empty_transitions_is_terminal() {
    assert_eq!(fresh(&graph(vec![], &[]), StageResult::Success), None);
}

#[test]
fn resolve_transition_unknown_target_skipped() {
    let bp = graph(vec![always("nowhere"), always("b")], &["b"]);
    assert_eq!(fresh(&bp, StageResult::Success), Some(("b".to_string(), 1)));
    assert_eq!(fresh(&graph(vec![always("nowhere")], &[]), StageResult::Success), None);
}

#[test]
fn resolve_transition_max_revisits_enforcement() {
    let mut bp = graph(vec![always("b")], &["b"]);
    bp.stages[1].max_revisits = Some(1); // the first visit and one more
    let mut counts = NameTable::new();
    assert!(resolve(&bp, 0, &counts, StageResult::Success, None).is_some());
    counts.insert("b".to_string(), 1);
    assert!(resolve(&bp, 0, &counts, StageResult::Success, None).is_some());
    counts.insert("b".to_string(), 2);
    assert!(resolve(&bp, 0, &counts, StageResult::Success, None).is_none());
}

#[test]
fn resolve_transition_max_revisits_zero_blocks_second_visit() {
    let mut bp = graph(vec![always("b")], &["b"]);
    bp.stages[1].max_revisits = Some(0);
    let mut counts = NameTable::new();
    assert!(resolve(&bp, 0, &counts, StageResult::Success, None).is_some());
    counts.insert("b".to_string(), 1);
    assert!(resolve(&bp, 0, &counts, StageResult::Success, None).is_none());
}

#[test]
fn resolve_transition_single_llm_choice_edge() {
    let bp = graph(vec![edge("b", TransitionCondition::LlmChoice)], &["b"]);
    assert_eq!(fresh(&bp, StageResult::Success), Some(("b".to_string(), 1)));
}

#[test]
fn resolve_transition_multiple_llm_choice_uses_provider() {
    let bp = graph(
        vec![
            edge("b", TransitionCondition::LlmChoice),
            edge("c", TransitionCondition::LlmChoice),
        ],
        &["b", "c"],
    );
    let counts = NameTable::new();
    assert!(matches!(
        plan_transition(&bp.stages[0], 0, &bp, &counts, StageResult::Success),
        TransitionPlan::Ask { edges } if edges.len() == 2
    ));
    assert_eq!(
        resolve(&bp, 0, &counts, StageResult::Success, Some("c")),
        Some(("c".to_string(), 2))
    );
    // An answer that names none of them stands for the first.
    assert_eq!(
        resolve(&bp, 0, &counts, StageResult::Success, Some("neither")),
        Some(("b".to_string(), 1))
    );
    // Without an answer nothing follows.
    assert_eq!(resolve(&bp, 0, &counts, StageResult::Success, None), None);
}

#[test]
fn resolve_transition_allow_complete_single_edge_consults_llm() {
    let mut bp = graph(vec![always("b")], &["b"]);
    bp.stages[0].allow_complete = true;
    let counts = NameTable::new();
    assert_eq!(resolve(&bp, 0, &counts, StageResult::Success, Some("DONE")), None);
    assert_eq!(
        resolve(&bp, 0, &counts, StageResult::Success, Some("b")),
        Some(("b".to_string(), 1))
    );
}

#[test]
fn resolve_transition_without_allow_complete_single_edge_ignores_done() {
    let bp = graph(vec![always("b")], &["b"]);
    let counts = NameTable::new();
    assert_eq!(
        resolve(&bp, 0, &counts, StageResult::Success, Some("DONE")),
        Some(("b".to_string(), 1))
    );
}

#[test]
fn prompt_llm_transition_allow_complete_done_returns_none() {
    let mut review = stage("review");
    review.allow_complete = true;
    let mut w = window();
    let edges = vec![always("implement")];
    assert!(prompt_llm_transition(&review, &edges, &mut w, "DONE").is_none());
    assert!(prompt_llm_transition(&review, &edges, &mut w, " done\n").is_none());
    let conv = w.get_region("conversation").unwrap();
    assert_eq!(conv.content[0].content, "Transitioning to: DONE");
    assert!(matches!(conv.content[0].kind, EntryKind::AssistantTurn { .. }));
}

#[test]
fn prompt_llm_transition_without_allow_complete_done_falls_back_to_edge() {
    let mut w = window();
    let next = prompt_llm_transition(&stage("plan"), &vec![always("implement")], &mut w, "DONE");
    assert_eq!(next.unwrap().target, "implement");
}

#[test]
fn prompt_llm_transition_fuzzy_lowercase_match_when_exact_case_fails() {
    let edges = vec![always("Alpha"), always("Beta")];
    assert_eq!(match_answer(&stage("s"), &edges, "  Beta \n").unwrap().target, "Beta");
    assert_eq!(match_answer(&stage("s"), &edges, "beta").unwrap().target, "Beta");
    assert_eq!(
        match_answer(&stage("s"), &edges, "I would go to BETA now").unwrap().target,
        "Beta"
    );
}

#[test]
fn lower_case_is_more_than_ascii() {
    let edges = vec![always("x"), always("ÉTAPE")];
    assert_eq!(match_answer(&stage("s"), &edges, "étape").unwrap().target, "ÉTAPE");
}

#[test]
fn prompt_llm_transition_fallback_to_first_edge_when_no_match() {
    let edges = vec![always("b"), always("c")];
    assert_eq!(match_answer(&stage("s"), &edges, "zzz").unwrap().target, "b");
}

#[test]
fn prompt_llm_transition_empty_edges_returns_none() {
    assert!(match_answer(&stage("s"), &vec![], "b").is_none());
}

#[test]
fn the_first_edge_whose_name_occurs_is_picked() {
    let edges = vec![always("plan"), always("plan_b")];
    let lower = vec!["plan".to_string(), "plan_b".to_string()];
    let picked = pick_edge(false, &edges, "plan_b", "plan_b", &lower);
    assert_eq!(picked.unwrap().target, "plan");
    let edges = vec![always("plan_b"), always("plan")];
    let lower = vec!["plan_b".to_string(), "plan".to_string()];
    let picked = pick_edge(false, &edges, "plan_b", "plan_b", &lower);
    assert_eq!(picked.unwrap().target, "plan_b");
}

#[test]
fn the_transition_prompt_lists_the_edges() {
    let mut edges = vec![always("b"), always("c")];
    edges[0].1.hint = Some("when it works".to_string());
    let mut s = stage("s");
    let usual = transition_prompt(&s, &edges);
    assert!(usual.contains("when it works"), "{usual}");
    assert!(usual.contains('c') && !usual.contains("DONE"), "{usual}");
    s.transition_prompt = Some("Where to?".to_string());
    s.allow_complete = true;
    let custom = transition_prompt(&s, &edges);
    assert!(custom.starts_with("Where to?\n\nAvailable transitions:\n"), "{custom}");
    assert!(custom.contains("DONE"), "{custom}");
}

fn ask(w: &mut Option<ContextWindow>, provider: &str) -> Option<usize> {
    ask_transition(&stage("s"), &vec![always("b")], &registry("mock"), provider, w)
}

#[test]
fn a_transition_answer_is_kept_short() {
    let prompt = transition_prompt(&stage("s"), &vec![always("b")]);
    let mut w = Some(window());
    assert_eq!(ask(&mut w, "mock"), Some(TRANSITION_ANSWER_TOKENS));
    assert_eq!(texts(w.as_ref().unwrap(), "conversation"), [prompt]);
    // A small window leaves less.
    let mut small = window();
    small.max_tokens = 100;
    let mut small = Some(small);
    let left = ask(&mut small, "mock").unwrap();
    assert_eq!(left, 100 - small.unwrap().current_tokens);
}

#[test]
fn prompt_llm_transition_no_provider_returns_none() {
    let mut w = Some(window());
    assert_eq!(ask(&mut w, "other"), None);
    // The question stands in the conversation all the same.
    assert_eq!(texts(&w.unwrap(), "conversation").len(), 1);
}

#[test]
fn prompt_llm_transition_no_context_window_returns_none() {
    assert_eq!(ask(&mut None, "mock"), None);
}

fn transform_edge(transform: EdgeTransform) -> TransitionEdge {
    TransitionEdge {
        target: "b".to_string(),
        condition: TransitionCondition::Always,
        hint: None,
        transform,
    }
}

#[test]
fn apply_edge_transform_direct_is_noop() {
    let mut w = Some(filled());
    let left = apply_edge_transform(&transform_edge(EdgeTransform::Direct), &NameTable::new(), &mut w);
    assert!(left.is_none());
    assert!(!texts(&w.unwrap(), "conversation").is_empty());
}

#[test]
fn apply_edge_transform_clear_clears_non_pinned() {
    let mut w = Some(filled());
    let left = apply_edge_transform(&transform_edge(EdgeTransform::Clear), &NameTable::new(), &mut w);
    assert!(left.is_none());
    let w = w.unwrap();
    assert_eq!(texts(&w, "system"), ["system content"]);
    assert!(texts(&w, "conversation").is_empty());
    assert_eq!(w.current_tokens, 5);
}

#[test]
fn apply_edge_transform_clear_no_context_window_is_noop() {
    let mut w = None;
    let left = apply_edge_transform(&transform_edge(EdgeTransform::Clear), &NameTable::new(), &mut w);
    assert!(left.is_none() && w.is_none());
}

#[test]
fn apply_edge_transform_direct_becomes_compact_on_revisit() {
    let mut counts = NameTable::new();
    counts.insert("b".to_string(), 1); // a revisit
    let mut w = Some(filled());
    let left = apply_edge_transform(&transform_edge(EdgeTransform::Direct), &counts, &mut w).unwrap();
    assert!(left.only.is_none() && left.protect.is_empty());
    assert!(left.prompt.contains('b'), "{}", left.prompt);
    // Nothing is cleared before the summary is there.
    assert_eq!(texts(&w.unwrap(), "conversation"), ["conv content"]);
}

#[test]
fn apply_edge_transform_custom_clears_specified_regions() {
    let mut w = Some(filled());
    let custom = EdgeTransform::Custom {
        carry: vec!["system".to_string()],
        compact: vec![],
        clear: vec!["conversation".to_string()],
        compact_prompt: None,
    };
    assert!(apply_edge_transform(&transform_edge(custom), &NameTable::new(), &mut w).is_none());
    let w = w.unwrap();
    assert!(texts(&w, "conversation").is_empty());
    assert_eq!(texts(&w, "system"), ["system content"]);
}

#[test]
fn apply_edge_transform_custom_carry_preserves_compactable_region() {
    let mut w = Some(filled());
    let custom = EdgeTransform::Custom {
        carry: vec!["conversation".to_string()],
        compact: vec!["conversation".to_string()],
        clear: vec!["conversation".to_string()],
        compact_prompt: Some("Sum up".to_string()),
    };
    let left = apply_edge_transform(&transform_edge(custom), &NameTable::new(), &mut w).unwrap();
    assert_eq!(left.prompt, "Sum up");
    assert_eq!(left.only, Some(vec!["conversation".to_string()]));
    assert_eq!(left.protect, ["conversation"]);
    assert_eq!(texts(w.as_ref().unwrap(), "conversation"), ["conv content"]);
    // And nothing of it is handed to the model.
    assert!(compact_transform_request(&registry("mock"), &w, "mock", "m", &None, &left).is_none());
}

#[test]
fn apply_compact_transform_success_clears_and_summarizes() {
    let mut w = filled();
    let _ = w.add_to_region("conversation", "more".to_string(), 1);
    let w = Some(w);
    let request =
        apply_compact_transform(&registry("mock"), &w, "mock", "test-model", "Summarize", &None)
            .unwrap();
    assert_eq!(request.provider, "mock");
    assert_eq!(request.model, "test-model");
    assert_eq!(request.system, "Summarize");
    assert_eq!(request.content, "[conversation]:\nconv content\nmore");
    assert_eq!(request.max_tokens, DEFAULT_SUMMARY_TOKENS);

    let mut w = w.unwrap();
    apply_summary(&mut w, &None, &vec![], "concise");
    assert_eq!(
        texts(&w, "conversation"),
        ["[Context summary from previous stage]: concise"]
    );
    assert_eq!(texts(&w, "system"), ["system content"]);
    assert_eq!(w.current_tokens, 5 + 2);
}

#[test]
fn apply_compact_transform_with_compaction_config() {
    let config = Some(CompactionConfig {
        provider: "cheap".to_string(),
        model: "tiny".to_string(),
        max_summary_tokens: 77,
    });
    let w = Some(filled());
    let request =
        apply_compact_transform(&registry("cheap"), &w, "mock", "big", "Summarize", &config).unwrap();
    assert_eq!(
        (request.provider.as_str(), request.model.as_str(), request.max_tokens),
        ("cheap", "tiny", 77)
    );
    // The configured provider is the one that has to be there.
    assert!(apply_compact_transform(&registry("mock"), &w, "mock", "big", "S", &config).is_none());
}

#[test]
fn apply_compact_transform_missing_context_window_returns_early() {
    assert!(apply_compact_transform(&registry("mock"), &None, "mock", "m", "S", &None).is_none());
}

#[test]
fn apply_compact_transform_provider_present_but_content_empty_returns_early() {
    let w = Some(window());
    assert!(apply_compact_transform(&registry("mock"), &w, "mock", "m", "S", &None).is_none());
}

#[test]
fn resolve_transition_linear_last_stage_is_terminal() {
    let bp = blueprint(vec![stage("a"), stage("b")]);
    assert_eq!(resolve(&bp, 1, &NameTable::new(), StageResult::Success, None), None);
}

#[test]
fn resolve_transition_error_edge_ignored_on_success() {
    let bp = graph(
        vec![always("b"), edge("error_handler", TransitionCondition::Error)],
        &["b", "error_handler"],
    );
    assert_eq!(fresh(&bp, StageResult::Success).unwrap().0, "b");
}

#[test]
fn resolve_transition_max_iterations_edge_ignored_on_success() {
    let bp = graph(
        vec![always("b"), edge("timeout", TransitionCondition::MaxIterations)],
        &["b", "timeout"],
    );
    assert_eq!(fresh(&bp, StageResult::Success).unwrap().0, "b");
}

#[test]
fn resolve_transition_max_iterations_result_no_max_iter_edge_falls_through() {
    let bp = graph(vec![always("b")], &["b"]);
    assert_eq!(fresh(&bp, StageResult::MaxIterations).unwrap().0, "b");
}

#[test]
fn resolve_transition_allow_complete_single_edge_still_transitions_when_named() {
    let mut review = stage("review");
    review.allow_complete = true;
    let mut to_fix = always("implement");
    to_fix.1.hint = Some("issues found".to_string());
    review.transitions = Some(vec![to_fix]);
    let bp = blueprint(vec![review, stage("implement")]);
    assert_eq!(
        resolve(&bp, 0, &NameTable::new(), StageResult::Success, Some("implement")),
        Some(("implement".to_string(), 1))
    );
}

#[test]
fn resolve_transition_multiple_llm_choice_fallback_to_first() {
    let bp = graph(
        vec![
            edge("b", TransitionCondition::LlmChoice),
            edge("c", TransitionCondition::LlmChoice),
        ],
        &["b", "c"],
    );
    let next = |answer: &str| {
        resolve(&bp, 0, &NameTable::new(), StageResult::Success, Some(answer)).unwrap().0
    };
    // One of the two, and the one whose name occurs in the answer.
    assert_eq!(next("XXXXXXXXX_no_match"), "c");
    assert_eq!(next("XXXXXXXXX_no_hit"), "b");
}

/// The edges to `b` and `c` between which a model chooses.
fn choices(hint_b: Option<&str>, hint_c: Option<&str>) -> Vec<(String, TransitionEdge)> {
    let mut b = edge("b", TransitionCondition::LlmChoice);
    b.1.hint = hint_b.map(str::to_string);
    let mut c = edge("c", TransitionCondition::LlmChoice);
    c.1.hint = hint_c.map(str::to_string);
    vec![b, c]
}

#[test]
fn prompt_llm_transition_returns_matching_edge() {
    let edges = choices(Some("go to b"), None);
    let mut w = window();
    let result = prompt_llm_transition(&stage("a"), &edges, &mut w, "b");
    assert!(result.is_some());
    assert_eq!(result.unwrap().target, "b");
}

#[test]
fn prompt_llm_transition_with_custom_prompt() {
    let mut s = stage("a");
    s.transition_prompt = Some("Custom: pick the next stage.".to_string());
    let edges = choices(None, Some("c is the better choice"));
    let mut w = Some(window());
    assert!(ask_transition(&s, &edges, &registry("mock"), "mock", &mut w).is_some());
    let mut w = w.unwrap();
    let asked = texts(&w, "conversation");
    assert!(asked[0].starts_with("Custom: pick the next stage."), "{asked:?}");
    let result = prompt_llm_transition(&s, &edges, &mut w, "c");
    assert!(result.is_some());
    assert_eq!(result.unwrap().target, "c");
}

#[test]
fn prompt_llm_transition_custom_prompt_and_allow_complete_mentions_done() {
    let mut review = stage("review");
    review.allow_complete = true;
    review.transition_prompt = Some("Review the work and decide what's next.".to_string());
    let edges = vec![edge("implement", TransitionCondition::LlmChoice)];
    assert!(transition_prompt(&review, &edges).contains("ONLY the word DONE"));
    let mut w = window();
    assert!(prompt_llm_transition(&review, &edges, &mut w, "DONE").is_none());
}

fn custom(carry: &[&str], compact: &[&str], clear: &[&str], prompt: Option<&str>) -> EdgeTransform {
    let names = |list: &[&str]| list.iter().map(|name| name.to_string()).collect::<Vec<_>>();
    EdgeTransform::Custom {
        carry: names(carry),
        compact: names(compact),
        clear: names(clear),
        compact_prompt: prompt.map(str::to_string),
    }
}

/// A window after an edge's transform, on a first visit, with a model that gives this
/// summary where it is asked for one. Only `mock` is a provider.
fn transformed(
    transform: EdgeTransform,
    w: ContextWindow,
    provider: &str,
    config: &Option<CompactionConfig>,
    summary: &str,
) -> ContextWindow {
    let mut w = Some(w);
    let left = apply_edge_transform(&transform_edge(transform), &NameTable::new(), &mut w);
    if let Some(plan) = left {
        let asked =
            compact_transform_request(&registry("mock"), &w, provider, "test", config, &plan);
        if asked.is_some() {
            apply_summary(w.as_mut().unwrap(), &plan.only, &plan.protect, summary);
        }
    }
    w.unwrap()
}

fn conversing(text: &str) -> ContextWindow {
    let mut w = window();
    let _ = w.add_to_region("conversation", text.to_string(), 5);
    w
}

#[test]
fn apply_edge_transform_custom_with_compact_no_panic() {
    let transform = custom(&["system"], &["conversation"], &[], Some("Summarize this"));
    let w = transformed(transform, conversing("some content"), "nonexistent", &None, "no");
    assert_eq!(texts(&w, "conversation"), ["some content"]);
}

#[test]
fn apply_edge_transform_custom_compact_uses_default_prompt() {
    let mut w = Some(filled());
    let transform = custom(&["system"], &["conversation"], &[], None);
    let left = apply_edge_transform(&transform_edge(transform), &NameTable::new(), &mut w).unwrap();
    assert!(left.prompt.contains('b') && !left.prompt.is_empty(), "{}", left.prompt);
    let request =
        compact_transform_request(&registry("mock"), &w, "anthropic", "test", &None, &left);
    assert!(request.is_none());
    assert_eq!(texts(&w.unwrap(), "conversation"), ["conv content"]);
}

#[test]
fn apply_edge_transform_compact_explicit_with_config() {
    let config = Some(CompactionConfig {
        provider: "nonexistent".to_string(),
        model: "test-model".to_string(),
        max_summary_tokens: 500,
    });
    let compact = EdgeTransform::Compact { prompt: Some("Custom compact prompt".to_string()) };
    let mut w = Some(filled());
    let left = apply_edge_transform(&transform_edge(compact), &NameTable::new(), &mut w).unwrap();
    assert_eq!(left.prompt, "Custom compact prompt");
    // Without that provider nothing is compacted.
    let request =
        compact_transform_request(&registry("anthropic"), &w, "anthropic", "test", &config, &left);
    assert!(request.is_none());
    let w = w.unwrap();
    assert_eq!(texts(&w, "conversation"), ["conv content"]);
    assert_eq!(texts(&w, "system"), ["system content"]);
}

#[test]
fn apply_edge_transform_compact_no_prompt_with_provider() {
    let compact = EdgeTransform::Compact { prompt: None };
    let w = transformed(
        compact,
        conversing("existing conversation"),
        "mock",
        &None,
        "Compacted context",
    );
    assert!(texts(&w, "conversation").concat().contains("Compacted context"));
    assert!(!texts(&w, "conversation").concat().contains("existing conversation"));
}

#[test]
fn apply_edge_transform_direct_first_visit_is_noop_with_provider() {
    let direct = EdgeTransform::Direct;
    let w = transformed(direct, conversing("original content"), "mock", &None, "Response");
    assert_eq!(texts(&w, "conversation"), ["original content"]);
}

#[test]
fn apply_edge_transform_custom_compact_with_prompt_and_provider() {
    let prompt = Some("Custom compact prompt for test");
    let w = transformed(
        custom(&[], &["conversation"], &[], prompt),
        conversing("conv content to compact"),
        "mock",
        &None,
        "Custom compact result",
    );
    assert!(texts(&w, "conversation").concat().contains("Custom compact result"));
}

#[test]
fn apply_edge_transform_custom_no_compact_no_clear_is_noop() {
    let transform = custom(&["conversation"], &[], &[], None);
    let mut w = Some(conversing("preserved content"));
    let left = apply_edge_transform(&transform_edge(transform), &NameTable::new(), &mut w);
    assert!(left.is_none());
    assert_eq!(texts(&w.unwrap(), "conversation"), ["preserved content"]);
}

#[test]
fn apply_edge_transform_custom_no_context_window_is_noop() {
    let transform = custom(&[], &[], &["conversation"], None);
    let mut w = None;
    let left = apply_edge_transform(&transform_edge(transform), &NameTable::new(), &mut w);
    assert!(left.is_none() && w.is_none());
}

#[test]
fn apply_compact_transform_no_provider_does_not_panic() {
    let none: ProviderRegistry<()> = ProviderRegistry::new();
    let w = Some(filled());
    let request = apply_compact_transform(&none, &w, "nonexistent", "model", "Summarize", &None);
    assert!(request.is_none());
}

#[test]
fn apply_compact_transform_empty_content_does_not_panic() {
    let none: ProviderRegistry<()> = ProviderRegistry::new();
    let w = Some(window());
    let request = apply_compact_transform(&none, &w, "nonexistent", "model", "Summarize", &None);
    assert!(request.is_none());
}

#[test]
fn apply_compact_transform_with_content_and_provider() {
    let w = Some(conversing("User: hello\nAssistant: world"));
    let request = apply_compact_transform(
        &registry("mock"),
        &w,
        "mock",
        "test",
        "Summarize the conversation",
        &None,
    );
    assert_eq!(request.unwrap().content, "[conversation]:\nUser: hello\nAssistant: world");
    let mut w = w.unwrap();
    apply_summary(&mut w, &None, &vec![], "Summary of context");
    assert!(texts(&w, "conversation").concat().contains("Summary of context"));
}
