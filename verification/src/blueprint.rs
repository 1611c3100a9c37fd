//! What an agent is built from: its stages and the edges between them.

use crate::components::copy_text;
use crate::text::{same_text, texts};
use vstd::prelude::*;

verus! {

/// What happens to the parent when a fan-out worker fails.
#[derive(Clone, Copy, Debug, PartialEq, Eq, Structural)]
pub enum WorkerFailurePolicy {
    Continue,
    FailAll,
}

/// How a fan-out stage splits its work.
pub struct FanOutConfig {
    pub worker_agent: Option<String>,
    pub worker_stage: Option<String>,
    pub worker_query: Option<String>,
    /// The stage that reads the workers' results, by name.
    pub merge_stage: Option<String>,
    /// How many workers may run at once; `0` is no limit.
    pub max_workers: usize,
    pub on_worker_failure: WorkerFailurePolicy,
    pub split_prompt: String,
    /// The region the results go to; the conversation where none is named.
    pub results_region: Option<String>,
    /// How many work items a split may have.
    pub max_items: Option<usize>,
}

impl FanOutConfig {
    /// How many workers may run at once, or `None` for any number.
    pub open spec fn cap(self) -> Option<usize> {
        if self.max_workers == 0 {
            None
        } else {
            Some(self.max_workers)
        }
    }

    /// How many workers may run at once, or `None` for any number.
    pub fn worker_cap(&self) -> (cap: Option<usize>)
        ensures
            cap == self.cap(),
    {
        if self.max_workers == 0 {
            None
        } else {
            Some(self.max_workers)
        }
    }
}

impl Clone for FanOutConfig {
    fn clone(&self) -> (copy: Self)
        ensures
            copy == *self,
    {
        FanOutConfig {
            worker_agent: copy_text(&self.worker_agent),
            worker_stage: copy_text(&self.worker_stage),
            worker_query: copy_text(&self.worker_query),
            merge_stage: copy_text(&self.merge_stage),
            max_workers: self.max_workers,
            on_worker_failure: self.on_worker_failure,
            split_prompt: self.split_prompt.clone(),
            results_region: copy_text(&self.results_region),
            max_items: self.max_items,
        }
    }
}

/// How a stage runs.
pub enum StageMode {
    Standard,
    FanOut { config: FanOutConfig },
}

/// When an edge may be taken.
#[derive(Clone, Copy, Debug, PartialEq, Eq, Structural)]
pub enum TransitionCondition {
    Always,
    LlmChoice,
    Error,
    MaxIterations,
}

/// How a stage ended.
#[derive(Clone, Copy, Debug, PartialEq, Eq, Structural)]
pub enum StageResult {
    Success,
    Error,
    MaxIterations,
}

/// What an edge does to the context on the way to the next stage.
pub enum EdgeTransform {
    Direct,
    Clear,
    Compact { prompt: Option<String> },
    Custom {
        carry: Vec<String>,
        compact: Vec<String>,
        clear: Vec<String>,
        compact_prompt: Option<String>,
    },
}

/// The model of an [`EdgeTransform`].
pub enum EdgeTransformView {
    Direct,
    Clear,
    Compact { prompt: Option<Seq<char>> },
    Custom {
        carry: Seq<Seq<char>>,
        compact: Seq<Seq<char>>,
        clear: Seq<Seq<char>>,
        compact_prompt: Option<Seq<char>>,
    },
}

/// The text of an optional string.
pub open spec fn opt_text(s: Option<String>) -> Option<Seq<char>> {
    match s {
        Some(text) => Some(text@),
        None => None,
    }
}

impl View for EdgeTransform {
    type V = EdgeTransformView;

    open spec fn view(&self) -> EdgeTransformView {
        match *self {
            EdgeTransform::Direct => EdgeTransformView::Direct,
            EdgeTransform::Clear => EdgeTransformView::Clear,
            EdgeTransform::Compact { prompt } => EdgeTransformView::Compact {
                prompt: opt_text(prompt),
            },
            EdgeTransform::Custom { carry, compact, clear, compact_prompt } => {
                EdgeTransformView::Custom {
                    carry: texts(carry@),
                    compact: texts(compact@),
                    clear: texts(clear@),
                    compact_prompt: opt_text(compact_prompt),
                }
            },
        }
    }
}

/// Equal strings, in the same order.
pub fn copy_texts(v: &Vec<String>) -> (copy: Vec<String>)
    ensures
        texts(copy@) == texts(v@),
{
    let mut copy: Vec<String> = Vec::new();
    let mut i: usize = 0;
    while i < v.len()
        invariant
            i <= v.len(),
            copy.len() == i,
            forall|j: int| 0 <= j < i ==> (#[trigger] copy@[j])@ == v@[j]@,
        decreases v.len() - i,
    {
        copy.push(v[i].clone());
        i = i + 1;
    }
    proof {
        assert(texts(copy@) =~= texts(v@));
    }
    copy
}

/// Whether `name` is one of the strings of `list`.
pub fn names(list: &Vec<String>, name: &str) -> (b: bool)
    ensures
        b == texts(list@).contains(name@),
{
    let mut i: usize = 0;
    while i < list.len()
        invariant
            i <= list.len(),
            forall|j: int| 0 <= j < i ==> (#[trigger] texts(list@)[j]) != name@,
        decreases list.len() - i,
    {
        if same_text(list[i].as_str(), name) {
            proof {
                assert(texts(list@)[i as int] == name@);
            }
            return true;
        }
        i = i + 1;
    }
    false
}

impl Clone for EdgeTransform {
    fn clone(&self) -> (copy: Self)
        ensures
            copy@ == self@,
    {
        match self {
            EdgeTransform::Direct => EdgeTransform::Direct,
            EdgeTransform::Clear => EdgeTransform::Clear,
            EdgeTransform::Compact { prompt } => EdgeTransform::Compact {
                prompt: copy_text(prompt),
            },
            EdgeTransform::Custom { carry, compact, clear, compact_prompt } => {
                EdgeTransform::Custom {
                    carry: copy_texts(carry),
                    compact: copy_texts(compact),
                    clear: copy_texts(clear),
                    compact_prompt: copy_text(compact_prompt),
                }
            },
        }
    }
}

/// An edge from one stage to another.
pub struct TransitionEdge {
    pub target: String,
    pub condition: TransitionCondition,
    pub hint: Option<String>,
    pub transform: EdgeTransform,
}

/// The model of a [`TransitionEdge`].
pub struct TransitionEdgeView {
    pub target: Seq<char>,
    pub condition: TransitionCondition,
    pub hint: Option<Seq<char>>,
    pub transform: EdgeTransformView,
}

impl View for TransitionEdge {
    type V = TransitionEdgeView;

    open spec fn view(&self) -> TransitionEdgeView {
        TransitionEdgeView {
            target: self.target@,
            condition: self.condition,
            hint: opt_text(self.hint),
            transform: self.transform@,
        }
    }
}

impl Clone for TransitionEdge {
    fn clone(&self) -> (copy: Self)
        ensures
            copy@ == self@,
    {
        TransitionEdge {
            target: self.target.clone(),
            condition: self.condition,
            hint: copy_text(&self.hint),
            transform: self.transform.clone(),
        }
    }
}

/// One stage of a blueprint.
pub struct Stage {
    pub name: String,
    pub mode: StageMode,
    /// The edges out of the stage, each under the name of its target. `None`
    /// where stages simply follow one another.
    pub transitions: Option<Vec<(String, TransitionEdge)>>,
    pub max_revisits: Option<usize>,
    pub allow_complete: bool,
    pub transition_prompt: Option<String>,
    pub require_output: bool,
}

/// The stages of an agent.
pub struct Blueprint {
    pub stages: Vec<Stage>,
    pub max_child_depth: Option<usize>,
}

/// The position of the first stage with this name.
pub open spec fn stage_at(stages: Seq<Stage>, name: Seq<char>) -> Option<int>
    decreases stages.len(),
{
    if stages.len() == 0 {
        None
    } else {
        match stage_at(stages.drop_last(), name) {
            Some(i) => Some(i),
            None => if stages.last().name@ == name {
                Some(stages.len() - 1)
            } else {
                None
            },
        }
    }
}

/// A found stage is the first one with the name that was asked for.
pub proof fn lemma_stage_at(stages: Seq<Stage>, name: Seq<char>)
    ensures
        match stage_at(stages, name) {
            Some(i) => 0 <= i < stages.len() && stages[i].name@ == name && forall|j: int|
                0 <= j < i ==> (#[trigger] stages[j]).name@ != name,
            None => forall|j: int| 0 <= j < stages.len() ==> (#[trigger] stages[j]).name@ != name,
        },
    decreases stages.len(),
{
    if stages.len() > 0 {
        lemma_stage_at(stages.drop_last(), name);
        assert forall|j: int| 0 <= j < stages.len() - 1 implies stages.drop_last()[j]
            == #[trigger] stages[j] by {}
    }
}

impl Blueprint {
    /// The position of the first stage with this name.
    pub fn stage_index(&self, name: &str) -> (found: Option<usize>)
        ensures
            found is Some <==> stage_at(self.stages@, name@) is Some,
            found is Some ==> stage_at(self.stages@, name@) == Some(found->0 as int) && found->0
                < self.stages@.len(),
    {
        let mut i: usize = 0;
        proof {
            lemma_stage_at(self.stages@, name@);
        }
        while i < self.stages.len()
            invariant
                i <= self.stages@.len(),
                forall|j: int| 0 <= j < i ==> (#[trigger] self.stages@[j]).name@ != name@,
            decreases self.stages.len() - i,
        {
            if same_text(self.stages[i].name.as_str(), name) {
                proof {
                    lemma_stage_at(self.stages@, name@);
                }
                return Some(i);
            }
            i = i + 1;
        }
        None
    }
}

} // verus!
