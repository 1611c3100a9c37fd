//! Questions that agents put to people, and the list of those that are open.

use crate::blueprint::copy_texts;
use crate::text::{same_text, texts};
use vstd::prelude::*;

verus! {

/// How a question is to be answered.
#[derive(Clone, Copy, Debug, PartialEq, Eq, Structural)]
pub enum InteractionKind {
    FreeText,
    MultipleChoice,
    ToolApproval,
}

/// A question.
pub struct InteractionRequest {
    pub id: String,
    pub kind: InteractionKind,
    pub prompt: String,
    pub options: Vec<String>,
    /// What asked, as a short name.
    pub source: String,
}

/// The model of an [`InteractionRequest`].
#[verifier::ext_equal]
pub struct RequestView {
    pub id: Seq<char>,
    pub kind: InteractionKind,
    pub prompt: Seq<char>,
    pub options: Seq<Seq<char>>,
    pub source: Seq<char>,
}

impl View for InteractionRequest {
    type V = RequestView;

    open spec fn view(&self) -> RequestView {
        RequestView {
            id: self.id@,
            kind: self.kind,
            prompt: self.prompt@,
            options: texts(self.options@),
            source: self.source@,
        }
    }
}

impl InteractionRequest {
    /// A question with a list of answers to choose from.
    pub fn multiple_choice(id: String, prompt: String, options: Vec<String>, source: &str) -> (req:
        InteractionRequest)
        ensures
            req@ == (RequestView {
                id: id@,
                kind: InteractionKind::MultipleChoice,
                prompt: prompt@,
                options: texts(options@),
                source: source@,
            }),
    {
        InteractionRequest {
            id,
            kind: InteractionKind::MultipleChoice,
            prompt,
            options,
            source: source.to_owned(),
        }
    }
}

impl Clone for InteractionRequest {
    fn clone(&self) -> (copy: Self)
        ensures
            copy@ == self@,
    {
        InteractionRequest {
            id: self.id.clone(),
            kind: self.kind,
            prompt: self.prompt.clone(),
            options: copy_texts(&self.options),
            source: self.source.clone(),
        }
    }
}

/// An answer.
pub struct InteractionResponse {
    pub request_id: String,
    pub text: String,
    /// The position of the chosen option, where there were options.
    pub choice_index: Option<usize>,
}

impl InteractionResponse {
    /// An answer in words.
    pub fn text(request_id: &str, text: &str) -> (resp: InteractionResponse)
        ensures
            resp.request_id@ == request_id@,
            resp.text@ == text@,
            resp.choice_index is None,
    {
        InteractionResponse {
            request_id: request_id.to_owned(),
            text: text.to_owned(),
            choice_index: None,
        }
    }
}

/// The questions that are open, each with the agent that asked.
pub struct InteractionHub {
    pub open: Vec<(String, InteractionRequest)>,
}

/// The models of open questions.
pub open spec fn open_views(open: Seq<(String, InteractionRequest)>) -> Seq<
    (Seq<char>, RequestView),
> {
    Seq::new(open.len(), |i: int| (open[i].0@, open[i].1@))
}

impl View for InteractionHub {
    type V = Seq<(Seq<char>, RequestView)>;

    open spec fn view(&self) -> Seq<(Seq<char>, RequestView)> {
        open_views(self.open@)
    }
}

/// The position of the first open question with this id.
pub open spec fn question_at(open: Seq<(Seq<char>, RequestView)>, id: Seq<char>, from: int) -> Option<
    int,
>
    decreases open.len() - from,
{
    if from < 0 || from >= open.len() {
        None
    } else if open[from].1.id == id {
        Some(from)
    } else {
        question_at(open, id, from + 1)
    }
}

/// The open questions once the one with this id is closed.
pub open spec fn closed(open: Seq<(Seq<char>, RequestView)>, id: Seq<char>) -> Seq<
    (Seq<char>, RequestView),
> {
    match question_at(open, id, 0) {
        Some(i) => open.remove(i),
        None => open,
    }
}

/// The open questions of all agents but one.
pub open spec fn without_agent(open: Seq<(Seq<char>, RequestView)>, agent_id: Seq<char>) -> Seq<
    (Seq<char>, RequestView),
>
    decreases open.len(),
{
    if open.len() == 0 {
        Seq::empty()
    } else {
        let front = without_agent(open.drop_last(), agent_id);
        if open.last().0 == agent_id {
            front
        } else {
            front.push(open.last())
        }
    }
}

impl InteractionHub {
    /// A hub without open questions.
    pub fn new() -> (hub: InteractionHub)
        ensures
            hub@ == Seq::<(Seq<char>, RequestView)>::empty(),
    {
        let hub = InteractionHub { open: Vec::new() };
        proof {
            assert(hub@ =~= Seq::empty());
        }
        hub
    }

    /// Opens a question of an agent's.
    pub fn ask(&mut self, agent_id: String, request: InteractionRequest)
        ensures
            final(self)@ == old(self)@.push((agent_id@, request@)),
    {
        self.open.push((agent_id, request));
        proof {
            assert(self@ =~= old(self)@.push((agent_id@, request@)));
        }
    }

    /// The questions that are open, each with the agent that asked.
    pub fn pending(&self) -> (out: Vec<(String, InteractionRequest)>)
        ensures
            open_views(out@) == self@,
    {
        let mut out: Vec<(String, InteractionRequest)> = Vec::new();
        let mut i: usize = 0;
        while i < self.open.len()
            invariant
                i <= self.open@.len(),
                out@.len() == i,
                forall|j: int|
                    0 <= j < i ==> (#[trigger] out@[j]).0@ == self.open@[j].0@ && out@[j].1@
                        == self.open@[j].1@,
            decreases self.open.len() - i,
        {
            out.push((self.open[i].0.clone(), self.open[i].1.clone()));
            i = i + 1;
        }
        proof {
            assert(open_views(out@) =~= self@);
        }
        out
    }

    /// Closes the question with this id, and says whether it was open.
    pub fn close(&mut self, id: &str) -> (was_open: bool)
        ensures
            final(self)@ == closed(old(self)@, id@),
            was_open == question_at(old(self)@, id@, 0) is Some,
    {
        let mut i: usize = 0;
        while i < self.open.len()
            invariant
                i <= self@.len(),
                self@ == old(self)@,
                question_at(self@, id@, 0) == question_at(self@, id@, i as int),
            decreases self@.len() - i,
        {
            if same_text(self.open[i].1.id.as_str(), id) {
                let _ = self.open.remove(i);
                proof {
                    assert(self@ =~= closed(old(self)@, id@));
                }
                return true;
            }
            i = i + 1;
        }
        false
    }

    /// Answers an open question, and says whether it was open.
    pub fn answer(&mut self, response: InteractionResponse) -> (was_open: bool)
        ensures
            final(self)@ == closed(old(self)@, response.request_id@),
            was_open == question_at(old(self)@, response.request_id@, 0) is Some,
    {
        self.close(response.request_id.as_str())
    }

    /// Closes every question of an agent's.
    pub fn cancel_for_agent(&mut self, agent_id: &str)
        ensures
            final(self)@ == without_agent(old(self)@, agent_id@),
    {
        let mut all: Vec<(String, InteractionRequest)> = Vec::new();
        std::mem::swap(&mut all, &mut self.open);
        let ghost items = all@;
        let ghost views = open_views(items);
        proof {
            assert(views.take(0) =~= Seq::empty());
            assert(self@ =~= Seq::empty());
        }
        for item in it: all
            invariant
                it.seq() == items,
                views == open_views(items),
                self@ == without_agent(views.take(it.index() as int), agent_id@),
        {
            let ghost before = self@;
            let ghost n = it.index() as int;
            proof {
                assert(views.take(n + 1).drop_last() =~= views.take(n));
                assert(views.take(n + 1).last() == (item.0@, item.1@));
            }
            if !same_text(item.0.as_str(), agent_id) {
                self.open.push(item);
                proof {
                    assert(self@ =~= before.push((item.0@, item.1@)));
                }
            }
        }
        proof {
            assert(views.take(views.len() as int) =~= views);
        }
    }
}

/// The first question with an id is found, at or behind a place.
pub proof fn law_question_is_found_by_its_id(
    open: Seq<(Seq<char>, RequestView)>,
    id: Seq<char>,
    from: int,
)
    requires
        0 <= from,
    ensures
        match question_at(open, id, from) {
            Some(i) => from <= i < open.len() && open[i].1.id == id && forall|j: int|
                from <= j < i ==> (#[trigger] open[j]).1.id != id,
            None => forall|j: int| from <= j < open.len() ==> (#[trigger] open[j]).1.id != id,
        },
    decreases open.len() - from,
{
    if from < open.len() && open[from].1.id != id {
        law_question_is_found_by_its_id(open, id, from + 1);
    }
}

/// Closing a question takes the first one with its id off the list and leaves the others as
/// they stand; closing one that is not open changes nothing.
pub proof fn law_closing_takes_one_question(open: Seq<(Seq<char>, RequestView)>, id: Seq<char>, i: int)
    ensures
        0 <= i < open.len() && open[i].1.id == id && (forall|j: int|
            0 <= j < i ==> (#[trigger] open[j]).1.id != id) ==> closed(open, id) == open.take(i)
            + open.skip(i + 1),
        (forall|j: int| 0 <= j < open.len() ==> (#[trigger] open[j]).1.id != id) ==> closed(
            open,
            id,
        ) == open,
{
    law_question_is_found_by_its_id(open, id, 0);
    if 0 <= i < open.len() && open[i].1.id == id && (forall|j: int|
        0 <= j < i ==> (#[trigger] open[j]).1.id != id) {
        assert(question_at(open, id, 0) == Some(i));
        assert(open.remove(i) =~= open.take(i) + open.skip(i + 1));
    }
}

/// Cancelling for an agent takes all of its questions off the list, and none of another's.
pub proof fn law_cancelling_takes_the_agents_questions(
    open: Seq<(Seq<char>, RequestView)>,
    agent_id: Seq<char>,
)
    ensures
        without_agent(open, agent_id) == open.filter(
            |question: (Seq<char>, RequestView)| question.0 != agent_id,
        ),
    decreases open.len(),
{
    reveal(Seq::filter);
    if open.len() > 0 {
        law_cancelling_takes_the_agents_questions(open.drop_last(), agent_id);
    }
}

} // verus!
