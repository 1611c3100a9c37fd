//! What the answer to a split is read as, shape by shape.

use super::parsed_with;
use super::split_parse::{
    candidate_outcome, candidates, fenced, first_usable, item_of, items_of,
    law_array_of_items_is_read_back, law_only_markup_is_dropped, outermost_brackets, scanned_words,
    slug_of, stands_for, without_protocol_tags, words, WorkItem, WorkItemView,
};
use crate::json::{member, parsed_json, JsonView};
use crate::text::{
    ascii_lower, first_at, is_ascii_word, last_char_at, lemma_first_at, lemma_first_char,
    lemma_last_char, occurs_at, occurs_in, trimmed,
};
use vstd::prelude::*;

verus! {

/// Whether this is the first member of an object with its key.
pub open spec fn first_member(members: Seq<(Seq<char>, JsonView)>, i: int) -> bool {
    &&& 0 <= i < members.len()
    &&& forall|j: int| 0 <= j < i ==> (#[trigger] members[j]).0 != members[i].0
}

/// A key stands for the first member that has it, and for none where no member does.
pub proof fn law_key_finds_the_first_member(
    members: Seq<(Seq<char>, JsonView)>,
    key: Seq<char>,
    i: int,
)
    ensures
        first_member(members, i) && members[i].0 == key ==> member(members, key) == Some(
            members[i].1,
        ),
        (forall|j: int| 0 <= j < members.len() ==> (#[trigger] members[j]).0 != key) ==> member(
            members,
            key,
        ) is None,
    decreases members.len(),
{
    if members.len() > 0 {
        let rest = members.skip(1);
        law_key_finds_the_first_member(rest, key, i - 1);
        if first_member(members, i) && members[i].0 == key && i > 0 {
            assert(members[0].0 != members[i].0);
            assert forall|j: int| 0 <= j < i - 1 implies (#[trigger] rest[j]).0 != rest[i - 1].0 by {
                assert(members[j + 1].0 != members[i].0);
            }
        }
        if forall|j: int| 0 <= j < members.len() ==> (#[trigger] members[j]).0 != key {
            assert(members[0].0 != key);
            assert forall|j: int| 0 <= j < rest.len() implies (#[trigger] rest[j]).0 != key by {
                assert(members[j + 1].0 != key);
            }
        }
    }
}

/// The keys under which an object may wrap its items, the foremost first.
pub open spec fn envelope_keys() -> Seq<Seq<char>> {
    seq!["items"@, "work_items"@, "sub_questions"@, "tasks"@]
}

/// An object that holds an array under one of the envelope keys, and under none before it,
/// gives what that array gives by itself.
pub proof fn law_envelope_gives_what_its_array_gives(
    members: Seq<(Seq<char>, JsonView)>,
    k: int,
    items: Seq<JsonView>,
)
    requires
        0 <= k < 4,
        member(members, envelope_keys()[k]) == Some(JsonView::Array(items)),
        forall|j: int|
            0 <= j < k ==> !(member(members, #[trigger] envelope_keys()[j]) is Some && member(
                members,
                envelope_keys()[j],
            )->0 is Array),
    ensures
        items_of(JsonView::Object(members)) == items_of(JsonView::Array(items)),
{
    assert(envelope_keys()[0] == "items"@);
    assert(envelope_keys()[1] == "work_items"@);
    assert(envelope_keys()[2] == "sub_questions"@);
    assert(envelope_keys()[3] == "tasks"@);
}

/// The ids and contexts of an enveloped answer are read back, all of them and in order.
pub proof fn law_enveloped_items_are_read_back(
    members: Seq<(Seq<char>, JsonView)>,
    k: int,
    values: Seq<JsonView>,
    items: Seq<WorkItemView>,
)
    requires
        0 <= k < 4,
        member(members, envelope_keys()[k]) == Some(JsonView::Array(values)),
        forall|j: int|
            0 <= j < k ==> !(member(members, #[trigger] envelope_keys()[j]) is Some && member(
                members,
                envelope_keys()[j],
            )->0 is Array),
        values.len() == items.len(),
        forall|i: int| 0 <= i < values.len() ==> stands_for(#[trigger] values[i], items[i]),
    ensures
        items_of(JsonView::Object(members)) == Ok::<Seq<WorkItemView>, Seq<char>>(items),
{
    law_envelope_gives_what_its_array_gives(members, k, values);
    law_array_of_items_is_read_back(values, items);
}

/// An object that wraps no array is itself the one item, where it has an id or a context, and
/// is refused where it has neither.
pub proof fn law_single_object_is_one_item(members: Seq<(Seq<char>, JsonView)>)
    requires
        forall|j: int|
            0 <= j < 4 ==> !(member(members, #[trigger] envelope_keys()[j]) is Some && member(
                members,
                envelope_keys()[j],
            )->0 is Array),
    ensures
        ({
            let out = items_of(JsonView::Object(members));
            let id = member(members, "id"@);
            let context = member(members, "context"@);
            &&& id is None && context is None ==> out is Err
            &&& id is Some && !(id->0 is Text) ==> out is Err
            &&& (id is Some || context is Some) && (id is None || id->0 is Text) ==> out == Ok::<
                Seq<WorkItemView>,
                Seq<char>,
            >(
                seq![
                    WorkItemView {
                        id: if id is Some {
                            id->0->Text_0
                        } else {
                            Seq::empty()
                        },
                        context: if context is Some {
                            context->0
                        } else {
                            JsonView::Null
                        },
                    },
                ],
            )
        }),
{
    assert(envelope_keys()[0] == "items"@);
    assert(envelope_keys()[1] == "work_items"@);
    assert(envelope_keys()[2] == "sub_questions"@);
    assert(envelope_keys()[3] == "tasks"@);
}

/// An answer that is neither an array nor an object gives no items.
pub proof fn law_plain_value_is_refused(v: JsonView)
    requires
        !(v is Array),
        !(v is Object),
    ensures
        items_of(v) is Err,
{
}

/// What one element of an array is read as: a string is a question, under an id made of its
/// words; an object has its id and its context; a pair is an id and a context; anything else
/// is refused.
pub proof fn law_element_is_read_by_its_shape(v: JsonView)
    ensures
        v is Text ==> item_of(v) == Ok::<WorkItemView, Seq<char>>(
            WorkItemView {
                id: slug_of(v->Text_0),
                context: JsonView::Object(seq![("question"@, v)]),
            },
        ),
        v is Object ==> {
            let id = member(v->Object_0, "id"@);
            let context = member(v->Object_0, "context"@);
            &&& id is Some && !(id->0 is Text) ==> item_of(v) is Err
            &&& id is Some && id->0 is Text ==> item_of(v) is Ok && item_of(v)->Ok_0.id
                == id->0->Text_0
            &&& id is None ==> item_of(v) is Ok && item_of(v)->Ok_0.id == Seq::<char>::empty()
            &&& item_of(v) is Ok && context is Some ==> item_of(v)->Ok_0.context == context->0
            &&& item_of(v) is Ok && context is None ==> item_of(v)->Ok_0.context is Null
        },
        v is Array ==> {
            let parts = v->Array_0;
            &&& parts.len() > 2 ==> item_of(v) is Err
            &&& parts.len() > 0 && !(parts[0] is Text) ==> item_of(v) is Err
            &&& parts.len() == 1 && parts[0] is Text ==> item_of(v) == Ok::<
                WorkItemView,
                Seq<char>,
            >(WorkItemView { id: parts[0]->Text_0, context: JsonView::Null })
            &&& parts.len() == 2 && parts[0] is Text ==> item_of(v) == Ok::<
                WorkItemView,
                Seq<char>,
            >(WorkItemView { id: parts[0]->Text_0, context: parts[1] })
            &&& parts.len() == 0 ==> item_of(v) == Ok::<WorkItemView, Seq<char>>(
                WorkItemView { id: Seq::empty(), context: JsonView::Null },
            )
        },
        !(v is Text) && !(v is Object) && !(v is Array) ==> item_of(v) is Err,
{
}

/// An array gives as many items as it has elements, each read by itself, and is refused where
/// one of them is.
pub proof fn law_array_is_read_element_by_element(values: Seq<JsonView>)
    ensures
        ({
            let out = items_of(JsonView::Array(values));
            &&& out is Ok <==> forall|i: int|
                0 <= i < values.len() ==> item_of(#[trigger] values[i]) is Ok
            &&& out is Ok ==> out->Ok_0.len() == values.len() && forall|i: int|
                0 <= i < values.len() ==> item_of(#[trigger] values[i]) == Ok::<_, Seq<char>>(
                    out->Ok_0[i],
                )
        }),
    decreases values.len(),
{
    if values.len() > 0 {
        let front = values.drop_last();
        law_array_is_read_element_by_element(front);
        assert forall|i: int| 0 <= i < front.len() implies #[trigger] front[i] == values[i] by {}
        assert(values[values.len() - 1] == values.last());
        let out = items_of(JsonView::Array(values));
        let before = items_of(JsonView::Array(front));
        if out is Ok {
            assert forall|i: int| 0 <= i < values.len() implies item_of(#[trigger] values[i])
                == Ok::<_, Seq<char>>(out->Ok_0[i]) by {
                if i < front.len() {
                    assert(item_of(front[i]) == Ok::<_, Seq<char>>(before->Ok_0[i]));
                }
            }
        } else if before is Err {
            let i = choose|i: int| 0 <= i < front.len() && !(item_of(#[trigger] front[i]) is Ok);
            assert(item_of(values[i]) is Err);
        }
    }
}

/// The brackets that are looked for: from the first `[` to the last `]`, where that is behind
/// it; there are none where either is missing or they stand the other way round.
pub proof fn law_outermost_brackets(before: Seq<char>, inner: Seq<char>, after: Seq<char>)
    requires
        !before.contains('['),
        !after.contains(']'),
    ensures
        outermost_brackets(before + seq!['['] + inner + seq![']'] + after) == Some(
            seq!['['] + inner + seq![']'],
        ),
        !inner.contains('[') ==> outermost_brackets(inner) is None,
        !inner.contains(']') ==> outermost_brackets(inner) is None,
{
    let s = before + seq!['['] + inner + seq![']'] + after;
    let start = before.len() as int;
    let end = start + 1 + inner.len();
    lemma_first_char(s, '[');
    lemma_last_char(s, ']', s.len() as int);
    assert(s[start] == '[');
    assert(s[end] == ']');
    assert forall|i: int| 0 <= i < start implies #[trigger] s[i] != '[' by {
        assert(s[i] == before[i]);
    }
    assert forall|i: int| end < i < s.len() implies #[trigger] s[i] != ']' by {
        assert(s[i] == after[i - end - 1]);
    }
    assert(first_at(s, seq!['['], 0) == Some(start));
    assert(last_char_at(s, ']', s.len() as int) == Some(end));
    assert(s.subrange(start, end + 1) =~= seq!['['] + inner + seq![']']);
    lemma_first_char(inner, '[');
    lemma_last_char(inner, ']', inner.len() as int);
}

/// Three backticks stand where they stand, and nowhere before.
proof fn lemma_first_fence(before: Seq<char>, rest: Seq<char>)
    requires
        !before.contains('`'),
        rest.len() >= 3,
        rest[0] == '`',
        rest[1] == '`',
        rest[2] == '`',
    ensures
        first_at(before + rest, "```"@, 0) == Some(before.len() as int),
{
    reveal_strlit("```");
    let s = before + rest;
    let at = before.len() as int;
    lemma_first_at(s, "```"@, 0);
    assert(s.subrange(at, at + 3) =~= "```"@);
    assert(occurs_at(s, "```"@, at));
    assert forall|i: int| 0 <= i < at implies !#[trigger] occurs_at(s, "```"@, i) by {
        if occurs_at(s, "```"@, i) {
            assert(s.subrange(i, i + 3)[0] == '`');
            assert(s[i] == before[i]);
        }
    }
}

/// A block in a fence is found, with the rest of the line behind the opening fence left out,
/// where the answer goes on behind it.
pub proof fn law_fenced_block_is_found(
    before: Seq<char>,
    tag: Seq<char>,
    body: Seq<char>,
    after: Seq<char>,
)
    requires
        !before.contains('`'),
        !tag.contains('`'),
        !tag.contains('\n'),
        !body.contains('`'),
    ensures
        fenced(before + ("```"@ + (tag + seq!['\n'] + (body + ("```"@ + after))))) == Some(
            trimmed(body),
        ),
        !body.contains('\n') ==> fenced(before + ("```"@ + (body + ("```"@ + after)))) == Some(
            trimmed(body),
        ),
        fenced(before) is None,
{
    lemma_fence_with_tag(before, tag, body, after);
    if !body.contains('\n') {
        lemma_fence_in_line(before, body, after);
    }
    reveal_strlit("```");
    lemma_first_at(before, "```"@, 0);
    if let Some(at) = first_at(before, "```"@, 0) {
        assert(before.subrange(at, at + 3)[0] == '`');
        assert(before[at] == '`');
    }
}

/// A block whose opening fence has a line of its own.
proof fn lemma_fence_with_tag(
    before: Seq<char>,
    tag: Seq<char>,
    body: Seq<char>,
    after: Seq<char>,
)
    requires
        !before.contains('`'),
        !tag.contains('`'),
        !tag.contains('\n'),
        !body.contains('`'),
    ensures
        fenced(before + ("```"@ + (tag + seq!['\n'] + (body + ("```"@ + after))))) == Some(
            trimmed(body),
        ),
{
    reveal_strlit("```");
    reveal_strlit("\n");
    let close = "```"@ + after;
    let block = body + close;
    lemma_first_fence(body, close);
    assert(block.take(body.len() as int) =~= body);
    let open = tag + seq!['\n'] + block;
    let s = before + ("```"@ + open);
    lemma_first_fence(before, "```"@ + open);
    assert(s.skip(before.len() as int + 3) =~= open);
    assert("\n"@ =~= seq!['\n']);
    lemma_first_char(open, '\n');
    assert(open[tag.len() as int] == '\n');
    assert forall|i: int| 0 <= i < tag.len() implies #[trigger] open[i] != '\n' by {
        assert(open[i] == tag[i]);
    }
    assert(first_at(open, "\n"@, 0) == Some(tag.len() as int));
    assert(open.take(tag.len() as int) =~= tag);
    assert(!occurs_in(tag, "```"@)) by {
        if occurs_in(tag, "```"@) {
            let at = choose|at: int| occurs_at(tag, "```"@, at);
            assert(tag.subrange(at, at + 3)[0] == '`');
            assert(tag[at] == '`');
        }
    }
    assert(open.skip(tag.len() as int + 1) =~= block);
}

/// A block right behind its opening fence.
proof fn lemma_fence_in_line(before: Seq<char>, body: Seq<char>, after: Seq<char>)
    requires
        !before.contains('`'),
        !body.contains('`'),
        !body.contains('\n'),
    ensures
        fenced(before + ("```"@ + (body + ("```"@ + after)))) == Some(trimmed(body)),
{
    reveal_strlit("```");
    reveal_strlit("\n");
    let close = "```"@ + after;
    let block = body + close;
    lemma_first_fence(body, close);
    assert(block.take(body.len() as int) =~= body);
    let t = before + ("```"@ + block);
    lemma_first_fence(before, "```"@ + block);
    assert(t.skip(before.len() as int + 3) =~= block);
    assert("\n"@ =~= seq!['\n']);
    lemma_first_char(block, '\n');
    if let Some(end) = first_at(block, "\n"@, 0) {
        assert(end >= body.len() + 3) by {
            if end < body.len() {
                assert(block[end] == body[end]);
            } else if end < body.len() + 3 {
                assert(block[end] == '`');
            }
        }
        assert(block.take(end).subrange(body.len() as int, body.len() as int + 3) =~= "```"@);
        assert(occurs_at(block.take(end), "```"@, body.len() as int));
    }
}

/// What is tried, in this order: what stands in a fence, the whole answer, what stands in the
/// outermost brackets.
pub proof fn law_candidates_in_order(text: Seq<char>)
    ensures
        fenced(text) is Some && outermost_brackets(text) is Some ==> candidates(text)
            == seq![fenced(text)->0, text, outermost_brackets(text)->0],
        fenced(text) is Some && outermost_brackets(text) is None ==> candidates(text)
            == seq![fenced(text)->0, text],
        fenced(text) is None && outermost_brackets(text) is Some ==> candidates(text)
            == seq![text, outermost_brackets(text)->0],
        fenced(text) is None && outermost_brackets(text) is None ==> candidates(text)
            == seq![text],
{
}

/// Where no candidate gives items, the reason is that of the last.
pub proof fn law_last_reason_is_given(texts: Seq<Seq<char>>)
    requires
        texts.len() > 0,
        forall|j: int|
            0 <= j < texts.len() ==> candidate_outcome(parsed_json(#[trigger] texts[j])) is Err,
    ensures
        first_usable(texts) == candidate_outcome(parsed_json(texts.last())),
    decreases texts.len(),
{
    assert(candidate_outcome(parsed_json(texts[0])) is Err);
    if texts.len() > 1 {
        let rest = texts.skip(1);
        assert forall|j: int| 0 <= j < rest.len() implies candidate_outcome(
            parsed_json(#[trigger] rest[j]),
        ) is Err by {
            assert(texts[j + 1] == rest[j]);
        }
        law_last_reason_is_given(rest);
        assert(rest.last() == texts.last());
    }
}

/// A text that is not JSON gives the parser's reason; one that is gives what its value gives.
pub proof fn law_candidate_is_judged_by_its_value(parsed: Result<JsonView, Seq<char>>)
    ensures
        parsed is Ok ==> candidate_outcome(parsed) == items_of(parsed->Ok_0),
        parsed is Err ==> candidate_outcome(parsed) == Err::<Seq<WorkItemView>, Seq<char>>(
            "split output is not valid JSON: "@ + parsed->Err_0,
        ),
{
}

/// The words of two texts with something else between them are the words of the one and then
/// those of the other.
pub proof fn law_words_are_parted_by_what_is_no_letter(a: Seq<char>, c: char, b: Seq<char>)
    requires
        !is_ascii_word(c),
    ensures
        words(a.push(c) + b) == words(a) + words(b),
        words(Seq::empty()) == Seq::<Seq<char>>::empty(),
{
    lemma_scan_on(a.push(c), b);
    assert(a.push(c).drop_last() =~= a);
    let (done, open) = scanned_words(a.push(c));
    assert(open.len() == 0);
    assert(done =~= words(a));
    let (more, last) = scanned_words(b);
    let (all, end) = scanned_words(a.push(c) + b);
    assert(words(a.push(c) + b) =~= words(a) + words(b));
    assert(words(Seq::empty()) =~= Seq::<Seq<char>>::empty());
}

/// Reading on behind a finished word reads the rest as if it stood alone.
proof fn lemma_scan_on(a: Seq<char>, b: Seq<char>)
    requires
        scanned_words(a).1.len() == 0,
    ensures
        scanned_words(a + b).0 == scanned_words(a).0 + scanned_words(b).0,
        scanned_words(a + b).1 == scanned_words(b).1,
    decreases b.len(),
{
    if b.len() > 0 {
        assert((a + b).drop_last() =~= a + b.drop_last());
        lemma_scan_on(a, b.drop_last());
        assert((a + b).last() == b.last());
        assert(scanned_words(a + b).0 =~= scanned_words(a).0 + scanned_words(b).0);
    } else {
        assert(a + b =~= a);
        assert(scanned_words(b).0 =~= Seq::empty());
        assert(scanned_words(a).1 =~= scanned_words(b).1);
    }
}

/// An unbroken run of letters and digits is one word, in lower case.
pub proof fn law_run_of_letters_is_one_word(w: Seq<char>)
    requires
        w.len() > 0,
        forall|i: int| 0 <= i < w.len() ==> is_ascii_word(#[trigger] w[i]),
    ensures
        words(w) == seq![Seq::new(w.len(), |i: int| ascii_lower(w[i]))],
{
    lemma_run(w);
    assert(words(w) =~= seq![Seq::new(w.len(), |i: int| ascii_lower(w[i]))]);
}

/// While it is read, a run of letters and digits is the word that is not yet finished.
proof fn lemma_run(w: Seq<char>)
    requires
        forall|i: int| 0 <= i < w.len() ==> is_ascii_word(#[trigger] w[i]),
    ensures
        scanned_words(w).0 == Seq::<Seq<char>>::empty(),
        scanned_words(w).1 == Seq::new(w.len(), |i: int| ascii_lower(w[i])),
    decreases w.len(),
{
    if w.len() > 0 {
        let front = w.drop_last();
        assert forall|i: int| 0 <= i < front.len() implies is_ascii_word(#[trigger] front[i]) by {
            assert(w[i] == front[i]);
        }
        lemma_run(front);
        assert(is_ascii_word(w[w.len() - 1]));
    }
    assert(scanned_words(w).1 =~= Seq::new(w.len(), |i: int| ascii_lower(w[i])));
    assert(scanned_words(w).0 =~= Seq::empty());
}

/// An id made of a text has its first six words, with a hyphen between each two.
pub proof fn law_generated_id_has_the_first_words(s: Seq<char>)
    ensures
        words(s).len() <= 6 ==> slug_of(s) == crate::text::joined(words(s), "-"@),
        words(s).len() > 6 ==> slug_of(s) == crate::text::joined(words(s).take(6), "-"@),
{
}

/// A tag of tool-call markup, which holds the full-width bar, goes without a trace; any other
/// tag stays as it is. What stands before and behind is not touched by either.
pub proof fn law_tags_with_the_bar_go(before: Seq<char>, tag: Seq<char>, after: Seq<char>)
    requires
        !tag.contains('<'),
        !tag.contains('>'),
        !before.contains('\u{ff5c}'),
        !after.contains('\u{ff5c}'),
    ensures
        tag.contains('\u{ff5c}') ==> without_protocol_tags(
            before + (seq!['<'] + tag + seq!['>'] + after),
        ) == before + after,
        !tag.contains('\u{ff5c}') ==> without_protocol_tags(
            before + (seq!['<'] + tag + seq!['>'] + after),
        ) == before + (seq!['<'] + tag + seq!['>'] + after),
{
    law_only_markup_is_dropped(before, tag, after);
    law_only_markup_is_dropped(after, Seq::empty(), Seq::empty());
    assert(Seq::<char>::empty() + after =~= after);
}

/// A parser is handed what stands between the first opening and the last closing bracket, with
/// both, and what it makes of it is the answer; a response without such a text is refused.
pub proof fn law_parser_is_handed_the_brackets<F: Fn(&str) -> Result<Vec<WorkItem>, String>>(
    parse: F,
    content: Seq<char>,
    out: Result<Vec<WorkItem>, String>,
)
    requires
        parsed_with(parse, content, out),
    ensures
        out is Ok ==> exists|text: &str|
            {
                &&& #[trigger] call_ensures(parse, (text,), out)
                &&& text@.len() >= 2
                &&& text@[0] == '['
                &&& text@.last() == ']'
                &&& occurs_in(trimmed(content), text@)
            },
        !trimmed(content).contains('[') || !trimmed(content).contains(']') ==> out is Err
            && out->Err_0@ == "split output is not a JSON array"@,
        out is Err ==> out->Err_0@ == "split output is not a JSON array"@ || exists|
            text: &str,
            reason: String,
        |
            {
                &&& #[trigger] call_ensures(
                    parse,
                    (text,),
                    Err::<Vec<WorkItem>, String>(reason),
                )
                &&& out->Err_0@ == "split output is not a valid JSON array of work items: "@
                    + reason@
            },
{
    let s = trimmed(content);
    lemma_first_char(s, '[');
    lemma_last_char(s, ']', s.len() as int);
    match outermost_brackets(s) {
        Some(slice) => {
            let start = first_at(s, seq!['['], 0)->0;
            let end = last_char_at(s, ']', s.len() as int)->0;
            assert(s[start] == '[' && s[end] == ']');
            assert(slice == s.subrange(start, end + 1));
            assert(slice[0] == s[start]);
            assert(slice.last() == s[end]);
            assert(occurs_at(s, slice, start));
            assert(s.contains('[') && s.contains(']'));
            let (text, got) = choose|text: &str, got: Result<Vec<WorkItem>, String>|
                {
                    &&& text@ == slice
                    &&& #[trigger] call_ensures(parse, (text,), got)
                    &&& match got {
                        Ok(items) => out == Ok::<Vec<WorkItem>, String>(items),
                        Err(e) => out is Err && out->Err_0@
                            == "split output is not a valid JSON array of work items: "@ + e@,
                    }
                };
            match got {
                Ok(_) => {
                    assert(call_ensures(parse, (text,), out));
                },
                Err(reason) => {
                    assert(call_ensures(parse, (text,), Err::<Vec<WorkItem>, String>(reason)));
                },
            }
        },
        None => {},
    }
}

} // verus!
