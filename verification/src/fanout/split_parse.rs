//! Parsing a fan-out split's answer into work items.
//!
//! A split asks a model for a JSON array of work items. The text it answers with
//! is read generously: each shape that is refused costs a correction round.

use crate::json::{
    compact, in_order, invalid_type, law_value_in_order_is_read_back, lemma_member_stands, member,
    parse_json, parsed_json, read_as, readable, scalar_text, scalar_written, too_many_elements,
    type_error, Json, JsonView, JSON_DEPTH,
};
use crate::text::{
    ascii_lower, ascii_word, chars_of, contains, decimal, find_char, find_from, first_at,
    is_ascii_word, join, joined, last_char_at, lemma_first_at, lemma_first_char, lemma_last_char,
    lemma_last_char_alike, occurs_in, rfind_char, same_text, texts, to_ascii_lower, trim, trimmed,
};
use vstd::prelude::*;

verus! {

/// One unit of work produced by a fan-out split.
#[derive(Debug)]
pub struct WorkItem {
    /// Stable id, which labels the worker in the consolidated report.
    pub id: String,
    /// Free-form context handed to the worker.
    pub context: Json,
}

/// The model of a [`WorkItem`].
pub struct WorkItemView {
    pub id: Seq<char>,
    pub context: JsonView,
}

impl View for WorkItem {
    type V = WorkItemView;

    open spec fn view(&self) -> WorkItemView {
        WorkItemView { id: self.id@, context: self.context@ }
    }
}

impl WorkItem {
    /// An equal work item.
    pub fn copy(&self) -> (out: WorkItem)
        ensures
            out@ == self@,
    {
        WorkItem { id: self.id.clone(), context: self.context.copy() }
    }
}

/// The models of several work items.
pub open spec fn item_views(items: Seq<WorkItem>) -> Seq<WorkItemView> {
    Seq::new(items.len(), |i: int| items[i]@)
}

/// The character that the text-protocol tool-call markers of every model family
/// have in common, the fullwidth vertical line.
pub const TOOL_PROTOCOL_SENTINEL: char = '\u{ff5c}';

/// How many words a generated work-item id keeps.
pub const SLUG_WORDS: usize = 6;

/// What is left of a text up to its first `>`, which stands at `close`: where the
/// tag that it closes, from the last `<` before it, holds the sentinel, the tag goes.
pub open spec fn up_to_tag(s: Seq<char>, close: int) -> Seq<char> {
    match last_char_at(s, '<', close) {
        Some(open) => if s.subrange(open + 1, close).contains(TOOL_PROTOCOL_SENTINEL) {
            s.take(open)
        } else {
            s.take(close + 1)
        },
        None => s.take(close + 1),
    }
}

/// `s` with every tag that holds the sentinel taken out. A tag runs from a `<` to the
/// next `>`, with neither in between; whatever is in no such tag stays.
pub open spec fn without_protocol_tags(s: Seq<char>) -> Seq<char>
    decreases s.len(),
{
    match first_at(s, seq!['>'], 0) {
        Some(close) => if 0 <= close < s.len() {
            up_to_tag(s, close) + without_protocol_tags(s.skip(close + 1))
        } else {
            s
        },
        None => s,
    }
}

/// Whether `c` is one of the characters of `s`.
fn has_char(s: &str, c: char) -> (found: bool)
    ensures
        found == s@.contains(c),
{
    let chars = chars_of(s);
    let mut i: usize = 0;
    while i < chars.len()
        invariant
            i <= chars.len(),
            chars@ == s@,
            forall|j: int| 0 <= j < i ==> chars@[j] != c,
        decreases chars.len() - i,
    {
        if chars[i] == c {
            return true;
        }
        i = i + 1;
    }
    false
}

/// A text without the sentinel has nothing to drop.
proof fn lemma_nothing_to_drop(s: Seq<char>)
    requires
        !s.contains(TOOL_PROTOCOL_SENTINEL),
    ensures
        without_protocol_tags(s) == s,
    decreases s.len(),
{
    lemma_first_char(s, '>');
    if let Some(close) = first_at(s, seq!['>'], 0) {
        lemma_last_char(s, '<', close);
        let rest = s.skip(close + 1);
        assert forall|i: int| 0 <= i < rest.len() implies #[trigger] rest[i]
            != TOOL_PROTOCOL_SENTINEL by {
            assert(rest[i] == s[i + close + 1]);
        }
        lemma_nothing_to_drop(rest);
        if let Some(open) = last_char_at(s, '<', close) {
            let tag = s.subrange(open + 1, close);
            assert forall|i: int| 0 <= i < tag.len() implies #[trigger] tag[i]
                != TOOL_PROTOCOL_SENTINEL by {
                assert(tag[i] == s[i + open + 1]);
            }
        }
        assert(s.take(close + 1) + rest =~= s);
    }
}

/// Drops text-protocol tool-call markup, keeping everything around it.
pub fn strip_tool_protocol_markup(text: &str) -> (out: String)
    ensures
        out@ == without_protocol_tags(text@),
{
    if !has_char(text, TOOL_PROTOCOL_SENTINEL) {
        proof {
            lemma_nothing_to_drop(text@);
        }
        return text.to_owned();
    }
    let mut out = String::new();
    let total: usize = text.unicode_len();
    let mut from: usize = 0;
    proof {
        assert(text@.skip(0) =~= text@);
    }
    loop
        invariant
            from <= total,
            total == text@.len(),
            out@ + without_protocol_tags(text@.skip(from as int)) =~= without_protocol_tags(text@),
        ensures
            from <= total,
            out@ + text@.skip(from as int) =~= without_protocol_tags(text@),
        decreases total - from,
    {
        let rest = text.substring_char(from, total);
        proof {
            assert(rest@ =~= text@.skip(from as int));
            lemma_first_char(rest@, '>');
        }
        let close: usize = match find_char(rest, '>') {
            Some(at) => at,
            None => {
                break;
            },
        };
        let head = rest.substring_char(0, close);
        proof {
            assert(head@ =~= rest@.take(close as int));
            assert(forall|i: int| 0 <= i < close ==> #[trigger] head@[i] == rest@[i]);
            lemma_last_char_alike(head@, rest@, '<', close as int);
        }
        let mut kept: usize = close + 1;
        if let Some(open) = rfind_char(head, '<') {
            let tag = rest.substring_char(open + 1, close);
            if has_char(tag, TOOL_PROTOCOL_SENTINEL) {
                kept = open;
            }
        }
        out.append(rest.substring_char(0, kept));
        proof {
            assert(rest@.subrange(0, kept as int) =~= rest@.take(kept as int));
            assert(text@.skip(from + close + 1) =~= rest@.skip(close + 1));
        }
        from = from + close + 1;
    }
    out.append(text.substring_char(from, total));
    proof {
        assert(text@.subrange(from as int, total as int) =~= text@.skip(from as int));
    }
    out
}

/// What a tag leaves of itself.
pub open spec fn tag_left(tag: Seq<char>) -> Seq<char> {
    if tag.contains(TOOL_PROTOCOL_SENTINEL) {
        Seq::empty()
    } else {
        seq!['<'] + tag + seq!['>']
    }
}

/// Text that nothing closes before a tag stays in front of what the tag leaves.
proof fn lemma_first_tag(before: Seq<char>, tag: Seq<char>, after: Seq<char>)
    requires
        !before.contains('>'),
        !tag.contains('<'),
        !tag.contains('>'),
    ensures
        without_protocol_tags(before + (seq!['<'] + tag + seq!['>'] + after)) == before + (tag_left(
            tag,
        ) + without_protocol_tags(after)),
{
    let s = before + (seq!['<'] + tag + seq!['>'] + after);
    let open = before.len() as int;
    let close = (before.len() + 1 + tag.len()) as int;
    lemma_first_char(s, '>');
    assert(s[close] == '>');
    assert forall|i: int| 0 <= i < close implies #[trigger] s[i] != '>' by {
        if i < before.len() {
            assert(s[i] == before[i]);
        } else if i > before.len() {
            assert(s[i] == tag[i - before.len() - 1]);
        }
    }
    assert(first_at(s, seq!['>'], 0) == Some(close));
    lemma_last_char(s, '<', close);
    assert(s[open] == '<');
    let last = last_char_at(s, '<', close)->0;
    if last > open {
        assert(s[last] == tag[last - before.len() - 1]);
    }
    assert(s.subrange(open + 1, close) =~= tag);
    assert(s.take(open) =~= before);
    assert(s.take(close + 1) =~= before + (seq!['<'] + tag + seq!['>']));
    assert(s.skip(close + 1) =~= after);
    assert(up_to_tag(s, close) =~= before + tag_left(tag));
    assert(before + tag_left(tag) + without_protocol_tags(after) =~= before + (tag_left(tag)
        + without_protocol_tags(after)));
}

/// What stands up to the first `>` of a text is treated alike, whatever follows the text.
proof fn lemma_past_close(text: Seq<char>, tail: Seq<char>, close: int)
    requires
        first_at(text, seq!['>'], 0) == Some(close),
    ensures
        0 <= close < text.len(),
        without_protocol_tags(text) == up_to_tag(text, close) + without_protocol_tags(
            text.skip(close + 1),
        ),
        without_protocol_tags(text + tail) == up_to_tag(text, close) + without_protocol_tags(
            text.skip(close + 1) + tail,
        ),
{
    let s = text + tail;
    lemma_first_char(text, '>');
    lemma_first_char(s, '>');
    assert(s[close] == '>');
    let first = first_at(s, seq!['>'], 0)->0;
    if first < close {
        assert(s[first] == text[first]);
    }
    assert(first == close);
    assert(forall|i: int| 0 <= i < close ==> #[trigger] s[i] == text[i]);
    lemma_last_char(s, '<', close);
    lemma_last_char_alike(s, text, '<', close);
    if let Some(open) = last_char_at(s, '<', close) {
        assert(s.subrange(open + 1, close) =~= text.subrange(open + 1, close));
        assert(s.take(open) =~= text.take(open));
    }
    assert(s.take(close + 1) =~= text.take(close + 1));
    assert(s.skip(close + 1) =~= text.skip(close + 1) + tail);
}

/// Exactly the markup is dropped: a tag, with neither `<` nor `>` inside, goes where it
/// holds the sentinel and stays where it does not, and what stands before it and behind
/// it is treated as if the tag were not there. A text without the sentinel stays whole.
pub proof fn law_only_markup_is_dropped(before: Seq<char>, tag: Seq<char>, after: Seq<char>)
    requires
        !tag.contains('<'),
        !tag.contains('>'),
    ensures
        without_protocol_tags(before + (seq!['<'] + tag + seq!['>'] + after))
            == without_protocol_tags(before) + (tag_left(tag) + without_protocol_tags(after)),
        !before.contains(TOOL_PROTOCOL_SENTINEL) ==> without_protocol_tags(before) == before,
    decreases before.len(),
{
    let tail = seq!['<'] + tag + seq!['>'] + after;
    if !before.contains(TOOL_PROTOCOL_SENTINEL) {
        lemma_nothing_to_drop(before);
    }
    lemma_first_char(before, '>');
    match first_at(before, seq!['>'], 0) {
        Some(close) => {
            let rest = before.skip(close + 1);
            lemma_past_close(before, tail, close);
            law_only_markup_is_dropped(rest, tag, after);
            let left = tag_left(tag) + without_protocol_tags(after);
            assert(up_to_tag(before, close) + (without_protocol_tags(rest) + left) =~= up_to_tag(
                before,
                close,
            ) + without_protocol_tags(rest) + left);
        },
        None => {
            lemma_first_tag(before, tag, after);
        },
    }
}

/// The outermost `[ … ]` of a text: from its first `[` to its last `]`.
pub open spec fn outermost_brackets(s: Seq<char>) -> Option<Seq<char>> {
    match (first_at(s, seq!['['], 0), last_char_at(s, ']', s.len() as int)) {
        (Some(start), Some(end)) => if start < end {
            Some(s.subrange(start, end + 1))
        } else {
            None
        },
        _ => None,
    }
}

/// The outermost `[ … ]` in the text: the last-resort extraction.
pub fn outermost_array(text: &str) -> (slice: Option<&str>)
    ensures
        match slice {
            Some(out) => outermost_brackets(text@) == Some(out@),
            None => outermost_brackets(text@) is None,
        },
{
    let _total: usize = text.unicode_len();
    match (find_char(text, '['), rfind_char(text, ']')) {
        (Some(start), Some(end)) => if end > start {
            Some(text.substring_char(start, end + 1))
        } else {
            None
        },
        _ => None,
    }
}

/// What follows the language tag on the line of an opening fence: the rest of
/// the text after that line, unless the line already holds a fence.
pub open spec fn after_fence_tag(after_open: Seq<char>) -> Seq<char> {
    match first_at(after_open, "\n"@, 0) {
        Some(end) => if !occurs_in(after_open.take(end), "```"@) {
            after_open.skip(end + 1)
        } else {
            after_open
        },
        None => after_open,
    }
}

/// The contents of the first fenced code block of a text, without white space at
/// either end.
pub open spec fn fenced(s: Seq<char>) -> Option<Seq<char>> {
    match first_at(s, "```"@, 0) {
        None => None,
        Some(open) => {
            let body = after_fence_tag(s.skip(open + 3));
            match first_at(body, "```"@, 0) {
                None => None,
                Some(close) => Some(trimmed(body.take(close))),
            }
        },
    }
}

/// The contents of the first fenced code block, if the response has one.
pub fn fenced_block(text: &str) -> (block: Option<&str>)
    ensures
        match block {
            Some(out) => fenced(text@) == Some(out@),
            None => fenced(text@) is None,
        },
{
    proof {
        reveal_strlit("```");
        reveal_strlit("\n");
        lemma_first_at(text@, "```"@, 0);
    }
    let total: usize = text.unicode_len();
    let open: usize = match find_from(text, "```", 0) {
        Some(at) => at,
        None => {
            return None;
        },
    };
    let after_open = text.substring_char(open + 3, total);
    proof {
        assert(after_open@ =~= text@.skip(open + 3));
        lemma_first_at(after_open@, "\n"@, 0);
    }
    let body = match find_from(after_open, "\n", 0) {
        Some(end) => {
            let tag = after_open.substring_char(0, end);
            proof {
                assert(tag@ =~= after_open@.take(end as int));
            }
            if !contains(tag, "```") {
                let rest = after_open.substring_char(end + 1, after_open.unicode_len());
                proof {
                    assert(rest@ =~= after_open@.skip(end + 1));
                }
                rest
            } else {
                after_open
            }
        },
        None => after_open,
    };
    proof {
        assert(body@ == after_fence_tag(text@.skip(open + 3)));
        lemma_first_at(body@, "```"@, 0);
    }
    match find_from(body, "```", 0) {
        Some(close) => {
            let inner = body.substring_char(0, close);
            proof {
                assert(inner@ =~= body@.take(close as int));
            }
            Some(trim(inner))
        },
        None => None,
    }
}

/// The words of a text, read from the left: the finished ones, and the one that
/// the text ends in. A word is an unbroken run of ASCII letters and digits, in
/// lower case.
pub open spec fn scanned_words(s: Seq<char>) -> (Seq<Seq<char>>, Seq<char>)
    decreases s.len(),
{
    if s.len() == 0 {
        (Seq::empty(), Seq::empty())
    } else {
        let (done, open) = scanned_words(s.drop_last());
        if is_ascii_word(s.last()) {
            (done, open.push(ascii_lower(s.last())))
        } else if open.len() > 0 {
            (done.push(open), Seq::empty())
        } else {
            (done, open)
        }
    }
}

/// The words of a text in lower case, in order.
pub open spec fn words(s: Seq<char>) -> Seq<Seq<char>> {
    let (done, open) = scanned_words(s);
    if open.len() > 0 {
        done.push(open)
    } else {
        done
    }
}

/// The id generated for a text: its first words, in lower case, with dashes
/// between them.
pub open spec fn slug_of(s: Seq<char>) -> Seq<char> {
    let all = words(s);
    joined(
        if all.len() > SLUG_WORDS {
            all.take(SLUG_WORDS as int)
        } else {
            all
        },
        "-"@,
    )
}

/// A short, stable id for a work item that arrived without one.
pub fn slug(text: &str) -> (id: String)
    ensures
        id@ == slug_of(text@),
{
    let chars = chars_of(text);
    let mut done: Vec<String> = Vec::new();
    let mut open = String::new();
    let mut i: usize = 0;
    proof {
        assert(text@.take(0) =~= Seq::empty());
        assert(texts(done@) =~= Seq::empty());
    }
    while i < chars.len()
        invariant
            i <= chars.len(),
            chars@ == text@,
            scanned_words(text@.take(i as int)) == (texts(done@), open@),
        decreases chars.len() - i,
    {
        proof {
            assert(text@.take(i + 1).drop_last() =~= text@.take(i as int));
        }
        let ghost before = done@;
        if ascii_word(chars[i]) {
            open.push(to_ascii_lower(chars[i]));
        } else if !open.as_str().is_empty() {
            done.push(open);
            proof {
                assert(texts(done@) =~= texts(before).push(done@.last()@));
            }
            open = String::new();
        }
        i = i + 1;
    }
    proof {
        assert(text@.take(i as int) =~= text@);
    }
    let ghost before = done@;
    if !open.as_str().is_empty() {
        done.push(open);
        proof {
            assert(texts(done@) =~= texts(before).push(done@.last()@));
        }
    }
    let ghost all = done@;
    if done.len() > SLUG_WORDS {
        done.truncate(SLUG_WORDS);
        proof {
            assert(texts(done@) =~= texts(all).take(SLUG_WORDS as int));
        }
    }
    join(&done, "-")
}

/// Whether a character may stand in a word of a generated id.
pub open spec fn is_slug_char(c: char) -> bool {
    'a' <= c <= 'z' || '0' <= c <= '9'
}

/// Whether a text is a word of a generated id: not empty, lower-case letters and digits.
pub open spec fn is_slug_word(word: Seq<char>) -> bool {
    word.len() > 0 && forall|i: int| 0 <= i < word.len() ==> is_slug_char(#[trigger] word[i])
}

/// The finished words of a text are words of an id, and the one it ends in is one or
/// empty.
proof fn lemma_scanned_words(s: Seq<char>)
    ensures
        ({
            let (done, open) = scanned_words(s);
            &&& forall|i: int| 0 <= i < done.len() ==> is_slug_word(#[trigger] done[i])
            &&& open.len() > 0 ==> is_slug_word(open)
        }),
    decreases s.len(),
{
    if s.len() > 0 {
        lemma_scanned_words(s.drop_last());
    }
}

/// A word behind a text goes to the one that the text ends in.
proof fn lemma_scan_word(s: Seq<char>, word: Seq<char>)
    requires
        forall|i: int| 0 <= i < word.len() ==> is_slug_char(#[trigger] word[i]),
    ensures
        scanned_words(s + word) == (scanned_words(s).0, scanned_words(s).1 + word),
    decreases word.len(),
{
    if word.len() == 0 {
        assert(s + word =~= s);
        assert(scanned_words(s).1 + word =~= scanned_words(s).1);
    } else {
        let front = word.drop_last();
        assert forall|i: int| 0 <= i < front.len() implies is_slug_char(#[trigger] front[i]) by {
            assert(word[i] == front[i]);
        }
        lemma_scan_word(s, front);
        assert(is_slug_char(word[word.len() - 1]));
        assert((s + word).drop_last() =~= s + front);
        assert((scanned_words(s).1 + front).push(word.last()) =~= scanned_words(s).1 + word);
    }
}

/// Words with dashes between them scan as those words.
proof fn lemma_scan_joined(all: Seq<Seq<char>>)
    requires
        all.len() > 0,
        forall|i: int| 0 <= i < all.len() ==> is_slug_word(#[trigger] all[i]),
    ensures
        scanned_words(joined(all, "-"@)) == (all.drop_last(), all.last()),
    decreases all.len(),
{
    reveal_strlit("-");
    let last = all.last();
    assert(is_slug_word(all[all.len() - 1]));
    if all.len() == 1 {
        assert(joined(all, "-"@) =~= Seq::empty() + last);
        lemma_scan_word(Seq::empty(), last);
        assert(Seq::<char>::empty() + last =~= last);
        assert(all.drop_last() =~= Seq::empty());
    } else {
        let front = all.drop_last();
        assert forall|i: int| 0 <= i < front.len() implies is_slug_word(#[trigger] front[i]) by {
            assert(all[i] == front[i]);
        }
        lemma_scan_joined(front);
        let head = joined(front, "-"@) + "-"@;
        assert(joined(all, "-"@) =~= head + last);
        assert(is_slug_word(front[front.len() - 1]));
        assert(head.drop_last() =~= joined(front, "-"@));
        assert(head.last() == '-');
        assert(front.drop_last().push(front.last()) =~= front);
        lemma_scan_word(head, last);
        assert(Seq::<char>::empty() + last =~= last);
    }
}

/// A generated id has at most so many words, all of lower-case letters and digits, and
/// they are the first words of the text it was made from. An id made from an id is that
/// id.
pub proof fn law_slug_is_bounded_and_stable(s: Seq<char>)
    ensures
        ({
            let kept = words(slug_of(s));
            &&& kept.len() <= SLUG_WORDS
            &&& kept == words(s).take(kept.len() as int)
            &&& kept.len() < SLUG_WORDS ==> kept == words(s)
            &&& forall|i: int| 0 <= i < kept.len() ==> is_slug_word(#[trigger] kept[i])
            &&& slug_of(s) == joined(kept, "-"@)
        }),
        slug_of(slug_of(s)) == slug_of(s),
{
    lemma_scanned_words(s);
    let all = words(s);
    let kept = if all.len() > SLUG_WORDS {
        all.take(SLUG_WORDS as int)
    } else {
        all
    };
    assert forall|i: int| 0 <= i < kept.len() implies is_slug_word(#[trigger] kept[i]) by {
        assert(kept[i] == all[i]);
    }
    assert(all.take(all.len() as int) =~= all);
    if kept.len() > 0 {
        lemma_scan_joined(kept);
        assert(is_slug_word(kept[kept.len() - 1]));
        assert(kept.drop_last().push(kept.last()) =~= kept);
        assert(words(slug_of(s)) == kept);
    } else {
        assert(slug_of(s) =~= Seq::empty());
        assert(words(slug_of(s)) =~= kept);
    }
}

/// The id that a value stands for: it has to be a string.
pub open spec fn id_of(v: Option<JsonView>) -> Result<Seq<char>, Seq<char>> {
    match v {
        None => Ok(Seq::empty()),
        Some(JsonView::Text(s)) => Ok(s),
        Some(other) => Err(type_error(other, "a string"@)),
    }
}

/// The context that a value stands for: any value, and `null` where there is none.
pub open spec fn context_of(v: Option<JsonView>) -> JsonView {
    match v {
        None => JsonView::Null,
        Some(context) => context,
    }
}

/// A JSON value read as the fields of a work item: an object with the members
/// `id` and `context`, or an array of the two in that order. Either may be
/// missing, and an object may have other members too.
pub open spec fn fields_of(v: JsonView) -> Result<WorkItemView, Seq<char>> {
    match v {
        JsonView::Object(members) => match id_of(member(members, "id"@)) {
            Ok(id) => Ok(WorkItemView { id, context: context_of(member(members, "context"@)) }),
            Err(e) => Err(e),
        },
        JsonView::Array(items) => match id_of(
            if items.len() > 0 {
                Some(items[0])
            } else {
                None
            },
        ) {
            Ok(id) => if items.len() > 2 {
                Err(
                    "invalid length "@ + decimal(items.len())
                        + ", expected fewer elements in array"@,
                )
            } else {
                Ok(
                    WorkItemView {
                        id,
                        context: context_of(
                            if items.len() > 1 {
                                Some(items[1])
                            } else {
                                None
                            },
                        ),
                    },
                )
            },
            Err(e) => Err(e),
        },
        other => Err(type_error(other, "struct WorkItem"@)),
    }
}

/// One element of the array as a work item. A plain string is the question
/// itself, under a generated id; anything else is read as the item's fields.
pub open spec fn item_of(v: JsonView) -> Result<WorkItemView, Seq<char>> {
    match v {
        JsonView::Text(question) => Ok(
            WorkItemView {
                id: slug_of(question),
                context: JsonView::Object(seq![("question"@, JsonView::Text(question))]),
            },
        ),
        other => match fields_of(other) {
            Ok(item) => Ok(item),
            Err(e) => Err("split output is not a valid JSON array of work items: "@ + e),
        },
    }
}

/// The position of the first member of `members` with this key.
fn member_index(members: &Vec<(String, Json)>, key: &str) -> (found: Option<usize>)
    ensures
        match found {
            Some(i) => i < members@.len() && member(Json::Object(*members)@->Object_0, key@)
                == Some(members@[i as int].1@),
            None => member(Json::Object(*members)@->Object_0, key@) is None,
        },
{
    let ghost all = Json::Object(*members)@->Object_0;
    let mut i: usize = 0;
    proof {
        assert(all.skip(0) =~= all);
    }
    while i < members.len()
        invariant
            i <= members.len(),
            all == Json::Object(*members)@->Object_0,
            all.len() == members@.len(),
            member(all, key@) == member(all.skip(i as int), key@),
        decreases members.len() - i,
    {
        proof {
            assert(all[i as int] == (members@[i as int].0@, members@[i as int].1@));
            assert(all.skip(i as int).skip(1) =~= all.skip(i + 1));
        }
        if same_text(members[i].0.as_str(), key) {
            return Some(i);
        }
        i = i + 1;
    }
    None
}

/// Whether an exec outcome is the modelled one, for a single work item.
pub open spec fn item_outcome(
    got: Result<WorkItem, String>,
    want: Result<WorkItemView, Seq<char>>,
) -> bool {
    match (got, want) {
        (Ok(item), Ok(view)) => item@ == view,
        (Err(e), Err(text)) => e@ == text,
        _ => false,
    }
}

/// Whether an exec outcome is the modelled one, for a list of work items.
pub open spec fn items_outcome(
    got: Result<Vec<WorkItem>, String>,
    want: Result<Seq<WorkItemView>, Seq<char>>,
) -> bool {
    match (got, want) {
        (Ok(items), Ok(views)) => item_views(items@) == views,
        (Err(e), Err(text)) => e@ == text,
        _ => false,
    }
}

/// The string of an id value.
fn id_text(value: &Json) -> (id: Result<String, String>)
    ensures
        match id {
            Ok(s) => id_of(Some(value@)) == Ok::<Seq<char>, Seq<char>>(s@),
            Err(e) => id_of(Some(value@)) == Err::<Seq<char>, Seq<char>>(e@),
        },
{
    match value {
        Json::Text(s) => Ok(s.clone()),
        other => {
            proof {
                reveal_strlit("a string");
            }
            Err(invalid_type(other, "a string"))
        },
    }
}

/// Reads a JSON value as the fields of a work item.
fn work_item_fields(value: Json) -> (item: Result<WorkItem, String>)
    ensures
        item_outcome(item, fields_of(value@)),
{
    match value {
        Json::Object(members) => {
            let mut members = members;
            let id = match member_index(&members, "id") {
                Some(i) => match id_text(&members[i].1) {
                    Ok(id) => id,
                    Err(e) => {
                        return Err(e);
                    },
                },
                None => String::new(),
            };
            let context = match member_index(&members, "context") {
                Some(i) => members.swap_remove(i).1,
                None => Json::Null,
            };
            Ok(WorkItem { id, context })
        },
        Json::Array(items) => {
            let mut items = items;
            proof {
                let views = value@->Array_0;
                assert(views.len() == items@.len());
                assert(items@.len() > 0 ==> views[0] == items@[0]@);
                assert(items@.len() > 1 ==> views[1] == items@[1]@);
            }
            let id = if items.len() > 0 {
                match id_text(&items[0]) {
                    Ok(id) => id,
                    Err(e) => {
                        return Err(e);
                    },
                }
            } else {
                String::new()
            };
            if items.len() > 2 {
                return Err(too_many_elements(items.len()));
            }
            let context = if items.len() > 1 {
                items.swap_remove(1)
            } else {
                Json::Null
            };
            Ok(WorkItem { id, context })
        },
        other => {
            proof {
                reveal_strlit("struct WorkItem");
            }
            Err(invalid_type(&other, "struct WorkItem"))
        },
    }
}

/// One element of the array, as a work item.
pub fn work_item_from_value(value: Json) -> (item: Result<WorkItem, String>)
    ensures
        item_outcome(item, item_of(value@)),
{
    match value {
        Json::Text(question) => {
            let id = slug(question.as_str());
            let mut members: Vec<(String, Json)> = Vec::new();
            members.push(("question".to_owned(), Json::Text(question)));
            let context = Json::Object(members);
            proof {
                assert(context@->Object_0 =~= seq![("question"@, JsonView::Text(question@))]);
            }
            Ok(WorkItem { id, context })
        },
        other => match work_item_fields(other) {
            Ok(item) => Ok(item),
            Err(e) => {
                let mut message =
                    "split output is not a valid JSON array of work items: ".to_owned();
                message.append(e.as_str());
                Err(message)
            },
        },
    }
}

/// The work items of an array: one for each element, or the error of the first
/// element that is not one.
pub open spec fn items_of_array(items: Seq<JsonView>) -> Result<Seq<WorkItemView>, Seq<char>>
    decreases items.len(),
{
    if items.len() == 0 {
        Ok(Seq::empty())
    } else {
        match items_of_array(items.drop_last()) {
            Err(e) => Err(e),
            Ok(before) => match item_of(items.last()) {
                Err(e) => Err(e),
                Ok(item) => Ok(before.push(item)),
            },
        }
    }
}

/// An error of a first part of an array is the error of the array.
proof fn lemma_array_error(items: Seq<JsonView>, n: int)
    requires
        0 <= n <= items.len(),
        items_of_array(items.take(n)) is Err,
    ensures
        items_of_array(items) == items_of_array(items.take(n)),
    decreases items.len() - n,
{
    if n == items.len() {
        assert(items.take(n) =~= items);
    } else {
        assert(items.take(n + 1).drop_last() =~= items.take(n));
        lemma_array_error(items, n + 1);
    }
}

/// Reads each element of an array as a work item.
fn work_items_from_array(items: Vec<Json>) -> (out: Result<Vec<WorkItem>, String>)
    ensures
        items_outcome(out, items_of_array(Json::Array(items)@->Array_0)),
{
    let ghost views = Json::Array(items)@->Array_0;
    let mut out: Vec<WorkItem> = Vec::new();
    proof {
        assert(views.take(0) =~= Seq::empty());
        assert(item_views(out@) =~= Seq::empty());
    }
    for value in it: items
        invariant
            it.seq() == items@,
            views == Json::Array(items)@->Array_0,
            views.len() == items@.len(),
            items_of_array(views.take(it.index() as int)) == Ok::<Seq<WorkItemView>, Seq<char>>(
                item_views(out@),
            ),
    {
        let ghost n = it.index() as int;
        proof {
            assert(views[n] == items@[n]@);
            assert(views.take(n + 1).drop_last() =~= views.take(n));
        }
        match work_item_from_value(value) {
            Ok(item) => {
                let ghost before = out@;
                out.push(item);
                proof {
                    assert(item_views(out@) =~= item_views(before).push(item@));
                }
            },
            Err(e) => {
                proof {
                    lemma_array_error(views, n + 1);
                }
                return Err(e);
            },
        }
    }
    proof {
        assert(views.take(views.len() as int) =~= views);
    }
    Ok(out)
}

/// The array that a key of an object holds.
pub open spec fn array_member(members: Seq<(Seq<char>, JsonView)>, key: Seq<char>) -> Option<
    Seq<JsonView>,
> {
    match member(members, key) {
        Some(JsonView::Array(items)) => Some(items),
        _ => None,
    }
}

/// The array that an object wraps: under the first of the envelope keys that
/// holds one.
pub open spec fn enveloped(members: Seq<(Seq<char>, JsonView)>) -> Option<Seq<JsonView>> {
    if array_member(members, "items"@) is Some {
        array_member(members, "items"@)
    } else if array_member(members, "work_items"@) is Some {
        array_member(members, "work_items"@)
    } else if array_member(members, "sub_questions"@) is Some {
        array_member(members, "sub_questions"@)
    } else {
        array_member(members, "tasks"@)
    }
}

/// The work items of a JSON value: an array of them, an envelope round such an
/// array, or a single object with an `id` or a `context`.
pub open spec fn items_of(v: JsonView) -> Result<Seq<WorkItemView>, Seq<char>> {
    match v {
        JsonView::Array(items) => items_of_array(items),
        JsonView::Object(members) => match enveloped(members) {
            Some(items) => items_of_array(items),
            None => if member(members, "id"@) is Some || member(members, "context"@) is Some {
                match item_of(v) {
                    Ok(item) => Ok(seq![item]),
                    Err(e) => Err(e),
                }
            } else {
                Err(
                    "split output is a JSON object that is neither a work item (no `id` or `context`) nor a list of them (no `items` array)"@,
                )
            },
        },
        other => Err(
            "split output is not a JSON array (found "@ + scalar_written(other) + ")"@,
        ),
    }
}

/// The position of the first member with this key, if it holds an array.
fn array_member_index(members: &Vec<(String, Json)>, key: &str) -> (found: Option<usize>)
    ensures
        match found {
            Some(i) => i < members@.len() && members@[i as int].1 is Array && array_member(
                Json::Object(*members)@->Object_0,
                key@,
            ) == Some(members@[i as int].1@->Array_0),
            None => array_member(Json::Object(*members)@->Object_0, key@) is None,
        },
{
    match member_index(members, key) {
        Some(i) => match &members[i].1 {
            Json::Array(_) => Some(i),
            _ => None,
        },
        None => None,
    }
}

/// The position of the member that wraps the work items.
fn envelope_index(members: &Vec<(String, Json)>) -> (found: Option<usize>)
    ensures
        match found {
            Some(i) => i < members@.len() && members@[i as int].1 is Array && enveloped(
                Json::Object(*members)@->Object_0,
            ) == Some(members@[i as int].1@->Array_0),
            None => enveloped(Json::Object(*members)@->Object_0) is None,
        },
{
    let items = array_member_index(members, "items");
    if items.is_some() {
        return items;
    }
    let work_items = array_member_index(members, "work_items");
    if work_items.is_some() {
        return work_items;
    }
    let sub_questions = array_member_index(members, "sub_questions");
    if sub_questions.is_some() {
        return sub_questions;
    }
    array_member_index(members, "tasks")
}

/// Reads work items out of a parsed JSON value, accepting the shapes a model
/// reaches for when it is trying to answer the question that was asked.
pub fn work_items_from_value(value: Json) -> (out: Result<Vec<WorkItem>, String>)
    ensures
        items_outcome(out, items_of(value@)),
{
    match value {
        Json::Array(items) => work_items_from_array(items),
        Json::Object(members) => {
            let mut members = members;
            match envelope_index(&members) {
                Some(i) => {
                    let inner = members.swap_remove(i).1;
                    match inner {
                        Json::Array(items) => work_items_from_array(items),
                        _ => Ok(Vec::new()),
                    }
                },
                None => {
                    if member_index(&members, "id").is_none() && member_index(
                        &members,
                        "context",
                    ).is_none() {
                        return Err(
                            "split output is a JSON object that is neither a work item (no `id` or `context`) nor a list of them (no `items` array)".to_owned(),
                        );
                    }
                    match work_item_from_value(Json::Object(members)) {
                        Ok(item) => {
                            let mut out: Vec<WorkItem> = Vec::new();
                            out.push(item);
                            proof {
                                assert(item_views(out@) =~= seq![item@]);
                            }
                            Ok(out)
                        },
                        Err(e) => Err(e),
                    }
                },
            }
        },
        other => {
            let mut message = "split output is not a JSON array (found ".to_owned();
            message.append(scalar_text(&other).as_str());
            message.append(")");
            Err(message)
        },
    }
}

/// What one candidate text gives: the work items of the JSON value it parses to,
/// or the reason why it gives none.
pub open spec fn candidate_outcome(parsed: Result<JsonView, Seq<char>>) -> Result<
    Seq<WorkItemView>,
    Seq<char>,
> {
    match parsed {
        Ok(value) => items_of(value),
        Err(e) => Err("split output is not valid JSON: "@ + e),
    }
}

/// What a parse result gives: the work items of the value, or the reason why
/// there are none.
pub fn work_items_from_parsed(parsed: Result<Json, String>) -> (out: Result<Vec<WorkItem>, String>)
    ensures
        items_outcome(
            out,
            candidate_outcome(
                match parsed {
                    Ok(value) => Ok(value@),
                    Err(e) => Err(e@),
                },
            ),
        ),
{
    match parsed {
        Ok(value) => work_items_from_value(value),
        Err(e) => {
            let mut message = "split output is not valid JSON: ".to_owned();
            message.append(e.as_str());
            Err(message)
        },
    }
}

/// The texts that may hold the answer, most exact first: a fenced code block, the
/// whole response, the outermost brackets.
pub open spec fn candidates(trimmed_text: Seq<char>) -> Seq<Seq<char>> {
    let front = match fenced(trimmed_text) {
        Some(block) => seq![block, trimmed_text],
        None => seq![trimmed_text],
    };
    match outermost_brackets(trimmed_text) {
        Some(slice) => front.push(slice),
        None => front,
    }
}

/// The first candidate that gives work items decides; where none does, the last
/// one's reason is the answer.
pub open spec fn first_usable(texts: Seq<Seq<char>>) -> Result<Seq<WorkItemView>, Seq<char>>
    recommends
        texts.len() > 0,
    decreases texts.len(),
{
    let outcome = candidate_outcome(parsed_json(texts[0]));
    if texts.len() <= 1 || outcome is Ok {
        outcome
    } else {
        first_usable(texts.skip(1))
    }
}

/// What a response holds once text-protocol markup and outer white space are off.
pub open spec fn cleaned(content: Seq<char>) -> Seq<char> {
    trimmed(without_protocol_tags(content))
}

/// Whether a JSON value is an object that holds a work item's id and context.
pub open spec fn stands_for(v: JsonView, item: WorkItemView) -> bool {
    &&& v is Object
    &&& member(v->Object_0, "id"@) == Some(JsonView::Text(item.id))
    &&& member(v->Object_0, "context"@) == Some(item.context)
}

/// An array of objects that hold ids and contexts gives those items, all of them and in
/// order.
pub proof fn law_array_of_items_is_read_back(values: Seq<JsonView>, items: Seq<WorkItemView>)
    requires
        values.len() == items.len(),
        forall|i: int| 0 <= i < values.len() ==> stands_for(#[trigger] values[i], items[i]),
    ensures
        items_of(JsonView::Array(values)) == Ok::<Seq<WorkItemView>, Seq<char>>(items),
    decreases values.len(),
{
    if values.len() > 0 {
        let front = values.drop_last();
        assert forall|i: int| 0 <= i < front.len() implies stands_for(
            #[trigger] front[i],
            items.drop_last()[i],
        ) by {
            assert(values[i] == front[i]);
        }
        law_array_of_items_is_read_back(front, items.drop_last());
        assert(stands_for(values[values.len() - 1], items[items.len() - 1]));
        assert(items.drop_last().push(items.last()) =~= items);
    } else {
        assert(items =~= Seq::empty());
    }
}

/// A response that is a JSON array of items, with white space around it or without, gives
/// those items, whatever brackets their texts hold: it has no fence and no markup, and
/// what the JSON parser makes of it is an array of objects that hold the items.
pub proof fn law_plain_answer_is_read_back(
    content: Seq<char>,
    values: Seq<JsonView>,
    items: Seq<WorkItemView>,
)
    requires
        !content.contains(TOOL_PROTOCOL_SENTINEL),
        !occurs_in(trimmed(content), "```"@),
        parsed_json(trimmed(content)) == Ok::<JsonView, Seq<char>>(JsonView::Array(values)),
        values.len() == items.len(),
        forall|i: int| 0 <= i < values.len() ==> stands_for(#[trigger] values[i], items[i]),
    ensures
        first_usable(candidates(cleaned(content))) == Ok::<Seq<WorkItemView>, Seq<char>>(items),
{
    lemma_nothing_to_drop(content);
    lemma_first_at(trimmed(content), "```"@, 0);
    law_array_of_items_is_read_back(values, items);
    assert(candidates(cleaned(content))[0] == trimmed(content));
}

/// Work items as the JSON array that holds them, each with its id ahead of its context.
pub open spec fn items_value(items: Seq<WorkItemView>) -> JsonView {
    JsonView::Array(
        Seq::new(
            items.len(),
            |i: int|
                JsonView::Object(
                    seq![
                        ("id"@, JsonView::Text(items[i].id)),
                        ("context"@, items[i].context),
                    ],
                ),
        ),
    )
}

/// Whether a response is the JSON text of an array, with white space around it or without,
/// whose objects hold these items, their members in any order, and can be read.
pub open spec fn plain_answer(
    content: Seq<char>,
    values: Seq<JsonView>,
    items: Seq<WorkItemView>,
) -> bool {
    &&& compact(JsonView::Array(values)) == trimmed(content)
    &&& readable(JsonView::Array(values), JSON_DEPTH as nat)
    &&& values.len() == items.len()
    &&& forall|i: int|
        0 <= i < values.len() ==> stands_for(#[trigger] values[i], items[i]) && in_order(
            items[i].context,
        )
    &&& !content.contains(TOOL_PROTOCOL_SENTINEL)
    &&& !occurs_in(trimmed(content), "```"@)
}

/// Work items that are written as JSON, id first, are a plain answer: so they are read back,
/// all of them and in order, from that text with white space around it or without. Their
/// contexts hold no number but integers, are not too deep and have their members in order,
/// and the text holds neither a fence nor the character of the tool markup.
pub proof fn law_written_items_are_a_plain_answer(content: Seq<char>, items: Seq<WorkItemView>)
    requires
        compact(items_value(items)) == trimmed(content),
        forall|i: int|
            0 <= i < items.len() ==> readable(
                (#[trigger] items[i]).context,
                (JSON_DEPTH - 2) as nat,
            ) && in_order(items[i].context),
        !content.contains(TOOL_PROTOCOL_SENTINEL),
        !occurs_in(trimmed(content), "```"@),
    ensures
        plain_answer(content, items_value(items)->Array_0, items),
{
    reveal_strlit("id");
    reveal_strlit("context");
    let values = items_value(items)->Array_0;
    assert forall|i: int| 0 <= i < values.len() implies stands_for(#[trigger] values[i], items[i])
        && readable(values[i], (JSON_DEPTH - 1) as nat) by {
        reveal_with_fuel(member, 3);
        let members = values[i]->Object_0;
        assert("context"@.len() != "id"@.len());
        assert(members.skip(1)[0] == ("context"@, items[i].context));
        assert(readable(items[i].context, (JSON_DEPTH - 2) as nat));
        assert(readable(JsonView::Text(items[i].id), (JSON_DEPTH - 2) as nat));
    }
}

/// An object that is read as one that holds an item holds that item.
proof fn lemma_read_item(read: JsonView, value: JsonView, item: WorkItemView)
    requires
        read_as(read, value),
        stands_for(value, item),
        in_order(item.context),
    ensures
        stands_for(read, item),
{
    reveal_with_fuel(read_as, 2);
    let members = value->Object_0;
    let id = lemma_member_stands(members, "id"@);
    let context = lemma_member_stands(members, "context"@);
    assert(members[id].0 == "id"@ && members[context].0 == "context"@);
    law_value_in_order_is_read_back(member(read->Object_0, "context"@)->0, item.context);
}

/// An array that is read as one whose objects hold items gives those items.
proof fn lemma_read_items(read: JsonView, values: Seq<JsonView>, items: Seq<WorkItemView>)
    requires
        read_as(read, JsonView::Array(values)),
        values.len() == items.len(),
        forall|i: int|
            0 <= i < values.len() ==> stands_for(#[trigger] values[i], items[i]) && in_order(
                items[i].context,
            ),
    ensures
        read is Array,
        read->Array_0.len() == items.len(),
        forall|i: int|
            0 <= i < items.len() ==> stands_for(#[trigger] read->Array_0[i], items[i]),
{
    assert forall|i: int| 0 <= i < items.len() implies stands_for(
        #[trigger] read->Array_0[i],
        items[i],
    ) by {
        assert(stands_for(values[i], items[i]));
        lemma_read_item(read->Array_0[i], values[i], items[i]);
    }
}

/// Parses a split response into work items. Items that were written as JSON are read back.
pub fn parse_work_items(content: &str) -> (out: Result<Vec<WorkItem>, String>)
    ensures
        items_outcome(out, first_usable(candidates(cleaned(content@)))),
        forall|values: Seq<JsonView>, items: Seq<WorkItemView>| #[trigger]
            plain_answer(content@, values, items) ==> items_outcome(
                out,
                Ok::<Seq<WorkItemView>, Seq<char>>(items),
            ),
{
    let stripped = strip_tool_protocol_markup(content);
    let text = trim(stripped.as_str());
    let ghost all = candidates(text@);
    let block = fenced_block(text);
    proof {
        assert forall|values: Seq<JsonView>, items: Seq<WorkItemView>| #[trigger] plain_answer(
            content@,
            values,
            items,
        ) implies block is None by {
            lemma_nothing_to_drop(content@);
            lemma_first_at(text@, "```"@, 0);
        }
    }
    if let Some(fence) = block {
        let parsed = work_items_from_parsed(parse_json(fence));
        if parsed.is_ok() {
            return parsed;
        }
    }
    let ghost rest = if block is Some {
        all.skip(1)
    } else {
        all
    };
    proof {
        assert(rest[0] == text@);
        assert(first_usable(all) == first_usable(rest));
    }
    let parsed = parse_json(text);
    proof {
        assert forall|values: Seq<JsonView>, items: Seq<WorkItemView>| #[trigger] plain_answer(
            content@,
            values,
            items,
        ) implies first_usable(all) == Ok::<Seq<WorkItemView>, Seq<char>>(items) by {
            lemma_nothing_to_drop(content@);
            assert(text@ == trimmed(content@));
            let read = parsed->Ok_0@;
            assert(compact(JsonView::Array(values)) == text@);
            lemma_read_items(read, values, items);
            assert(parsed_json(text@) == Ok::<JsonView, Seq<char>>(
                JsonView::Array(read->Array_0),
            ));
            law_plain_answer_is_read_back(content@, read->Array_0, items);
        }
    }
    let whole = work_items_from_parsed(parsed);
    match outermost_array(text) {
        Some(slice) => {
            if whole.is_ok() {
                return whole;
            }
            proof {
                assert(rest.skip(1) =~= seq![slice@]);
                assert(first_usable(seq![slice@]) == candidate_outcome(parsed_json(slice@)));
            }
            work_items_from_parsed(parse_json(slice))
        },
        None => whole,
    }
}

/// Items that parse as an array come out in the order of the array, one for each
/// element.
pub proof fn law_array_keeps_order_and_count(items: Seq<JsonView>)
    ensures
        match items_of_array(items) {
            Ok(out) => out.len() == items.len() && forall|i: int|
                0 <= i < items.len() ==> item_of(#[trigger] items[i]) == Ok::<_, Seq<char>>(
                    out[i],
                ),
            Err(_) => exists|i: int| 0 <= i < items.len() && item_of(#[trigger] items[i]) is Err,
        },
    decreases items.len(),
{
    if items.len() > 0 {
        let front = items.drop_last();
        law_array_keeps_order_and_count(front);
        match items_of_array(front) {
            Ok(out) => {
                assert forall|i: int| 0 <= i < front.len() implies item_of(#[trigger] items[i])
                    == Ok::<_, Seq<char>>(out[i]) by {
                    assert(front[i] == items[i]);
                }
                assert(items[items.len() - 1] == items.last());
            },
            Err(_) => {
                let i = choose|i: int| 0 <= i < front.len() && item_of(#[trigger] front[i]) is Err;
                assert(items[i] == front[i]);
            },
        }
    }
}

/// A response always gets an answer, whatever it holds: the whole response is always
/// tried, so a failing one leaves a real reason.
pub proof fn law_whole_response_is_always_tried(text: Seq<char>)
    ensures
        candidates(text).len() > 0,
        candidates(text).contains(text),
{
    let all = candidates(text);
    let k: int = if fenced(text) is Some {
        1
    } else {
        0
    };
    assert(all[k] == text);
}

/// The first candidate that gives items decides: where the whole response gives some
/// and no fence comes before it, the brackets are not looked at.
pub proof fn law_first_usable_candidate_decides(texts: Seq<Seq<char>>, k: int)
    requires
        0 <= k < texts.len(),
        candidate_outcome(parsed_json(texts[k])) is Ok,
        forall|j: int|
            0 <= j < k ==> candidate_outcome(parsed_json(#[trigger] texts[j])) is Err,
    ensures
        first_usable(texts) == candidate_outcome(parsed_json(texts[k])),
    decreases k,
{
    if k > 0 {
        let rest = texts.skip(1);
        assert(candidate_outcome(parsed_json(texts[0])) is Err);
        assert(rest[k - 1] == texts[k]);
        assert forall|j: int| 0 <= j < k - 1 implies candidate_outcome(
            parsed_json(#[trigger] rest[j]),
        ) is Err by {
            assert(rest[j] == texts[j + 1]);
        }
        law_first_usable_candidate_decides(rest, k - 1);
    }
}

} // verus!
