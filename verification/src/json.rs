//! JSON values as the runtime reads them.

use crate::text::{decimal, decimal_text, joined};
use vstd::prelude::*;

verus! {

/// `serde_json::Value`, as the parser hands it out.
#[verifier::external_type_specification]
#[verifier::external_body]
pub struct ExValue(serde_json::Value);

/// A JSON value.
///
/// A number keeps its integer value where it has one; any other number keeps the
/// text it is written as. The members of an object are in the order of the
/// parsed map, each key once.
#[derive(Debug)]
pub enum Json {
    Null,
    Bool(bool),
    PosInt(u64),
    NegInt(i64),
    Float(String),
    Text(String),
    Array(Vec<Json>),
    Object(Vec<(String, Json)>),
}

/// The model of a [`Json`] value.
pub enum JsonView {
    Null,
    Bool(bool),
    PosInt(u64),
    NegInt(i64),
    Float(Seq<char>),
    Text(Seq<char>),
    Array(Seq<JsonView>),
    Object(Seq<(Seq<char>, JsonView)>),
}

impl Json {
    /// The model of this value.
    pub open spec fn model(self) -> JsonView
        decreases self,
    {
        match self {
            Json::Null => JsonView::Null,
            Json::Bool(b) => JsonView::Bool(b),
            Json::PosInt(n) => JsonView::PosInt(n),
            Json::NegInt(n) => JsonView::NegInt(n),
            Json::Float(s) => JsonView::Float(s@),
            Json::Text(s) => JsonView::Text(s@),
            Json::Array(items) => JsonView::Array(
                Seq::new(
                    items@.len(),
                    |i: int|
                        if 0 <= i < items@.len() {
                            items@[i].model()
                        } else {
                            JsonView::Null
                        },
                ),
            ),
            Json::Object(members) => JsonView::Object(
                Seq::new(
                    members@.len(),
                    |i: int|
                        if 0 <= i < members@.len() {
                            (members@[i].0@, members@[i].1.model())
                        } else {
                            (Seq::empty(), JsonView::Null)
                        },
                ),
            ),
        }
    }
}

impl View for Json {
    type V = JsonView;

    open spec fn view(&self) -> JsonView {
        self.model()
    }
}

/// What `serde_json::from_str::<serde_json::Value>` makes of a text: the value it
/// holds, or the text of the parse error.
pub uninterp spec fn parsed_json(text: Seq<char>) -> Result<JsonView, Seq<char>>;

/// What `serde_json::Value`'s `Display` writes for a value: its compact JSON text.
pub uninterp spec fn written_json(value: JsonView) -> Seq<char>;

/// Whether a text comes before another, character by character.
pub open spec fn text_before(a: Seq<char>, b: Seq<char>) -> bool
    decreases b.len(),
{
    if b.len() == 0 {
        false
    } else {
        a.len() == 0 || a[0] < b[0] || a[0] == b[0] && text_before(a.skip(1), b.skip(1))
    }
}

/// The value of the first member of an object with this key.
pub open spec fn member(members: Seq<(Seq<char>, JsonView)>, key: Seq<char>) -> Option<JsonView>
    decreases members.len(),
{
    if members.len() == 0 {
        None
    } else if members[0].0 == key {
        Some(members[0].1)
    } else {
        member(members.skip(1), key)
    }
}

/// Whether the members of an object stand in the order of their keys, each key once.
pub open spec fn keys_ascend(members: Seq<(Seq<char>, JsonView)>) -> bool {
    forall|i: int, j: int|
        0 <= i < j < members.len() ==> text_before(
            (#[trigger] members[i]).0,
            (#[trigger] members[j]).0,
        )
}

/// Whether the members of all objects of a value stand in the order of their keys.
pub open spec fn in_order(value: JsonView) -> bool
    decreases value,
{
    match value {
        JsonView::Array(items) => forall|i: int|
            0 <= i < items.len() ==> in_order(#[trigger] items[i]),
        JsonView::Object(members) => {
            &&& keys_ascend(members)
            &&& forall|i: int| 0 <= i < members.len() ==> in_order((#[trigger] members[i]).1)
        },
        _ => true,
    }
}

/// Whether the text of a value can be read: the value is at most so many levels deep, its
/// numbers are integers, each under the sign it has, and no object has a key twice.
pub open spec fn readable(value: JsonView, depth: nat) -> bool
    decreases depth,
{
    match value {
        JsonView::NegInt(n) => n < 0,
        JsonView::Float(_) => false,
        JsonView::Array(items) => {
            &&& depth > 0
            &&& forall|i: int|
                0 <= i < items.len() ==> readable(#[trigger] items[i], (depth - 1) as nat)
        },
        JsonView::Object(members) => {
            &&& depth > 0
            &&& forall|i: int|
                0 <= i < members.len() ==> readable((#[trigger] members[i]).1, (depth - 1) as nat)
            &&& forall|i: int, j: int|
                0 <= i < j < members.len() ==> (#[trigger] members[i]).0 != (
                #[trigger] members[j]).0
        },
        _ => true,
    }
}

/// Whether a value that was read is another: the same value, with the members of each of its
/// objects in the order of their keys.
pub open spec fn read_as(read: JsonView, value: JsonView) -> bool
    decreases value,
{
    match value {
        JsonView::Array(items) => {
            &&& read is Array
            &&& read->Array_0.len() == items.len()
            &&& forall|i: int|
                0 <= i < items.len() ==> read_as(read->Array_0[i], #[trigger] items[i])
        },
        JsonView::Object(members) => {
            &&& read is Object
            &&& read->Object_0.len() == members.len()
            &&& keys_ascend(read->Object_0)
            &&& forall|i: int|
                0 <= i < members.len() ==> member(read->Object_0, (#[trigger] members[i]).0) is Some
                    && read_as(member(read->Object_0, members[i].0)->0, members[i].1)
        },
        _ => read == value,
    }
}

/// How many levels deep a JSON text may be.
pub const JSON_DEPTH: usize = 127;

/// The hexadecimal digit, in lower case, for a number below sixteen.
pub open spec fn hex_digit(n: u32) -> char {
    if n < 10 {
        (('0' as u32) + n) as char
    } else {
        (('a' as u32) + (n - 10)) as char
    }
}

/// How a character is written inside a JSON string: quotes, backslashes and control
/// characters are escaped, everything else stands for itself.
pub open spec fn escaped(c: char) -> Seq<char> {
    if c == '"' {
        seq!['\\', '"']
    } else if c == '\\' {
        seq!['\\', '\\']
    } else if c == '\u{8}' {
        seq!['\\', 'b']
    } else if c == '\t' {
        seq!['\\', 't']
    } else if c == '\n' {
        seq!['\\', 'n']
    } else if c == '\u{c}' {
        seq!['\\', 'f']
    } else if c == '\r' {
        seq!['\\', 'r']
    } else if (c as u32) < 32 {
        seq!['\\', 'u', '0', '0', hex_digit((c as u32) / 16), hex_digit((c as u32) % 16)]
    } else {
        seq![c]
    }
}

/// The characters of a text, each as it is written inside a JSON string.
pub open spec fn escaped_text(text: Seq<char>) -> Seq<char>
    decreases text.len(),
{
    if text.len() == 0 {
        Seq::empty()
    } else {
        escaped_text(text.drop_last()) + escaped(text.last())
    }
}

/// A text as a JSON string literal.
pub open spec fn json_string(text: Seq<char>) -> Seq<char> {
    seq!['"'] + escaped_text(text) + seq!['"']
}

/// The text of the error that `serde::de::Error::invalid_type` makes for
/// `serde_json::Error`, for a value where something else was expected.
pub uninterp spec fn invalid_type_text(found: JsonView, expected: Seq<char>) -> Seq<char>;

/// An integer in decimal digits, behind a minus sign where it is negative.
pub open spec fn integer_written(n: int) -> Seq<char> {
    if n < 0 {
        "-"@ + decimal((-n) as nat)
    } else {
        decimal(n as nat)
    }
}

/// How a type error speaks of the value it found, where that is short to say: not of
/// a string, which it writes with escapes, nor of a number that is no integer.
pub open spec fn found_words(found: JsonView) -> Option<Seq<char>> {
    match found {
        JsonView::Null => Some("null"@),
        JsonView::Bool(b) => Some(
            if b {
                "boolean `true`"@
            } else {
                "boolean `false`"@
            },
        ),
        JsonView::PosInt(n) => Some("integer `"@ + integer_written(n as int) + "`"@),
        JsonView::NegInt(n) => Some("integer `"@ + integer_written(n as int) + "`"@),
        JsonView::Array(_) => Some("sequence"@),
        JsonView::Object(_) => Some("map"@),
        JsonView::Float(_) => None,
        JsonView::Text(_) => None,
    }
}

/// The text of the error for a value where something else was expected.
pub open spec fn type_error(found: JsonView, expected: Seq<char>) -> Seq<char> {
    match found_words(found) {
        Some(words) => "invalid type: "@ + words + ", expected "@ + expected,
        None => invalid_type_text(found, expected),
    }
}

/// A `serde_json::Value` as a [`Json`], variant for variant.
#[verifier::external_body]
fn json_of(value: serde_json::Value) -> (json: Json)
{
    match value {
        serde_json::Value::Null => Json::Null,
        serde_json::Value::Bool(b) => Json::Bool(b),
        serde_json::Value::Number(n) => match (n.as_u64(), n.as_i64()) {
            (Some(u), _) => Json::PosInt(u),
            (None, Some(i)) => Json::NegInt(i),
            (None, None) => Json::Float(n.to_string()),
        },
        serde_json::Value::String(s) => Json::Text(s),
        serde_json::Value::Array(a) => Json::Array(a.into_iter().map(json_of).collect()),
        serde_json::Value::Object(m) => {
            Json::Object(m.into_iter().map(|(k, v)| (k, json_of(v))).collect())
        },
    }
}

/// Parses a text with `serde_json::from_str::<serde_json::Value>`. The value, or
/// the text of the error, is what [`parsed_json`] names for that text. From the compact
/// text of a value that is [`readable`] the parser reads that value, whatever the order of
/// the members in the text; the map it reads an object into is in the order of the keys.
#[verifier::external_body]
pub fn parse_json(text: &str) -> (parsed: Result<Json, String>)
    ensures
        match parsed {
            Ok(json) => parsed_json(text@) == Ok::<JsonView, Seq<char>>(json@),
            Err(e) => parsed_json(text@) == Err::<JsonView, Seq<char>>(e@),
        },
        forall|value: JsonView|
            #[trigger] compact(value) == text@ && readable(value, JSON_DEPTH as nat)
                ==> parsed is Ok && read_as(parsed->Ok_0@, value),
{
    match serde_json::from_str::<serde_json::Value>(text) {
        Ok(value) => Ok(json_of(value)),
        Err(e) => Err(e.to_string()),
    }
}

/// A [`Json`] as a `serde_json::Value`, variant for variant.
#[verifier::external_body]
fn value_of(json: &Json) -> (value: serde_json::Value)
{
    match json {
        Json::Null => serde_json::Value::Null,
        Json::Bool(b) => serde_json::Value::from(*b),
        Json::PosInt(n) => serde_json::Value::from(*n),
        Json::NegInt(n) => serde_json::Value::from(*n),
        Json::Float(text) => serde_json::from_str(text).unwrap_or_default(),
        Json::Text(text) => serde_json::Value::from(text.as_str()),
        Json::Array(items) => serde_json::Value::Array(items.iter().map(value_of).collect()),
        Json::Object(members) => serde_json::Value::Object(
            members.iter().map(|(k, v)| (k.clone(), value_of(v))).collect(),
        ),
    }
}

/// Writes a value as `serde_json::Value`'s `Display` does, which is what [`written_json`]
/// names. Where the numbers are integers and the members of objects stand in order, that
/// is the compact text of the value.
#[verifier::external_body]
pub(crate) fn json_text(value: &Json) -> (out: String)
    ensures
        out@ == written_json(value@),
        readable(value@, JSON_DEPTH as nat) && in_order(value@) ==> out@ == compact(value@),
{
    value_of(value).to_string()
}

/// The text of `serde::de::Error::invalid_type` for a JSON value, which is what
/// [`invalid_type_text`] names. Where the value is short to speak of, the text says
/// what was found and what was expected, in these words; an expectation that ends in
/// a digit is left out, since the error could take it for a position.
#[verifier::external_body]
pub(crate) fn invalid_type(found: &Json, expected: &str) -> (out: String)
    ensures
        out@ == invalid_type_text(found@, expected@),
        expected@.len() > 0 && !('0' <= expected@.last() <= '9') ==> out@ == type_error(
            found@,
            expected@,
        ),
{
    let unexpected = match found {
        Json::Null => serde::de::Unexpected::Unit,
        Json::Bool(b) => serde::de::Unexpected::Bool(*b),
        Json::PosInt(n) => serde::de::Unexpected::Unsigned(*n),
        Json::NegInt(n) => serde::de::Unexpected::Signed(*n),
        Json::Float(s) => serde::de::Unexpected::Float(s.parse().unwrap_or_default()),
        Json::Text(s) => serde::de::Unexpected::Str(s),
        Json::Array(_) => serde::de::Unexpected::Seq,
        Json::Object(_) => serde::de::Unexpected::Map,
    };
    <serde_json::Error as serde::de::Error>::invalid_type(unexpected, &expected).to_string()
}

/// The text of `serde::de::Error::invalid_length` for `serde_json::Error`, where
/// an array of `len` elements was too long: it names the length that was found
/// and that fewer were expected.
#[verifier::external_body]
pub(crate) fn too_many_elements(len: usize) -> (out: String)
    ensures
        out@ == "invalid length "@ + decimal(len as nat) + ", expected fewer elements in array"@,
{
    <serde_json::Error as serde::de::Error>::invalid_length(len, &"fewer elements in array").to_string()
}

/// How a value that is neither an array nor an object is written in JSON.
pub open spec fn scalar_written(v: JsonView) -> Seq<char> {
    match v {
        JsonView::Bool(b) => if b {
            "true"@
        } else {
            "false"@
        },
        JsonView::PosInt(n) => decimal(n as nat),
        JsonView::NegInt(n) => integer_written(n as int),
        JsonView::Float(s) => s,
        JsonView::Text(s) => json_string(s),
        _ => "null"@,
    }
}

/// The compact JSON text of a value, with the members of its objects in the order in which
/// they stand.
pub open spec fn compact(value: JsonView) -> Seq<char>
    decreases value,
{
    match value {
        JsonView::Array(items) => "["@ + joined(
            Seq::new(
                items.len(),
                |i: int|
                    if 0 <= i < items.len() {
                        compact(items[i])
                    } else {
                        Seq::empty()
                    },
            ),
            ","@,
        ) + "]"@,
        JsonView::Object(members) => "{"@ + joined(
            Seq::new(
                members.len(),
                |i: int|
                    if 0 <= i < members.len() {
                        json_string(members[i].0) + ":"@ + compact(members[i].1)
                    } else {
                        Seq::empty()
                    },
            ),
            ","@,
        ) + "}"@,
        other => scalar_written(other),
    }
}

/// Writes a value that is neither an array nor an object as JSON.
pub fn scalar_text(value: &Json) -> (out: String)
    requires
        !(value is Array),
        !(value is Object),
    ensures
        out@ == scalar_written(value@),
{
    match value {
        Json::Bool(b) => if *b {
            "true".to_owned()
        } else {
            "false".to_owned()
        },
        Json::PosInt(n) => decimal_text(*n),
        Json::NegInt(n) => if *n < 0 {
            let mut out = "-".to_owned();
            let magnitude: u64 = (-(*n as i128)) as u64;
            out.append(decimal_text(magnitude).as_str());
            out
        } else {
            decimal_text(*n as u64)
        },
        Json::Float(s) => s.clone(),
        Json::Text(_) => json_text(value),
        _ => "null".to_owned(),
    }
}

impl Json {
    /// An equal value.
    pub fn copy(&self) -> (out: Json)
        ensures
            out@ == self@,
        decreases self,
    {
        match self {
            Json::Null => Json::Null,
            Json::Bool(b) => Json::Bool(*b),
            Json::PosInt(n) => Json::PosInt(*n),
            Json::NegInt(n) => Json::NegInt(*n),
            Json::Float(s) => Json::Float(s.clone()),
            Json::Text(s) => Json::Text(s.clone()),
            Json::Array(items) => {
                let mut out: Vec<Json> = Vec::new();
                let mut i: usize = 0;
                while i < items.len()
                    invariant
                        i <= items.len(),
                        out.len() == i,
                        decreases_to!(self => items),
                        forall|j: int| 0 <= j < i ==> (#[trigger] out@[j])@ == items@[j]@,
                    decreases items.len() - i,
                {
                    out.push(items[i].copy());
                    i = i + 1;
                }
                let copy = Json::Array(out);
                proof {
                    assert(copy@->Array_0 =~= self@->Array_0);
                }
                copy
            },
            Json::Object(members) => {
                let mut out: Vec<(String, Json)> = Vec::new();
                let mut i: usize = 0;
                while i < members.len()
                    invariant
                        i <= members.len(),
                        out.len() == i,
                        decreases_to!(self => members),
                        forall|j: int|
                            0 <= j < i ==> (#[trigger] out@[j]).0@ == members@[j].0@ && out@[j].1@
                                == members@[j].1@,
                    decreases members.len() - i,
                {
                    out.push((members[i].0.clone(), members[i].1.copy()));
                    i = i + 1;
                }
                let copy = Json::Object(out);
                proof {
                    assert(copy@->Object_0 =~= self@->Object_0);
                }
                copy
            },
        }
    }
}

/// No text is before itself.
proof fn lemma_not_before_itself(a: Seq<char>)
    ensures
        !text_before(a, a),
    decreases a.len(),
{
    if a.len() > 0 {
        lemma_not_before_itself(a.skip(1));
    }
}

/// What is before a text is not behind it.
proof fn lemma_not_before_and_behind(a: Seq<char>, b: Seq<char>)
    ensures
        text_before(a, b) ==> !text_before(b, a),
    decreases a.len(),
{
    if a.len() > 0 && b.len() > 0 {
        lemma_not_before_and_behind(a.skip(1), b.skip(1));
    }
}

/// A member that is found stands somewhere in the object.
pub proof fn lemma_member_stands(members: Seq<(Seq<char>, JsonView)>, key: Seq<char>) -> (i: int)
    requires
        member(members, key) is Some,
    ensures
        0 <= i < members.len(),
        members[i] == (key, member(members, key)->0),
    decreases members.len(),
{
    if members[0].0 == key {
        0
    } else {
        lemma_member_stands(members.skip(1), key) + 1
    }
}

/// Positions that ascend among as many places are all of them.
proof fn lemma_positions(at: Seq<int>, i: int)
    requires
        0 <= i < at.len(),
        forall|k: int| 0 <= k < at.len() ==> 0 <= #[trigger] at[k] < at.len(),
        forall|k: int, l: int| 0 <= k < l < at.len() ==> #[trigger] at[k] < #[trigger] at[l],
    ensures
        at[i] == i,
{
    lemma_position_low(at, i);
    lemma_position_high(at, i);
}

/// Positions that ascend are no lower than their indices.
proof fn lemma_position_low(at: Seq<int>, i: int)
    requires
        0 <= i < at.len(),
        forall|k: int| 0 <= k < at.len() ==> 0 <= #[trigger] at[k] < at.len(),
        forall|k: int, l: int| 0 <= k < l < at.len() ==> #[trigger] at[k] < #[trigger] at[l],
    ensures
        at[i] >= i,
    decreases i,
{
    if i > 0 {
        lemma_position_low(at, i - 1);
        assert(at[i - 1] < at[i]);
    }
}

/// Positions that ascend among as many places are no higher than their indices.
proof fn lemma_position_high(at: Seq<int>, i: int)
    requires
        0 <= i < at.len(),
        forall|k: int| 0 <= k < at.len() ==> 0 <= #[trigger] at[k] < at.len(),
        forall|k: int, l: int| 0 <= k < l < at.len() ==> #[trigger] at[k] < #[trigger] at[l],
    ensures
        at[i] <= i,
    decreases at.len() - i,
{
    if i < at.len() - 1 {
        lemma_position_high(at, i + 1);
        assert(at[i] < at[i + 1]);
    }
}

/// Members in the order of their keys that all stand in as many others in that order stand
/// where those stand.
proof fn lemma_same_places(read: Seq<(Seq<char>, JsonView)>, members: Seq<(Seq<char>, JsonView)>)
    requires
        read.len() == members.len(),
        keys_ascend(read),
        keys_ascend(members),
        forall|i: int|
            0 <= i < members.len() ==> member(read, (#[trigger] members[i]).0) is Some,
    ensures
        forall|i: int|
            0 <= i < members.len() ==> read[i] == (
                (#[trigger] members[i]).0,
                member(read, members[i].0)->0,
            ),
{
    let at = Seq::new(
        members.len(),
        |i: int|
            choose|p: int|
                0 <= p < read.len() && read[p] == (
                    members[i].0,
                    member(read, members[i].0)->0,
                ),
    );
    assert forall|i: int| 0 <= i < at.len() implies 0 <= #[trigger] at[i] < at.len() && read[at[i]]
        == (members[i].0, member(read, members[i].0)->0) by {
        let p = lemma_member_stands(read, members[i].0);
        assert(read[p] == (members[i].0, member(read, members[i].0)->0));
    }
    assert forall|i: int, j: int| 0 <= i < j < at.len() implies #[trigger] at[i]
        < #[trigger] at[j] by {
        lemma_not_before_itself(members[i].0);
        lemma_not_before_and_behind(members[i].0, members[j].0);
        assert(text_before(members[i].0, members[j].0));
        assert(read[at[i]].0 == members[i].0 && read[at[j]].0 == members[j].0);
    }
    assert forall|i: int| 0 <= i < members.len() implies read[i] == (
        (#[trigger] members[i]).0,
        member(read, members[i].0)->0,
    ) by {
        lemma_positions(at, i);
        assert(read[at[i]] == (members[i].0, member(read, members[i].0)->0));
    }
}

/// A value whose objects are in order is read exactly as it is.
pub proof fn law_value_in_order_is_read_back(read: JsonView, value: JsonView)
    requires
        read_as(read, value),
        in_order(value),
    ensures
        read == value,
    decreases value,
{
    match value {
        JsonView::Array(items) => {
            assert forall|i: int| 0 <= i < items.len() implies read->Array_0[i]
                == #[trigger] items[i] by {
                law_value_in_order_is_read_back(read->Array_0[i], items[i]);
            }
            assert(read->Array_0 =~= items);
        },
        JsonView::Object(members) => {
            lemma_same_places(read->Object_0, members);
            assert forall|i: int| 0 <= i < members.len() implies read->Object_0[i]
                == #[trigger] members[i] by {
                law_value_in_order_is_read_back(
                    member(read->Object_0, members[i].0)->0,
                    members[i].1,
                );
            }
            assert(read->Object_0 =~= members);
        },
        _ => {},
    }
}

/// How values are written: each of the words for itself, an integer in its digits, a number
/// as it was given, a text in quotes.
pub proof fn law_scalars_are_written_plainly(value: JsonView)
    ensures
        value is Null ==> scalar_written(value) == "null"@,
        value == JsonView::Bool(true) ==> scalar_written(value) == "true"@,
        value == JsonView::Bool(false) ==> scalar_written(value) == "false"@,
        value matches JsonView::PosInt(n) ==> crate::text::value_of(scalar_written(value)) == n,
        value matches JsonView::NegInt(n) ==> n < 0 ==> scalar_written(value).len() > 0
            && scalar_written(value)[0] == '-' && crate::text::value_of(
            scalar_written(value).skip(1),
        ) == -n,
        value matches JsonView::Float(s) ==> scalar_written(value) == s,
        value matches JsonView::Text(s) ==> scalar_written(value) == seq!['"'] + escaped_text(s)
            + seq!['"'],
{
    match value {
        JsonView::PosInt(n) => {
            crate::text::law_number_is_written_in_decimal(n as nat);
        },
        JsonView::NegInt(n) => {
            if n < 0 {
                reveal_strlit("-");
                crate::text::law_number_is_written_in_decimal((-n) as nat);
                assert(scalar_written(value).skip(1) =~= decimal((-n) as nat));
            }
        },
        _ => {},
    }
}

/// A character stands for itself in a string but for quotes, backslashes and control
/// characters, which are escaped; the characters of a text are written one after the other.
pub proof fn law_text_is_written_character_by_character(a: Seq<char>, c: char)
    ensures
        escaped_text(Seq::empty()) == Seq::<char>::empty(),
        escaped_text(a.push(c)) == escaped_text(a) + escaped(c),
        c != '"' && c != '\\' && (c as u32) >= 32 ==> escaped(c) == seq![c],
        c == '"' || c == '\\' ==> escaped(c) == seq!['\\', c],
        c == '\n' ==> escaped(c) == seq!['\\', 'n'],
        c == '\r' ==> escaped(c) == seq!['\\', 'r'],
        c == '\t' ==> escaped(c) == seq!['\\', 't'],
        (c as u32) < 32 ==> escaped(c)[0] == '\\' && escaped(c).len() > 1,
{
    assert(a.push(c).drop_last() =~= a);
}

/// A type error says what was found and what was expected instead.
pub proof fn law_type_error_names_both(value: JsonView, expected: Seq<char>)
    ensures
        value is Null ==> type_error(value, expected) == "invalid type: "@ + "null"@
            + ", expected "@ + expected,
        value is Array ==> type_error(value, expected) == "invalid type: "@ + "sequence"@
            + ", expected "@ + expected,
        value is Object ==> type_error(value, expected) == "invalid type: "@ + "map"@
            + ", expected "@ + expected,
        value == JsonView::Bool(true) ==> type_error(value, expected) == "invalid type: "@
            + "boolean `true`"@ + ", expected "@ + expected,
        value == JsonView::Bool(false) ==> type_error(value, expected) == "invalid type: "@
            + "boolean `false`"@ + ", expected "@ + expected,
{
}

} // verus!
