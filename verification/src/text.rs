//! Text primitives over the characters of a string.
//!
//! A string is modelled by its characters, `s@`. Budgets in the runtime are
//! counted in UTF-8 bytes, so the byte length of a text is a function of its
//! characters too.

use vstd::prelude::*;
use vstd::utf8::encode_utf8;

verus! {

/// `String::push` appends one character to the end of the string.
pub assume_specification[ String::push ](s: &mut String, c: char)
    ensures
        final(s)@ == old(s)@.push(c),
;

/// How many bytes a text takes in UTF-8.
pub open spec fn byte_count(s: Seq<char>) -> nat {
    encode_utf8(s).len()
}

/// The first `n` characters of a text, or all of it when it is shorter.
pub open spec fn prefix(s: Seq<char>, n: nat) -> Seq<char> {
    if n <= s.len() {
        s.take(n as int)
    } else {
        s
    }
}

/// The byte length of `s`.
pub fn byte_len(s: &str) -> (len: usize)
    ensures
        len == byte_count(s@),
{
    s.as_bytes().len()
}

/// An owned copy of the first `max_chars` characters of `text`.
pub fn take_chars(text: &str, max_chars: usize) -> (out: String)
    ensures
        out@ == prefix(text@, max_chars as nat),
{
    let total: usize = text.unicode_len();
    if max_chars <= total {
        let kept = text.substring_char(0, max_chars);
        proof {
            assert(kept@ =~= text@.take(max_chars as int));
        }
        kept.to_owned()
    } else {
        text.to_owned()
    }
}

/// Whether two texts hold the same characters.
pub fn same_text(a: &str, b: &str) -> (same: bool)
    ensures
        same == (a@ == b@),
{
    a.to_owned() == b.to_owned()
}

/// Whether a character has the Unicode `White_Space` property.
pub open spec fn is_white_space(c: char) -> bool {
    ||| '\u{9}' <= c <= '\u{d}'
    ||| c == ' '
    ||| c == '\u{85}'
    ||| c == '\u{a0}'
    ||| c == '\u{1680}'
    ||| '\u{2000}' <= c <= '\u{200a}'
    ||| c == '\u{2028}'
    ||| c == '\u{2029}'
    ||| c == '\u{202f}'
    ||| c == '\u{205f}'
    ||| c == '\u{3000}'
}

/// `s` without its leading white space.
pub open spec fn trim_start(s: Seq<char>) -> Seq<char>
    decreases s.len(),
{
    if s.len() > 0 && is_white_space(s[0]) {
        trim_start(s.skip(1))
    } else {
        s
    }
}

/// `s` without its trailing white space.
pub open spec fn trim_end(s: Seq<char>) -> Seq<char>
    decreases s.len(),
{
    if s.len() > 0 && is_white_space(s.last()) {
        trim_end(s.drop_last())
    } else {
        s
    }
}

/// `s` without white space at either end.
pub open spec fn trimmed(s: Seq<char>) -> Seq<char> {
    trim_end(trim_start(s))
}

/// Whether `c` has the Unicode `White_Space` property.
pub fn white_space(c: char) -> (b: bool)
    ensures
        b == is_white_space(c),
{
    ('\u{9}' <= c && c <= '\u{d}') || c == ' ' || c == '\u{85}' || c == '\u{a0}' || c == '\u{1680}'
        || ('\u{2000}' <= c && c <= '\u{200a}') || c == '\u{2028}' || c == '\u{2029}'
        || c == '\u{202f}' || c == '\u{205f}' || c == '\u{3000}'
}

/// The characters of `s`, one by one.
pub fn chars_of(s: &str) -> (out: Vec<char>)
    ensures
        out@ == s@,
{
    let mut out: Vec<char> = Vec::new();
    for c in it: s.chars()
        invariant
            out@ == it.seq().take(it.index()),
            it.seq() == s@,
    {
        out.push(c);
    }
    out
}

/// `s` without white space at either end.
pub fn trim(s: &str) -> (out: &str)
    ensures
        out@ == trimmed(s@),
{
    let chars = chars_of(s);
    let mut from: usize = 0;
    proof {
        assert(s@.skip(0) =~= s@);
    }
    while from < chars.len() && white_space(chars[from])
        invariant
            from <= chars.len(),
            chars@ == s@,
            trim_start(s@) == trim_start(s@.skip(from as int)),
        decreases chars.len() - from,
    {
        proof {
            assert(s@.skip(from as int).skip(1) =~= s@.skip(from + 1));
        }
        from = from + 1;
    }
    let ghost rest = s@.skip(from as int);
    proof {
        assert(trim_start(rest) == rest);
    }
    let mut to: usize = chars.len();
    proof {
        assert(s@.subrange(from as int, to as int) =~= rest);
    }
    while to > from && white_space(chars[to - 1])
        invariant
            from <= to <= chars.len(),
            chars@ == s@,
            rest == s@.skip(from as int),
            trim_end(rest) == trim_end(s@.subrange(from as int, to as int)),
        decreases to,
    {
        proof {
            assert(s@.subrange(from as int, to as int).drop_last() =~= s@.subrange(
                from as int,
                to - 1,
            ));
        }
        to = to - 1;
    }
    s.substring_char(from, to)
}

/// Whether `needle` stands in `hay` from character `at` on.
pub open spec fn occurs_at(hay: Seq<char>, needle: Seq<char>, at: int) -> bool {
    &&& 0 <= at
    &&& at + needle.len() <= hay.len()
    &&& hay.subrange(at, at + needle.len()) == needle
}

/// Whether `needle` stands anywhere in `hay`.
pub open spec fn occurs_in(hay: Seq<char>, needle: Seq<char>) -> bool {
    exists|at: int| occurs_at(hay, needle, at)
}

/// Where `needle` first stands in `hay` at or after `from`.
pub open spec fn first_at(hay: Seq<char>, needle: Seq<char>, from: int) -> Option<int>
    decreases hay.len() + 1 - from,
{
    if from < 0 || from + needle.len() > hay.len() {
        None
    } else if occurs_at(hay, needle, from) {
        Some(from)
    } else {
        first_at(hay, needle, from + 1)
    }
}

/// Where `c` last stands in `s`, looking only at the first `upto` characters.
pub open spec fn last_char_at(s: Seq<char>, c: char, upto: int) -> Option<int>
    decreases upto,
{
    if upto <= 0 || upto > s.len() {
        None
    } else if s[upto - 1] == c {
        Some(upto - 1)
    } else {
        last_char_at(s, c, upto - 1)
    }
}

/// A first occurrence is an occurrence, and nothing before it is one.
pub proof fn lemma_first_at(hay: Seq<char>, needle: Seq<char>, from: int)
    requires
        0 <= from,
    ensures
        match first_at(hay, needle, from) {
            Some(at) => from <= at && occurs_at(hay, needle, at) && forall|i: int|
                from <= i < at ==> !#[trigger] occurs_at(hay, needle, i),
            None => forall|i: int| from <= i ==> !#[trigger] occurs_at(hay, needle, i),
        },
    decreases hay.len() + 1 - from,
{
    if from + needle.len() <= hay.len() && !occurs_at(hay, needle, from) {
        lemma_first_at(hay, needle, from + 1);
    }
}

/// The first occurrence of a character is the first place where it stands.
pub proof fn lemma_first_char(s: Seq<char>, c: char)
    ensures
        match first_at(s, seq![c], 0) {
            Some(at) => 0 <= at < s.len() && s[at] == c && forall|i: int|
                0 <= i < at ==> #[trigger] s[i] != c,
            None => !s.contains(c),
        },
{
    lemma_first_at(s, seq![c], 0);
    assert forall|i: int| 0 <= i < s.len() && #[trigger] s[i] == c implies occurs_at(
        s,
        seq![c],
        i,
    ) by {
        assert(s.subrange(i, i + 1) =~= seq![c]);
    }
    if let Some(at) = first_at(s, seq![c], 0) {
        assert(s.subrange(at, at + 1)[0] == seq![c][0]);
    }
}

/// The last place of a character is one where it stands, and it stands nowhere behind
/// it.
pub proof fn lemma_last_char(s: Seq<char>, c: char, upto: int)
    requires
        0 <= upto <= s.len(),
    ensures
        match last_char_at(s, c, upto) {
            Some(at) => 0 <= at < upto && s[at] == c && forall|i: int|
                at < i < upto ==> #[trigger] s[i] != c,
            None => forall|i: int| 0 <= i < upto ==> #[trigger] s[i] != c,
        },
    decreases upto,
{
    if upto > 0 && s[upto - 1] != c {
        lemma_last_char(s, c, upto - 1);
    }
}

/// Where a character last stands among the first ones depends on those alone.
pub proof fn lemma_last_char_alike(a: Seq<char>, b: Seq<char>, c: char, upto: int)
    requires
        0 <= upto <= a.len(),
        upto <= b.len(),
        forall|i: int| 0 <= i < upto ==> #[trigger] a[i] == b[i],
    ensures
        last_char_at(a, c, upto) == last_char_at(b, c, upto),
    decreases upto,
{
    if upto > 0 {
        assert(a[upto - 1] == b[upto - 1]);
        lemma_last_char_alike(a, b, c, upto - 1);
    }
}

/// Whether `needle` stands in `hay` from character `at` on.
fn matches_at(hay: &Vec<char>, needle: &Vec<char>, at: usize) -> (found: bool)
    requires
        at + needle.len() <= hay.len(),
    ensures
        found == occurs_at(hay@, needle@, at as int),
{
    let mut i: usize = 0;
    while i < needle.len()
        invariant
            i <= needle.len(),
            at + needle.len() <= hay.len(),
            forall|j: int| 0 <= j < i ==> hay@[at + j] == needle@[j],
        decreases needle.len() - i,
    {
        if hay[at + i] != needle[i] {
            proof {
                let window = hay@.subrange(at as int, at + needle@.len());
                assert(window[i as int] == hay@[at + i]);
            }
            return false;
        }
        i = i + 1;
    }
    proof {
        assert(hay@.subrange(at as int, at + needle@.len()) =~= needle@);
    }
    true
}

/// The character position where `needle` first stands in `hay`, at or after `from`.
pub fn find_from(hay: &str, needle: &str, from: usize) -> (found: Option<usize>)
    ensures
        found is Some <==> first_at(hay@, needle@, from as int) is Some,
        found is Some ==> first_at(hay@, needle@, from as int) == Some(found->0 as int),
{
    let hay_chars = chars_of(hay);
    let needle_chars = chars_of(needle);
    if needle_chars.len() > hay_chars.len() {
        return None;
    }
    let last: usize = hay_chars.len() - needle_chars.len();
    let mut at: usize = from;
    while at <= last
        invariant
            from <= at,
            at <= last || at == last + 1 || at == from,
            hay_chars@ == hay@,
            needle_chars@ == needle@,
            last + needle@.len() == hay@.len(),
            hay_chars.len() == hay@.len(),
            first_at(hay@, needle@, from as int) == first_at(hay@, needle@, at as int),
        decreases last + 1 - at,
    {
        if matches_at(&hay_chars, &needle_chars, at) {
            return Some(at);
        }
        if at == usize::MAX {
            proof {
                assert(last == usize::MAX);
                assert(first_at(hay@, needle@, at + 1) is None);
            }
            return None;
        }
        at = at + 1;
    }
    None
}

/// The position of the first `c` in `s`.
pub fn find_char(s: &str, c: char) -> (found: Option<usize>)
    ensures
        found is Some <==> first_at(s@, seq![c], 0) is Some,
        found is Some ==> first_at(s@, seq![c], 0) == Some(found->0 as int) && found->0 < s@.len(),
{
    let mut needle = String::new();
    needle.push(c);
    proof {
        assert(needle@ =~= seq![c]);
        lemma_first_at(s@, seq![c], 0);
    }
    find_from(s, needle.as_str(), 0)
}

/// The position of the last `c` in `s`.
pub fn rfind_char(s: &str, c: char) -> (found: Option<usize>)
    ensures
        found is Some <==> last_char_at(s@, c, s@.len() as int) is Some,
        found is Some ==> last_char_at(s@, c, s@.len() as int) == Some(found->0 as int)
            && found->0 < s@.len(),
{
    let chars = chars_of(s);
    let mut upto: usize = chars.len();
    while upto > 0
        invariant
            upto <= chars.len(),
            chars@ == s@,
            last_char_at(s@, c, s@.len() as int) == last_char_at(s@, c, upto as int),
        decreases upto,
    {
        if chars[upto - 1] == c {
            return Some(upto - 1);
        }
        upto = upto - 1;
    }
    None
}

/// Whether `needle` stands anywhere in `hay`.
pub fn contains(hay: &str, needle: &str) -> (found: bool)
    ensures
        found == occurs_in(hay@, needle@),
{
    proof {
        lemma_first_at(hay@, needle@, 0);
    }
    match find_from(hay, needle, 0) {
        Some(_) => true,
        None => false,
    }
}

/// The lower-case form of an ASCII letter; every other character is itself.
pub open spec fn ascii_lower(c: char) -> char {
    if 'A' <= c <= 'Z' {
        (c as u8 + 32) as char
    } else {
        c
    }
}

/// Whether `c` is an ASCII letter or digit.
pub open spec fn is_ascii_word(c: char) -> bool {
    ||| 'a' <= c <= 'z'
    ||| 'A' <= c <= 'Z'
    ||| '0' <= c <= '9'
}

/// Whether two texts differ in nothing but the case of ASCII letters.
pub open spec fn same_ignoring_ascii_case(a: Seq<char>, b: Seq<char>) -> bool {
    &&& a.len() == b.len()
    &&& forall|i: int| 0 <= i < a.len() ==> ascii_lower(#[trigger] a[i]) == ascii_lower(b[i])
}

/// The lower-case form of an ASCII letter; every other character is itself.
pub fn to_ascii_lower(c: char) -> (lower: char)
    ensures
        lower == ascii_lower(c),
{
    if 'A' <= c && c <= 'Z' {
        (c as u8 + 32) as char
    } else {
        c
    }
}

/// Whether `c` is an ASCII letter or digit.
pub fn ascii_word(c: char) -> (b: bool)
    ensures
        b == is_ascii_word(c),
{
    ('a' <= c && c <= 'z') || ('A' <= c && c <= 'Z') || ('0' <= c && c <= '9')
}

/// Whether two texts differ in nothing but the case of ASCII letters.
pub fn eq_ignore_ascii_case(a: &str, b: &str) -> (same: bool)
    ensures
        same == same_ignoring_ascii_case(a@, b@),
{
    let left = chars_of(a);
    let right = chars_of(b);
    if left.len() != right.len() {
        return false;
    }
    let mut i: usize = 0;
    while i < left.len()
        invariant
            i <= left.len(),
            left.len() == right.len(),
            left@ == a@,
            right@ == b@,
            forall|j: int| 0 <= j < i ==> ascii_lower(#[trigger] a@[j]) == ascii_lower(b@[j]),
        decreases left.len() - i,
    {
        if to_ascii_lower(left[i]) != to_ascii_lower(right[i]) {
            proof {
                assert(ascii_lower(a@[i as int]) != ascii_lower(b@[i as int]));
            }
            return false;
        }
        i = i + 1;
    }
    true
}

/// The decimal digit for a number below ten.
pub open spec fn digit(n: nat) -> char {
    (48 + n) as char
}

/// A number written in decimal, without leading zeros.
pub open spec fn decimal(n: nat) -> Seq<char>
    decreases n,
{
    if n < 10 {
        seq![digit(n)]
    } else {
        decimal(n / 10).push(digit(n % 10))
    }
}

/// `n` written in decimal.
pub fn decimal_text(n: u64) -> (out: String)
    ensures
        out@ == decimal(n as nat),
    decreases n,
{
    let last: char = (48u8 + (n % 10) as u8) as char;
    let mut out = if n < 10 {
        String::new()
    } else {
        decimal_text(n / 10)
    };
    out.push(last);
    proof {
        assert(n < 10 ==> out@ =~= seq![digit(n as nat)]);
    }
    out
}

/// The texts of a sequence of strings.
pub open spec fn texts(v: Seq<String>) -> Seq<Seq<char>> {
    Seq::new(v.len(), |i: int| v[i]@)
}

/// Several texts with `sep` between each two.
pub open spec fn joined(parts: Seq<Seq<char>>, sep: Seq<char>) -> Seq<char>
    decreases parts.len(),
{
    if parts.len() == 0 {
        Seq::empty()
    } else if parts.len() == 1 {
        parts[0]
    } else {
        joined(parts.drop_last(), sep) + sep + parts.last()
    }
}

/// The strings of `parts` with `sep` between each two.
pub fn join(parts: &Vec<String>, sep: &str) -> (out: String)
    ensures
        out@ == joined(texts(parts@), sep@),
{
    let mut out = String::new();
    let mut i: usize = 0;
    proof {
        assert(texts(parts@).take(0) =~= Seq::empty());
    }
    while i < parts.len()
        invariant
            i <= parts.len(),
            out@ == joined(texts(parts@).take(i as int), sep@),
        decreases parts.len() - i,
    {
        proof {
            let next = texts(parts@).take(i + 1);
            assert(next.drop_last() =~= texts(parts@).take(i as int));
            assert(next.last() == parts@[i as int]@);
        }
        if i > 0 {
            out.append(sep);
        }
        out.append(parts[i].as_str());
        proof {
            assert(i == 0 ==> out@ =~= parts@[0]@);
        }
        i = i + 1;
    }
    proof {
        assert(texts(parts@).take(parts@.len() as int) =~= texts(parts@));
    }
    out
}

/// The longest prefix of `s` that takes at most `room` bytes.
pub open spec fn fitting(s: Seq<char>, room: nat) -> Seq<char>
    decreases s.len(),
{
    if s.len() == 0 || byte_count(s) <= room {
        s
    } else {
        fitting(s.drop_last(), room)
    }
}

/// How many bytes one character takes in UTF-8.
pub open spec fn char_bytes(c: char) -> nat {
    if c as u32 <= 0x7f {
        1
    } else if c as u32 <= 0x7ff {
        2
    } else if c as u32 <= 0xffff {
        3
    } else {
        4
    }
}

/// The bytes of two texts put together are the bytes of each.
pub proof fn lemma_byte_count_concat(a: Seq<char>, b: Seq<char>)
    ensures
        byte_count(a + b) == byte_count(a) + byte_count(b),
    decreases a.len(),
{
    if a.len() == 0 {
        assert(a + b =~= b);
    } else {
        assert((a + b).drop_first() =~= a.drop_first() + b);
        lemma_byte_count_concat(a.drop_first(), b);
    }
}

/// One more character adds its own width.
pub proof fn lemma_byte_count_push(s: Seq<char>, c: char)
    ensures
        byte_count(s.push(c)) == byte_count(s) + char_bytes(c),
{
    lemma_byte_count_concat(s, seq![c]);
    assert(s + seq![c] =~= s.push(c));
    assert(seq![c].drop_first() =~= Seq::<char>::empty());
    assert(encode_utf8(seq![c]) =~= vstd::utf8::encode_scalar(c as u32) + encode_utf8(
        Seq::<char>::empty(),
    ));
    vstd::utf8::char_is_scalar(c);
}

/// A longer prefix takes more bytes.
pub proof fn lemma_prefix_bytes(s: Seq<char>, i: int, j: int)
    requires
        0 <= i <= j <= s.len(),
    ensures
        byte_count(s.take(i)) <= byte_count(s.take(j)),
        i < j ==> byte_count(s.take(i)) < byte_count(s.take(j)),
    decreases j,
{
    if i < j {
        assert(s.take(j) =~= s.take(j - 1).push(s[j - 1]));
        lemma_byte_count_push(s.take(j - 1), s[j - 1]);
        lemma_prefix_bytes(s, i, j - 1);
    }
}

/// The longest fitting prefix is a prefix that fits.
pub proof fn lemma_fitting(s: Seq<char>, room: nat)
    ensures
        fitting(s, room).len() <= s.len(),
        fitting(s, room) == s.take(fitting(s, room).len() as int),
        byte_count(fitting(s, room)) <= room,
    decreases s.len(),
{
    if s.len() == 0 {
        assert(s.take(0) =~= s);
    } else if byte_count(s) <= room {
        assert(s.take(s.len() as int) =~= s);
    } else {
        lemma_fitting(s.drop_last(), room);
        let kept = fitting(s.drop_last(), room);
        assert(s.drop_last().take(kept.len() as int) =~= s.take(kept.len() as int));
    }
}

/// If everything longer than the first `k` characters is too long, the longest
/// fitting prefix is found within them.
proof fn lemma_fitting_within(s: Seq<char>, room: nat, k: int)
    requires
        0 <= k <= s.len(),
        forall|j: int| k < j <= s.len() ==> byte_count(#[trigger] s.take(j)) > room,
    ensures
        fitting(s, room) == fitting(s.take(k), room),
    decreases s.len() - k,
{
    if k == s.len() {
        assert(s.take(k) =~= s);
    } else {
        let up = s.take(k + 1);
        lemma_fitting_within(s, room, k + 1);
        assert(up.drop_last() =~= s.take(k));
        assert(byte_count(up) > room);
    }
}

/// How many bytes `c` takes in UTF-8.
fn width(c: char) -> (w: usize)
    ensures
        w == char_bytes(c),
{
    let code: u32 = c as u32;
    if code <= 0x7f {
        1
    } else if code <= 0x7ff {
        2
    } else if code <= 0xffff {
        3
    } else {
        4
    }
}

/// The longest prefix of `content` that takes at most `room` bytes, cut between
/// characters.
pub fn truncate_at_boundary(content: &str, room: usize) -> (out: &str)
    ensures
        out@ == fitting(content@, room as nat),
{
    let chars = chars_of(content);
    let mut kept: usize = 0;
    let mut used: usize = 0;
    proof {
        assert(content@.take(0) =~= Seq::empty());
    }
    while kept < chars.len()
        invariant
            kept <= chars.len(),
            chars@ == content@,
            used <= room,
            used == byte_count(content@.take(kept as int)),
        decreases chars.len() - kept,
    {
        let w: usize = width(chars[kept]);
        proof {
            assert(content@.take(kept + 1) =~= content@.take(kept as int).push(
                content@[kept as int],
            ));
            lemma_byte_count_push(content@.take(kept as int), content@[kept as int]);
        }
        if room - used < w {
            proof {
                assert forall|j: int| kept < j <= content@.len() implies byte_count(
                    #[trigger] content@.take(j),
                ) > room by {
                    lemma_prefix_bytes(content@, kept + 1, j);
                }
                lemma_fitting_within(content@, room as nat, kept as int);
            }
            return content.substring_char(0, kept);
        }
        used = used + w;
        kept = kept + 1;
    }
    proof {
        assert(content@.take(kept as int) =~= content@);
    }
    content
}

/// What `str::to_lowercase` makes of a text.
pub uninterp spec fn lowercase_of(s: Seq<char>) -> Seq<char>;

/// `str::to_lowercase` gives the lower-case form of a text, which is what
/// [`lowercase_of`] names.
pub assume_specification[ str::to_lowercase ](s: &str) -> (out: String)
    ensures
        out@ == lowercase_of(s@),
;

/// The bytes-over-four estimate of a text's tokens.
pub open spec fn tokens_of(s: Seq<char>) -> nat {
    byte_count(s) / 4
}

/// The bytes-over-four estimate of `text`'s tokens.
pub fn estimate_tokens(text: &str) -> (tokens: usize)
    ensures
        tokens == tokens_of(text@),
{
    byte_len(text) / 4
}

/// The estimate for a message, which is never nothing.
pub fn message_tokens(text: &str) -> (tokens: usize)
    ensures
        tokens == tokens_of(text@) + 1,
{
    byte_len(text) / 4 + 1
}

/// Trimming takes white space off both ends and nothing else: what is left neither begins nor
/// ends with any.
pub proof fn law_trimming_takes_white_space_only(s: Seq<char>)
    ensures
        exists|a: int, b: int|
            {
                &&& 0 <= a <= b <= s.len()
                &&& #[trigger] s.subrange(a, b) == trimmed(s)
                &&& forall|i: int| 0 <= i < a ==> is_white_space(#[trigger] s[i])
                &&& forall|i: int| b <= i < s.len() ==> is_white_space(#[trigger] s[i])
            },
        trimmed(s).len() > 0 ==> !is_white_space(trimmed(s)[0]) && !is_white_space(
            trimmed(s).last(),
        ),
{
    let a = lemma_trim_start(s);
    let front = trim_start(s);
    let n = lemma_trim_end(front);
    let b = a + n;
    assert(s.subrange(a, b) =~= front.take(n));
    assert forall|i: int| b <= i < s.len() implies is_white_space(#[trigger] s[i]) by {
        assert(front[i - a] == s[i]);
    }
    if n > 0 {
        assert(trimmed(s)[0] == front[0]);
    }
}

/// How much white space a text begins with.
proof fn lemma_trim_start(s: Seq<char>) -> (a: int)
    ensures
        0 <= a <= s.len(),
        trim_start(s) == s.skip(a),
        forall|i: int| 0 <= i < a ==> is_white_space(#[trigger] s[i]),
        a < s.len() ==> !is_white_space(s[a]),
    decreases s.len(),
{
    if s.len() > 0 && is_white_space(s[0]) {
        let rest = s.skip(1);
        let a = lemma_trim_start(rest);
        assert(rest.skip(a) =~= s.skip(a + 1));
        assert forall|i: int| 0 <= i < a + 1 implies is_white_space(#[trigger] s[i]) by {
            if i > 0 {
                assert(rest[i - 1] == s[i]);
            }
        }
        a + 1
    } else {
        assert(s.skip(0) =~= s);
        0
    }
}

/// Where the white space at the end of a text begins.
proof fn lemma_trim_end(s: Seq<char>) -> (n: int)
    ensures
        0 <= n <= s.len(),
        trim_end(s) == s.take(n),
        forall|i: int| n <= i < s.len() ==> is_white_space(#[trigger] s[i]),
        n > 0 ==> !is_white_space(s[n - 1]),
    decreases s.len(),
{
    if s.len() > 0 && is_white_space(s.last()) {
        let front = s.drop_last();
        let n = lemma_trim_end(front);
        assert(front.take(n) =~= s.take(n));
        assert forall|i: int| n <= i < s.len() implies is_white_space(#[trigger] s[i]) by {
            if i < front.len() {
                assert(front[i] == s[i]);
            }
        }
        n
    } else {
        assert(s.take(s.len() as int) =~= s);
        s.len() as int
    }
}

/// Joining puts the separator between each two parts, and nowhere else.
pub proof fn law_joining_separates_the_parts(
    parts: Seq<Seq<char>>,
    sep: Seq<char>,
    more: Seq<char>,
)
    ensures
        joined(Seq::empty(), sep) == Seq::<char>::empty(),
        parts.len() == 0 ==> joined(parts.push(more), sep) == more,
        parts.len() > 0 ==> joined(parts.push(more), sep) == joined(parts, sep) + sep + more,
{
    assert(parts.push(more).drop_last() =~= parts);
}

/// A token stands for four bytes of UTF-8, rounded down.
pub proof fn law_four_bytes_are_a_token(s: Seq<char>)
    ensures
        tokens_of(s) * 4 <= encode_utf8(s).len() < tokens_of(s) * 4 + 4,
{
}

/// A prefix is the first characters of a text, as many as are asked for or as there are.
pub proof fn law_prefix_is_a_beginning(s: Seq<char>, n: nat)
    ensures
        n <= s.len() ==> prefix(s, n) == s.take(n as int),
        n > s.len() ==> prefix(s, n) == s,
{
}

/// Whether a text stands at a place of another, character by character.
pub open spec fn stands_at(hay: Seq<char>, needle: Seq<char>, at: int) -> bool {
    &&& 0 <= at
    &&& at + needle.len() <= hay.len()
    &&& forall|k: int| 0 <= k < needle.len() ==> hay[at + k] == #[trigger] needle[k]
}

/// A text is found at the first place at or behind the one asked for where it stands, and
/// nowhere where it does not; it occurs in another where it stands anywhere.
pub proof fn law_first_place_is_found(hay: Seq<char>, needle: Seq<char>, from: int)
    requires
        0 <= from,
    ensures
        match first_at(hay, needle, from) {
            Some(at) => from <= at && stands_at(hay, needle, at) && forall|earlier: int|
                from <= earlier < at ==> !#[trigger] stands_at(hay, needle, earlier),
            None => forall|at: int| from <= at ==> !#[trigger] stands_at(hay, needle, at),
        },
        occurs_in(hay, needle) <==> exists|at: int| #[trigger] stands_at(hay, needle, at),
    decreases hay.len() + 1 - from,
{
    assert forall|at: int| #[trigger] stands_at(hay, needle, at) == occurs_at(
        hay,
        needle,
        at,
    ) by {
        if occurs_at(hay, needle, at) {
            assert forall|k: int| 0 <= k < needle.len() implies hay[at + k]
                == #[trigger] needle[k] by {
                assert(hay.subrange(at, at + needle.len())[k] == hay[at + k]);
            }
        }
        if stands_at(hay, needle, at) {
            assert(hay.subrange(at, at + needle.len()) =~= needle);
        }
    }
    if occurs_in(hay, needle) {
        let at = choose|at: int| occurs_at(hay, needle, at);
        assert(stands_at(hay, needle, at));
    }
    if from + needle.len() <= hay.len() && !occurs_at(hay, needle, from) {
        assert(!stands_at(hay, needle, from));
        law_first_place_is_found(hay, needle, from + 1);
    }
}

/// What is left of a text that is cut to some room is the longest beginning that fits it.
pub proof fn law_longest_fitting_beginning_is_kept(s: Seq<char>, room: nat)
    ensures
        exists|n: int|
            {
                &&& 0 <= n <= s.len()
                &&& fitting(s, room) == #[trigger] s.take(n)
                &&& encode_utf8(s.take(n)).len() <= room || n == 0
                &&& forall|m: int|
                    n < m <= s.len() ==> encode_utf8(#[trigger] s.take(m)).len() > room
            },
        encode_utf8(s).len() <= room ==> fitting(s, room) == s,
    decreases s.len(),
{
    if s.len() == 0 || byte_count(s) <= room {
        assert(s.take(s.len() as int) =~= s);
    } else {
        let front = s.drop_last();
        law_longest_fitting_beginning_is_kept(front, room);
        let n = choose|n: int|
            {
                &&& 0 <= n <= front.len()
                &&& fitting(front, room) == #[trigger] front.take(n)
                &&& encode_utf8(front.take(n)).len() <= room || n == 0
                &&& forall|m: int|
                    n < m <= front.len() ==> encode_utf8(#[trigger] front.take(m)).len() > room
            };
        assert(front.take(n) =~= s.take(n));
        assert forall|m: int| n < m <= s.len() implies encode_utf8(#[trigger] s.take(m)).len()
            > room by {
            if m < s.len() {
                assert(front.take(m) =~= s.take(m));
            } else {
                assert(s.take(m) =~= s);
            }
        }
    }
}

/// Two texts are alike but for case where each letter of one is the other's, small or
/// capital, and every other character is the same.
pub proof fn law_case_is_all_that_may_differ(a: Seq<char>, b: Seq<char>, i: int)
    requires
        same_ignoring_ascii_case(a, b),
        0 <= i < a.len(),
    ensures
        a.len() == b.len(),
        a[i] == b[i] || ('A' <= a[i] <= 'Z' && b[i] as u32 == a[i] as u32 + 32) || ('A' <= b[i]
            <= 'Z' && a[i] as u32 == b[i] as u32 + 32),
{
    assert(ascii_lower(a[i]) == ascii_lower(b[i]));
}

/// The value that some digits write.
pub open spec fn value_of(digits: Seq<char>) -> nat
    decreases digits.len(),
{
    if digits.len() == 0 {
        0
    } else {
        value_of(digits.drop_last()) * 10 + (digits.last() as nat - 48) as nat
    }
}

/// A number is written in decimal digits that stand for it, with none to spare in front.
pub proof fn law_number_is_written_in_decimal(n: nat)
    ensures
        value_of(decimal(n)) == n,
        decimal(n).len() > 0,
        forall|i: int| 0 <= i < decimal(n).len() ==> '0' <= #[trigger] decimal(n)[i] <= '9',
        decimal(n).len() > 1 ==> decimal(n)[0] != '0',
    decreases n,
{
    reveal_with_fuel(value_of, 2);
    if n < 10 {
        assert(decimal(n).drop_last() =~= Seq::<char>::empty());
    } else {
        law_number_is_written_in_decimal(n / 10);
        assert(decimal(n).drop_last() =~= decimal(n / 10));
    }
}

/// White space is what Unicode says it is: five control characters, the space, the next line
/// and the no-break space, and the spaces and separators further up.
pub proof fn law_white_space_is_unicodes(c: char)
    ensures
        is_white_space(c) <==> seq![
            '\u{9}',
            '\u{a}',
            '\u{b}',
            '\u{c}',
            '\u{d}',
            '\u{20}',
            '\u{85}',
            '\u{a0}',
            '\u{1680}',
            '\u{2000}',
            '\u{2001}',
            '\u{2002}',
            '\u{2003}',
            '\u{2004}',
            '\u{2005}',
            '\u{2006}',
            '\u{2007}',
            '\u{2008}',
            '\u{2009}',
            '\u{200a}',
            '\u{2028}',
            '\u{2029}',
            '\u{202f}',
            '\u{205f}',
            '\u{3000}',
        ].contains(c),
{
    let all = seq![
        '\u{9}',
        '\u{a}',
        '\u{b}',
        '\u{c}',
        '\u{d}',
        '\u{20}',
        '\u{85}',
        '\u{a0}',
        '\u{1680}',
        '\u{2000}',
        '\u{2001}',
        '\u{2002}',
        '\u{2003}',
        '\u{2004}',
        '\u{2005}',
        '\u{2006}',
        '\u{2007}',
        '\u{2008}',
        '\u{2009}',
        '\u{200a}',
        '\u{2028}',
        '\u{2029}',
        '\u{202f}',
        '\u{205f}',
        '\u{3000}',
    ];
    if is_white_space(c) {
        assert(all[0] == '\u{9}' && all[1] == '\u{a}' && all[2] == '\u{b}' && all[3] == '\u{c}'
            && all[4] == '\u{d}' && all[5] == ' ' && all[6] == '\u{85}' && all[7] == '\u{a0}');
        assert(all[8] == '\u{1680}' && all[9] == '\u{2000}' && all[10] == '\u{2001}' && all[11]
            == '\u{2002}' && all[12] == '\u{2003}' && all[13] == '\u{2004}' && all[14]
            == '\u{2005}' && all[15] == '\u{2006}' && all[16] == '\u{2007}');
        assert(all[17] == '\u{2008}' && all[18] == '\u{2009}' && all[19] == '\u{200a}' && all[20]
            == '\u{2028}' && all[21] == '\u{2029}' && all[22] == '\u{202f}' && all[23]
            == '\u{205f}' && all[24] == '\u{3000}');
    }
}

} // verus!
