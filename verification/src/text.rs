//! Operations on text: trimming, joining, and newlines turned into
//! spaces.

use vstd::prelude::*;
use vstd::string::*;

verus! {

/// The texts that a list of strings holds.
pub open spec fn texts(ss: Seq<String>) -> Seq<Seq<char>> {
    Seq::new(ss.len(), |i: int| ss[i]@)
}

/// Whether a character is white space: it is one of the characters with
/// the Unicode property `White_Space`, which are the controls from tab to
/// carriage return, the space, the next line, the no-break space, the ogham
/// space mark, the spaces from en quad to hair space, the line and the
/// paragraph separator, the narrow no-break space, the medium mathematical
/// space and the ideographic space.
pub open spec fn is_white_space(c: char) -> bool {
    let n = c as u32;
    ||| 0x0009 <= n <= 0x000D
    ||| n == 0x0020
    ||| n == 0x0085
    ||| n == 0x00A0
    ||| n == 0x1680
    ||| 0x2000 <= n <= 0x200A
    ||| n == 0x2028
    ||| n == 0x2029
    ||| n == 0x202F
    ||| n == 0x205F
    ||| n == 0x3000
}

/// Whether a character is white space.
pub fn white_space(c: char) -> (r: bool)
    ensures
        r == is_white_space(c),
{
    let n: u32 = c as u32;
    (0x0009 <= n && n <= 0x000D) || n == 0x0020 || n == 0x0085 || n == 0x00A0 || n == 0x1680 || (
    0x2000 <= n && n <= 0x200A) || n == 0x2028 || n == 0x2029 || n == 0x202F || n == 0x205F || n
        == 0x3000
}

/// The number of white-space characters at the start of the text.
pub open spec fn leading_space(s: Seq<char>) -> int
    decreases s.len(),
{
    if s.len() > 0 && is_white_space(s[0]) {
        1 + leading_space(s.drop_first())
    } else {
        0
    }
}

/// The number of white-space characters at the end of the text.
pub open spec fn trailing_space(s: Seq<char>) -> int
    decreases s.len(),
{
    if s.len() > 0 && is_white_space(s.last()) {
        1 + trailing_space(s.drop_last())
    } else {
        0
    }
}

/// The text without the white space at its start and at its end.
pub open spec fn trimmed(s: Seq<char>) -> Seq<char> {
    let rest = s.skip(leading_space(s));
    rest.take(rest.len() - trailing_space(rest))
}

/// The text with every newline replaced by a space.
pub open spec fn newlines_as_spaces(s: Seq<char>) -> Seq<char> {
    Seq::new(
        s.len(),
        |i: int|
            if s[i] == '\n' {
                ' '
            } else {
                s[i]
            },
    )
}

/// The texts in their order, with the separator between them.
pub open spec fn joined_texts(parts: Seq<Seq<char>>, separator: Seq<char>) -> Seq<char>
    decreases parts.len(),
{
    if parts.len() == 0 {
        Seq::empty()
    } else if parts.len() == 1 {
        parts[0]
    } else {
        joined_texts(parts.drop_last(), separator) + separator + parts.last()
    }
}

/// White space at the start counts: the leading space of a text is the
/// white space passed plus the leading space of the rest.
proof fn lemma_leading_space(s: Seq<char>, k: int)
    requires
        0 <= k <= s.len(),
        forall|i: int| 0 <= i < k ==> is_white_space(#[trigger] s[i]),
    ensures
        leading_space(s) == k + leading_space(s.skip(k)),
        0 <= leading_space(s.skip(k)) <= s.len() - k,
    decreases k,
{
    if k == 0 {
        assert(s.skip(0) =~= s);
        lemma_leading_space_bound(s);
    } else {
        assert(is_white_space(s[0]));
        assert forall|i: int| 0 <= i < k - 1 implies is_white_space(
            #[trigger] s.drop_first()[i],
        ) by {
            assert(s.drop_first()[i] == s[i + 1]);
        }
        lemma_leading_space(s.drop_first(), k - 1);
        assert(s.drop_first().skip(k - 1) =~= s.skip(k));
    }
}

/// The leading space of a text is no longer than the text.
proof fn lemma_leading_space_bound(s: Seq<char>)
    ensures
        0 <= leading_space(s) <= s.len(),
    decreases s.len(),
{
    if s.len() > 0 && is_white_space(s[0]) {
        lemma_leading_space_bound(s.drop_first());
    }
}

/// White space at the end counts: the trailing space of a text is the
/// white space passed plus the trailing space of what is before it.
proof fn lemma_trailing_space(s: Seq<char>, k: int)
    requires
        0 <= k <= s.len(),
        forall|i: int| k <= i < s.len() ==> is_white_space(#[trigger] s[i]),
    ensures
        trailing_space(s) == (s.len() - k) + trailing_space(s.take(k)),
    decreases s.len() - k,
{
    if k == s.len() {
        assert(s.take(k) =~= s);
    } else {
        assert(is_white_space(s[s.len() - 1]));
        assert forall|i: int| k <= i < s.len() - 1 implies is_white_space(
            #[trigger] s.drop_last()[i],
        ) by {
            assert(s.drop_last()[i] == s[i]);
        }
        lemma_trailing_space(s.drop_last(), k);
        assert(s.drop_last().take(k) =~= s.take(k));
    }
}

/// The text without the white space at its start and at its end.
pub fn trim(s: &str) -> (r: &str)
    ensures
        r@ == trimmed(s@),
{
    if s.is_ascii() {
        trim_ascii(s)
    } else {
        trim_unicode(s)
    }
}

/// `trim` for a text of ASCII characters, on its bytes.
fn trim_ascii(s: &str) -> (r: &str)
    requires
        s.is_ascii(),
    ensures
        r@ == trimmed(s@),
{
    broadcast use is_ascii_spec_bytes;

    let bytes = s.as_bytes();
    let n = bytes.len();
    assert(n == s@.len());
    let mut start: usize = 0;
    loop
        invariant
            start <= n,
            n == s@.len(),
            s.is_ascii(),
            bytes@ == s.spec_bytes(),
            forall|i: int| 0 <= i < start ==> is_white_space(#[trigger] s@[i]),
        ensures
            start <= n,
            forall|i: int| 0 <= i < start ==> is_white_space(#[trigger] s@[i]),
            start == n || !is_white_space(s@[start as int]),
        decreases n - start,
    {
        if start == n {
            break ;
        }
        let c = bytes[start] as char;
        assert(c == s@[start as int]);
        if !white_space(c) {
            break ;
        }
        start = start + 1;
    }
    let mut end: usize = n;
    loop
        invariant
            start <= end <= n,
            n == s@.len(),
            s.is_ascii(),
            bytes@ == s.spec_bytes(),
            forall|i: int| end <= i < n ==> is_white_space(#[trigger] s@[i]),
        ensures
            start <= end <= n,
            forall|i: int| end <= i < n ==> is_white_space(#[trigger] s@[i]),
            end == start || !is_white_space(s@[end - 1]),
        decreases end,
    {
        if end == start {
            break ;
        }
        let c = bytes[end - 1] as char;
        assert(c == s@[end - 1]);
        if !white_space(c) {
            break ;
        }
        end = end - 1;
    }
    proof {
        lemma_trimmed(s@, start as int, end as int);
    }
    s.substring_ascii(start, end)
}

/// What is left between the white space at the start and the white space
/// at the end is the trimmed text.
proof fn lemma_trimmed(s: Seq<char>, start: int, end: int)
    requires
        0 <= start <= end <= s.len(),
        forall|i: int| 0 <= i < start ==> is_white_space(#[trigger] s[i]),
        forall|i: int| end <= i < s.len() ==> is_white_space(#[trigger] s[i]),
        start == s.len() || !is_white_space(s[start]),
        end == start || !is_white_space(s[end - 1]),
    ensures
        trimmed(s) == s.subrange(start, end),
{
    lemma_leading_space(s, start);
    let rest = s.skip(start);
    if start < s.len() {
        assert(rest[0] == s[start]);
    }
    assert(leading_space(rest) == 0);
    assert forall|i: int| end - start <= i < rest.len() implies is_white_space(
        #[trigger] rest[i],
    ) by {
        assert(rest[i] == s[i + start]);
    }
    lemma_trailing_space(rest, end - start);
    let kept = rest.take(end - start);
    if end > start {
        assert(kept.last() == s[end - 1]);
    }
    assert(trailing_space(kept) == 0);
    assert(kept =~= s.subrange(start, end));
}

/// `trim` for any text, character by character.
fn trim_unicode(s: &str) -> (r: &str)
    ensures
        r@ == trimmed(s@),
{
    let n = s.unicode_len();
    let mut start: usize = 0;
    loop
        invariant
            start <= n,
            n == s@.len(),
            forall|i: int| 0 <= i < start ==> is_white_space(#[trigger] s@[i]),
        ensures
            start <= n,
            forall|i: int| 0 <= i < start ==> is_white_space(#[trigger] s@[i]),
            start == n || !is_white_space(s@[start as int]),
        decreases n - start,
    {
        if start == n {
            break ;
        }
        let c = s.get_char(start);
        if !white_space(c) {
            break ;
        }
        start = start + 1;
    }
    let mut end: usize = n;
    loop
        invariant
            start <= end <= n,
            n == s@.len(),
            forall|i: int| end <= i < n ==> is_white_space(#[trigger] s@[i]),
        ensures
            start <= end <= n,
            forall|i: int| end <= i < n ==> is_white_space(#[trigger] s@[i]),
            end == start || !is_white_space(s@[end - 1]),
        decreases end,
    {
        if end == start {
            break ;
        }
        let c = s.get_char(end - 1);
        if !white_space(c) {
            break ;
        }
        end = end - 1;
    }
    proof {
        lemma_trimmed(s@, start as int, end as int);
    }
    s.substring_char(start, end)
}

/// The text with every newline replaced by a space.
pub fn replace_newlines(s: &str) -> (r: String)
    ensures
        r@ == newlines_as_spaces(s@),
{
    if s.is_ascii() {
        replace_newlines_ascii(s)
    } else {
        replace_newlines_unicode(s)
    }
}

/// `replace_newlines` for a text of ASCII characters, on its bytes: the
/// stretches between the newlines are taken over whole.
fn replace_newlines_ascii(s: &str) -> (r: String)
    requires
        s.is_ascii(),
    ensures
        r@ == newlines_as_spaces(s@),
{
    broadcast use is_ascii_spec_bytes;

    let bytes = s.as_bytes();
    let n = bytes.len();
    assert(n == s@.len());
    let ghost wanted = newlines_as_spaces(s@);
    let mut out = String::new();
    let mut from: usize = 0;
    let mut i: usize = 0;
    while i < n
        invariant
            from <= i <= n,
            n == s@.len(),
            s.is_ascii(),
            bytes@ == s.spec_bytes(),
            wanted == newlines_as_spaces(s@),
            out@ == wanted.take(from as int),
            forall|k: int| from <= k < i ==> s@[k] != '\n',
        decreases n - i,
    {
        if bytes[i] == 10 {
            assert(s@[i as int] == '\n');
            proof {
                reveal_strlit(" ");
            }
            out.append(s.substring_ascii(from, i));
            out.append(" ");
            assert(out@ =~= wanted.take(i + 1));
            from = i + 1;
        } else {
            assert(s@[i as int] != '\n');
        }
        i = i + 1;
    }
    out.append(s.substring_ascii(from, n));
    assert(out@ =~= wanted);
    out
}

/// `replace_newlines` for any text, character by character.
fn replace_newlines_unicode(s: &str) -> (r: String)
    ensures
        r@ == newlines_as_spaces(s@),
{
    let n = s.unicode_len();
    let mut out = String::new();
    let mut i: usize = 0;
    while i < n
        invariant
            i <= n,
            n == s@.len(),
            out@ == newlines_as_spaces(s@).take(i as int),
        decreases n - i,
    {
        let c = s.get_char(i);
        if c == '\n' {
            proof {
                reveal_strlit(" ");
            }
            out.append(" ");
            assert(" "@ =~= seq![' ']);
        } else {
            out.append(s.substring_char(i, i + 1));
            assert(s@.subrange(i as int, i + 1) =~= seq![c]);
        }
        assert(out@ =~= newlines_as_spaces(s@).take(i + 1));
        i = i + 1;
    }
    assert(newlines_as_spaces(s@).take(n as int) =~= newlines_as_spaces(s@));
    out
}

/// The strings in their order, with the separator between them.
pub fn join(parts: &Vec<String>, separator: &str) -> (r: String)
    ensures
        r@ == joined_texts(texts(parts@), separator@),
{
    let mut out = String::new();
    let mut i: usize = 0;
    while i < parts.len()
        invariant
            i <= parts.len(),
            out@ == joined_texts(texts(parts@).take(i as int), separator@),
        decreases parts.len() - i,
    {
        if i > 0 {
            out.append(separator);
        }
        out.append(parts[i].as_str());
        proof {
            let all = texts(parts@);
            assert(all.take(i + 1).drop_last() =~= all.take(i as int));
            assert(all.take(i + 1).last() == parts[i as int]@);
            if i == 0 {
                assert(all.take(1)[0] == parts[0]@);
                assert(out@ =~= parts[0]@);
            }
        }
        i = i + 1;
    }
    assert(texts(parts@).take(parts.len() as int) =~= texts(parts@));
    out
}

/// A copy of an optional string.
pub fn duplicate_optional(text: &Option<String>) -> (r: Option<String>)
    ensures
        r == *text,
{
    match text {
        Some(t) => Some(t.clone()),
        None => None,
    }
}

} // verus!
