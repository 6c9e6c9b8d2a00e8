//! Searching text for tokens and taking out what stands between two markers.

use vstd::prelude::*;
use vstd::string::{StrSliceExecFns, StringExecFns};

verus! {

/// `needle` stands in `hay` at offset `i`.
pub open spec fn occurs_at(hay: Seq<char>, needle: Seq<char>, i: int) -> bool {
    &&& 0 <= i
    &&& i + needle.len() <= hay.len()
    &&& hay.subrange(i, i + needle.len()) == needle
}

/// `needle` stands somewhere in `hay`.
pub open spec fn occurs(hay: Seq<char>, needle: Seq<char>) -> bool {
    exists|i: int| occurs_at(hay, needle, i)
}

/// `i` is the offset of the leftmost occurrence of `needle` in `hay`.
pub open spec fn is_first_occurrence(hay: Seq<char>, needle: Seq<char>, i: int) -> bool {
    &&& occurs_at(hay, needle, i)
    &&& forall|j: int| 0 <= j < i ==> !occurs_at(hay, needle, j)
}

/// The offset of the leftmost occurrence of `needle` in `hay`, if there is one.
pub open spec fn first_occurrence(hay: Seq<char>, needle: Seq<char>) -> Option<int> {
    if occurs(hay, needle) {
        Some(choose|i: int| is_first_occurrence(hay, needle, i))
    } else {
        None
    }
}

/// Among the offsets at which `needle` occurs there is a least one.
proof fn lemma_least_occurrence(hay: Seq<char>, needle: Seq<char>, i: int)
    requires
        occurs_at(hay, needle, i),
    ensures
        exists|k: int| is_first_occurrence(hay, needle, k),
    decreases i,
{
    if exists|j: int| 0 <= j < i && occurs_at(hay, needle, j) {
        let j = choose|j: int| 0 <= j < i && occurs_at(hay, needle, j);
        lemma_least_occurrence(hay, needle, j);
    } else {
        assert(is_first_occurrence(hay, needle, i));
    }
}

/// `first_occurrence` is `Some(i)` exactly for the leftmost offset `i`, and
/// `None` exactly when there is no occurrence at all.
pub proof fn lemma_first_occurrence(hay: Seq<char>, needle: Seq<char>)
    ensures
        first_occurrence(hay, needle) is Some <==> occurs(hay, needle),
        forall|i: int|
            is_first_occurrence(hay, needle, i) <==> first_occurrence(hay, needle) == Some(i),
{
    if occurs(hay, needle) {
        let w = choose|i: int| occurs_at(hay, needle, i);
        lemma_least_occurrence(hay, needle, w);
        let c = choose|i: int| is_first_occurrence(hay, needle, i);
        assert forall|i: int| is_first_occurrence(hay, needle, i) implies i == c by {
            if i < c {
                assert(!occurs_at(hay, needle, i));
            } else if c < i {
                assert(!occurs_at(hay, needle, c));
            }
        }
    } else {
        assert forall|i: int| !is_first_occurrence(hay, needle, i) by {
            if is_first_occurrence(hay, needle, i) {
                assert(occurs_at(hay, needle, i));
            }
        }
    }
}

/// One of the four characters that count as white space before a token:
/// blank, tab, carriage return, line feed.
pub open spec fn is_multispace(c: char) -> bool {
    c == ' ' || c == '\t' || c == '\r' || c == '\n'
}

/// The number of white-space characters that `s` begins with.
pub open spec fn leading_multispace(s: Seq<char>) -> int
    decreases s.len(),
{
    if s.len() > 0 && is_multispace(s[0]) {
        1 + leading_multispace(s.skip(1))
    } else {
        0
    }
}

/// Calls `nom::bytes::complete::tag` on `input`. The parser succeeds exactly
/// when `input` begins with `token`, and then hands back what follows the
/// token; the token itself is dropped here. (nom compares the bytes of the
/// two texts; both being UTF-8, one begins with the bytes of the other
/// exactly when it begins with its characters.)
#[verifier::external_body]
pub(crate) fn tag<'a>(input: &'a str, token: &str) -> (rest: Option<&'a str>)
    ensures
        rest is Some <==> token@.is_prefix_of(input@),
        rest matches Some(r) ==> r@ == input@.skip(token@.len() as int),
{
    match nom::bytes::complete::tag::<_, _, ()>(token)(input) {
        Ok((rest, _)) => Some(rest),
        Err(_) => None,
    }
}

/// Calls `nom::bytes::complete::take_until` on `input`. The parser succeeds
/// exactly when `pattern` occurs in `input`, and then cuts `input` in two at
/// the leftmost occurrence: the second part of the result is what stands
/// before it, the first part begins with the occurrence itself. (nom looks
/// for the pattern with `str::find`, whose matches begin and end between
/// characters.)
#[verifier::external_body]
pub(crate) fn take_until<'a>(input: &'a str, pattern: &str) -> (cut: Option<(&'a str, &'a str)>)
    ensures
        cut is Some <==> occurs(input@, pattern@),
        cut matches Some((rest, before)) ==> {
            &&& is_first_occurrence(input@, pattern@, before@.len() as int)
            &&& before@ == input@.take(before@.len() as int)
            &&& rest@ == input@.skip(before@.len() as int)
        },
{
    match nom::bytes::complete::take_until::<_, _, ()>(pattern)(input) {
        Ok((rest, before)) => Some((rest, before)),
        Err(_) => None,
    }
}

/// Calls `nom::character::complete::multispace0` on `input`. On a `&str` the
/// parser always succeeds: it drops the longest run of blanks, tabs, carriage
/// returns and line feeds that `input` begins with and hands back the rest.
#[verifier::external_body]
pub(crate) fn multispace0<'a>(input: &'a str) -> (rest: Option<&'a str>)
    ensures
        rest is Some,
        rest matches Some(r) ==> r@.len() <= input@.len() && r@ == input@.skip(
            input@.len() - r@.len(),
        ),
        rest matches Some(r) ==> forall|k: int|
            0 <= k < input@.len() - r@.len() ==> is_multispace(#[trigger] input@[k]),
        rest matches Some(r) ==> r@.len() > 0 ==> !is_multispace(r@[0]),
{
    match nom::character::complete::multispace0::<_, ()>(input) {
        Ok((rest, _)) => Some(rest),
        Err(_) => None,
    }
}

/// No fenced span was found.
#[derive(Debug, Clone, Copy, PartialEq, Eq)]
pub struct NotFound;

/// What is left of `s` once the white space it begins with is dropped.
pub open spec fn skip_multispace(s: Seq<char>) -> Seq<char> {
    s.skip(leading_multispace(s))
}

/// The span of `line` that begins at offset `from` and ends before the
/// leftmost occurrence of `close` at or after `from`: the text that follows
/// that occurrence, and the span itself.
pub open spec fn span_until(line: Seq<char>, from: int, close: Seq<char>) -> Option<
    (Seq<char>, Seq<char>),
> {
    match first_occurrence(line.skip(from), close) {
        Some(j) => Some((line.skip(from + j + close.len()), line.subrange(from, from + j))),
        None => None,
    }
}

/// The fenced span that `input` begins with: `input` starts with `start`,
/// and the span runs from there to the next `end`.
pub open spec fn fenced_span(input: Seq<char>, start: Seq<char>, end: Seq<char>) -> Option<
    (Seq<char>, Seq<char>),
> {
    if start.is_prefix_of(input) {
        span_until(input, start.len() as int, end)
    } else {
        None
    }
}

/// The first fenced span of `line`: the text strictly between the leftmost
/// `open` and the leftmost `close` after it. The first component is what
/// follows the closing marker, the second is the span.
pub open spec fn first_fenced(line: Seq<char>, open: Seq<char>, close: Seq<char>) -> Option<
    (Seq<char>, Seq<char>),
> {
    match first_occurrence(line, open) {
        Some(i) => span_until(line, i + open.len(), close),
        None => None,
    }
}

/// The pieces into which the occurrences of `sep` cut `s`, from left to
/// right. An empty `sep` cuts nothing.
pub open spec fn split(s: Seq<char>, sep: Seq<char>) -> Seq<Seq<char>>
    decreases s.len(),
{
    match first_occurrence(s, sep) {
        Some(i) => if sep.len() > 0 && 0 <= i <= s.len() - sep.len() {
            seq![s.take(i)] + split(s.skip(i + sep.len()), sep)
        } else {
            seq![s]
        },
        None => seq![s],
    }
}

/// The views of a sequence of string slices.
pub open spec fn views(pieces: Seq<&str>) -> Seq<Seq<char>> {
    pieces.map_values(|p: &str| p@)
}

/// A text whose first `n` characters are white space, and whose next
/// character is not, begins with exactly `n` white-space characters.
proof fn lemma_leading_multispace(s: Seq<char>, n: int)
    requires
        0 <= n <= s.len(),
        forall|k: int| 0 <= k < n ==> is_multispace(#[trigger] s[k]),
        n < s.len() ==> !is_multispace(s[n]),
    ensures
        leading_multispace(s) == n,
    decreases n,
{
    if n > 0 {
        let t = s.skip(1);
        assert forall|k: int| 0 <= k < n - 1 implies is_multispace(#[trigger] t[k]) by {
            assert(t[k] == s[k + 1]);
        }
        lemma_leading_multispace(t, n - 1);
    }
}

/// Drops the white space that `input` begins with.
pub fn skip_whitespace<'a>(input: &'a str) -> (rest: &'a str)
    ensures
        rest@ == skip_multispace(input@),
{
    match multispace0(input) {
        Some(rest) => {
            proof {
                lemma_leading_multispace(input@, input@.len() - rest@.len());
            }
            rest
        },
        None => input,
    }
}

/// Whether the two texts are the same.
pub fn same_text(a: &str, b: &str) -> (same: bool)
    ensures
        same == (a@ == b@),
{
    match tag(a, b) {
        Some(rest) => {
            let same = rest.is_empty();
            proof {
                if same {
                    assert(a@ =~= b@);
                }
            }
            same
        },
        None => false,
    }
}

/// Whether `pattern` occurs in `text`.
pub fn contains(text: &str, pattern: &str) -> (found: bool)
    ensures
        found == occurs(text@, pattern@),
{
    take_until(text, pattern).is_some()
}

/// Takes the fenced span that `input` begins with: `input` must start with
/// `start`; the span ends before the next `end`. Hands back what follows the
/// closing marker, and the span.
pub fn fenced<'a>(input: &'a str, start: &str, end: &str) -> (r: Result<
    (&'a str, &'a str),
    NotFound,
>)
    ensures
        match fenced_span(input@, start@, end@) {
            Some((rest, span)) => r matches Ok((x, y)) && x@ == rest && y@ == span,
            None => r is Err,
        },
{
    let inner = match tag(input, start) {
        Some(inner) => inner,
        None => { return Err(NotFound); },
    };
    proof {
        lemma_first_occurrence(inner@, end@);
    }
    let (tail, span) = match take_until(inner, end) {
        Some(cut) => cut,
        None => { return Err(NotFound); },
    };
    let ghost j = span@.len() as int;
    assert(end@.is_prefix_of(tail@)) by {
        assert(tail@.subrange(0, end@.len() as int) =~= inner@.subrange(j, j + end@.len()));
    }
    match tag(tail, end) {
        Some(rest) => {
            proof {
                let from = start@.len() as int;
                assert(rest@ =~= input@.skip(from + j + end@.len()));
                assert(span@ =~= input@.subrange(from, from + j));
            }
            Ok((rest, span))
        },
        None => Err(NotFound),
    }
}

/// Takes the first fenced span of `line`: looks for the leftmost `open`,
/// then from just after it for the leftmost `close`, and hands back the text
/// strictly between the two, together with what follows the closing marker.
/// Fails when either marker is absent.
pub fn extract_fenced<'a>(line: &'a str, open: &str, close: &str) -> (r: Result<
    (&'a str, &'a str),
    NotFound,
>)
    ensures
        match first_fenced(line@, open@, close@) {
            Some((rest, span)) => r matches Ok((x, y)) && x@ == rest && y@ == span,
            None => r is Err,
        },
{
    proof {
        lemma_first_occurrence(line@, open@);
    }
    match take_until(line, open) {
        Some((tail, before)) => {
            let ghost i = before@.len() as int;
            proof {
                assert(tail@.subrange(0, open@.len() as int) =~= line@.subrange(
                    i,
                    i + open@.len(),
                ));
                let from = open@.len() as int;
                assert(tail@.skip(from) =~= line@.skip(i + from));
                lemma_first_occurrence(tail@.skip(from), close@);
                match first_occurrence(tail@.skip(from), close@) {
                    Some(j) => {
                        assert(is_first_occurrence(tail@.skip(from), close@, j));
                        assert(tail@.skip(from + j + close@.len()) =~= line@.skip(
                            i + from + j + close@.len(),
                        ));
                        assert(tail@.subrange(from, from + j) =~= line@.subrange(
                            i + from,
                            i + from + j,
                        ));
                    },
                    None => {},
                }
            }
            fenced(tail, open, close)
        },
        None => Err(NotFound),
    }
}

/// Cuts `text` at every occurrence of `sep`.
pub fn split_on<'a>(text: &'a str, sep: &str) -> (pieces: Vec<&'a str>)
    ensures
        views(pieces@) == split(text@, sep@),
{
    let mut pieces: Vec<&'a str> = Vec::new();
    let mut rest = text;
    if sep.is_empty() {
        pieces.push(text);
        assert(views(pieces@) =~= seq![text@]);
        return pieces;
    }
    loop
        invariant
            sep@.len() > 0,
            views(pieces@) + split(rest@, sep@) == split(text@, sep@),
        decreases rest@.len(),
    {
        proof {
            lemma_first_occurrence(rest@, sep@);
        }
        let ghost before_pieces = pieces@;
        match take_until(rest, sep) {
            Some((tail, before)) => {
                let ghost i = before@.len() as int;
                assert(sep@.is_prefix_of(tail@)) by {
                    assert(tail@.subrange(0, sep@.len() as int) =~= rest@.subrange(
                        i,
                        i + sep@.len(),
                    ));
                }
                match tag(tail, sep) {
                    Some(after) => {
                        pieces.push(before);
                        proof {
                            assert(after@ =~= rest@.skip(i + sep@.len()));
                            assert(views(pieces@) =~= views(before_pieces) + seq![before@]);
                            assert(views(pieces@) + split(after@, sep@) =~= views(before_pieces)
                                + split(rest@, sep@));
                        }
                        rest = after;
                    },
                    None => {
                        return pieces;
                    },
                }
            },
            None => {
                pieces.push(rest);
                proof {
                    assert(views(pieces@) =~= views(before_pieces) + seq![rest@]);
                }
                return pieces;
            },
        }
    }
}

/// A character that does not stand in `before` first occurs in
/// `before + [mark] + after` right behind `before`.
proof fn lemma_first_mark(before: Seq<char>, mark: char, after: Seq<char>)
    requires
        !before.contains(mark),
    ensures
        first_occurrence(before + seq![mark] + after, seq![mark]) == Some(before.len() as int),
{
    let line = before + seq![mark] + after;
    let at = before.len() as int;
    assert(line.subrange(at, at + 1) =~= seq![mark]);
    assert forall|j: int| 0 <= j < at implies !occurs_at(line, seq![mark], j) by {
        if occurs_at(line, seq![mark], j) {
            assert(line.subrange(j, j + 1)[0] == mark);
            assert(before[j] == mark);
        }
    }
    assert(is_first_occurrence(line, seq![mark], at));
    lemma_first_occurrence(line, seq![mark]);
}

/// A character that does not stand in a text does not occur in it as a
/// pattern.
pub proof fn lemma_absent_mark(text: Seq<char>, mark: char)
    requires
        !text.contains(mark),
    ensures
        first_occurrence(text, seq![mark]) is None,
{
    assert forall|j: int| !occurs_at(text, seq![mark], j) by {
        if occurs_at(text, seq![mark], j) {
            assert(text.subrange(j, j + 1)[0] == mark);
            assert(text[j] == mark);
        }
    }
}

/// In a line made of some text, `open`, a span, `close` and a rest, where
/// `open` occurs nowhere earlier and `close` nowhere earlier behind it, the
/// first fenced span is exactly that span, the markers left out, and what is
/// handed back with it is the rest.
pub proof fn lemma_first_fenced_between_markers(
    before: Seq<char>,
    open: Seq<char>,
    span: Seq<char>,
    close: Seq<char>,
    rest: Seq<char>,
)
    requires
        is_first_occurrence(before + open + span + close + rest, open, before.len() as int),
        is_first_occurrence(span + close + rest, close, span.len() as int),
    ensures
        first_fenced(before + open + span + close + rest, open, close) == Some((rest, span)),
{
    let line = before + open + span + close + rest;
    let from = before.len() as int + open.len() as int;
    lemma_first_occurrence(line, open);
    assert(line.skip(from) =~= span + close + rest);
    lemma_first_occurrence(span + close + rest, close);
    assert(line.skip(from + span.len() + close.len()) =~= rest);
    assert(line.subrange(from, from + span.len()) =~= span);
}

/// In a line where a span free of quotes stands between the first two
/// quotes, the first fenced span is exactly that span, the quotes left out,
/// and what is handed back with it is what follows the second quote.
pub proof fn lemma_first_fenced_between_quotes(
    before: Seq<char>,
    quote: char,
    span: Seq<char>,
    rest: Seq<char>,
)
    requires
        !before.contains(quote),
        !span.contains(quote),
    ensures
        first_fenced(
            before + seq![quote] + span + seq![quote] + rest,
            seq![quote],
            seq![quote],
        ) == Some((rest, span)),
{
    let fence = seq![quote];
    let line = before + fence + span + fence + rest;
    let from = before.len() as int + 1;
    assert(line =~= before + fence + (span + fence + rest));
    lemma_first_mark(before, quote, span + fence + rest);
    assert(line.skip(from) =~= span + fence + rest);
    lemma_first_mark(span, quote, rest);
    assert(line.skip(from + span.len() + 1) =~= rest);
    assert(line.subrange(from, from + span.len()) =~= span);
}

/// The pieces put together again, with `sep` between neighbours.
pub open spec fn joined(pieces: Seq<Seq<char>>, sep: Seq<char>) -> Seq<char>
    decreases pieces.len(),
{
    if pieces.len() == 0 {
        Seq::empty()
    } else if pieces.len() == 1 {
        pieces[0]
    } else {
        joined(pieces.drop_last(), sep) + sep + pieces.last()
    }
}

/// The text with every backslash turned into a forward slash.
pub open spec fn forward_slashes(s: Seq<char>) -> Seq<char> {
    s.map_values(|c: char| if c == '\\' { '/' } else { c })
}

/// Joining a first piece to others puts the separator after it.
proof fn lemma_joined_front(first: Seq<char>, others: Seq<Seq<char>>, sep: Seq<char>)
    requires
        others.len() > 0,
    ensures
        joined(seq![first] + others, sep) == first + sep + joined(others, sep),
    decreases others.len(),
{
    let all = seq![first] + others;
    if others.len() == 1 {
        assert(all.drop_last() =~= seq![first]);
        assert(joined(seq![first], sep) == first);
        assert(joined(others, sep) == others[0]);
        assert(all.last() == others[0]);
    } else {
        assert(all.drop_last() =~= seq![first] + others.drop_last());
        lemma_joined_front(first, others.drop_last(), sep);
        assert(joined(all, sep) =~= first + sep + joined(others, sep));
    }
}

/// Cutting a text at its backslashes and joining the pieces with forward
/// slashes turns every backslash into a forward slash and changes nothing
/// else.
pub proof fn lemma_split_then_join_replaces(s: Seq<char>)
    ensures
        split(s, "\\"@).len() > 0,
        joined(split(s, "\\"@), "/"@) == forward_slashes(s),
    decreases s.len(),
{
    reveal_strlit("\\");
    reveal_strlit("/");
    let sep = "\\"@;
    assert(sep =~= seq!['\\']);
    lemma_first_occurrence(s, sep);
    match first_occurrence(s, sep) {
        Some(i) => {
            assert(is_first_occurrence(s, sep, i));
            let head = s.take(i);
            let rest = s.skip(i + 1);
            lemma_split_then_join_replaces(rest);
            lemma_joined_front(head, split(rest, sep), "/"@);
            assert(s.subrange(i, i + 1)[0] == '\\');
            assert forall|k: int| 0 <= k < i implies s[k] != '\\' by {
                if s[k] == '\\' {
                    assert(s.subrange(k, k + 1) =~= sep);
                    assert(occurs_at(s, sep, k));
                }
            }
            assert(forward_slashes(s) =~= head + "/"@ + forward_slashes(rest));
        },
        None => {
            assert forall|k: int| 0 <= k < s.len() implies s[k] != '\\' by {
                if s[k] == '\\' {
                    assert(s.subrange(k, k + 1) =~= sep);
                    assert(occurs_at(s, sep, k));
                }
            }
            assert(forward_slashes(s) =~= s);
        },
    }
}

/// Appends `s` to `out` with every backslash turned into a forward slash.
pub fn push_forward_slashed(out: &mut String, s: &str)
    ensures
        final(out)@ == old(out)@ + forward_slashes(s@),
{
    let pieces = split_on(s, "\\");
    proof {
        lemma_split_then_join_replaces(s@);
    }
    out.append(pieces[0]);
    let mut i: usize = 1;
    while i < pieces.len()
        invariant
            1 <= i <= pieces.len(),
            out@ == old(out)@ + joined(views(pieces@).take(i as int), "/"@),
        decreases pieces.len() - i,
    {
        out.append("/");
        out.append(pieces[i]);
        proof {
            let upto = views(pieces@).take(i + 1);
            assert(upto.drop_last() =~= views(pieces@).take(i as int));
            assert(out@ =~= old(out)@ + joined(upto, "/"@));
        }
        i += 1;
    }
    assert(views(pieces@).take(i as int) =~= views(pieces@));
}

/// The characters of `text`, in order.
pub fn chars_of(text: &str) -> (chars: Vec<char>)
    ensures
        chars@ == text@,
{
    let mut chars: Vec<char> = Vec::new();
    for c in it: text.chars()
        invariant
            it.seq() == text@,
            chars@ == it.seq().take(it.index() as int),
    {
        chars.push(c);
    }
    chars
}

/// Whether the first `n` characters of `chars` end with `pattern`.
pub fn ends_at(chars: &Vec<char>, n: usize, pattern: &Vec<char>) -> (ends: bool)
    requires
        n <= chars.len(),
    ensures
        ends == pattern@.is_suffix_of(chars@.take(n as int)),
{
    if pattern.len() > n {
        return false;
    }
    let start = n - pattern.len();
    let ghost tail = chars@.take(n as int).subrange(start as int, n as int);
    let mut k: usize = 0;
    while k < pattern.len()
        invariant
            k <= pattern.len() <= n <= chars.len(),
            start == n - pattern.len(),
            tail == chars@.take(n as int).subrange(start as int, n as int),
            forall|j: int| 0 <= j < k ==> pattern@[j] == tail[j],
        decreases pattern.len() - k,
    {
        if pattern[k] != chars[start + k] {
            assert(tail[k as int] == chars@[start + k]);
            return false;
        }
        k += 1;
    }
    assert(pattern@ =~= tail);
    true
}

/// What is left of `s` once `suffix` is taken off its end as often as it
/// stands there.
pub open spec fn trimmed_end(s: Seq<char>, suffix: Seq<char>) -> Seq<char>
    decreases s.len(),
{
    if suffix.len() > 0 && suffix.is_suffix_of(s) {
        trimmed_end(s.take(s.len() - suffix.len()), suffix)
    } else {
        s
    }
}

/// Takes `suffix` off the end of `text` as often as it stands there.
pub fn trim_end_matches<'a>(text: &'a str, suffix: &str) -> (rest: &'a str)
    ensures
        rest@ == trimmed_end(text@, suffix@),
{
    let chars = chars_of(text);
    let pattern = chars_of(suffix);
    if pattern.len() == 0 {
        return text;
    }
    let mut n: usize = chars.len();
    assert(text@.take(n as int) =~= text@);
    while ends_at(&chars, n, &pattern)
        invariant
            n <= chars.len(),
            chars@ == text@,
            pattern@ == suffix@,
            pattern.len() > 0,
            trimmed_end(text@, suffix@) == trimmed_end(text@.take(n as int), suffix@),
        decreases n,
    {
        assert(text@.take(n as int).take(n - pattern.len()) =~= text@.take(n - pattern.len()));
        n -= pattern.len();
    }
    let rest = text.substring_char(0, n);
    assert(rest@ =~= text@.take(n as int));
    rest
}

/// `name` is a file name whose extension is `ext`: it ends with a dot and
/// `ext`, something stands before that dot, and `ext` itself holds no dot.
/// (`..` names the parent directory and has no extension.)
pub open spec fn has_extension(name: Seq<char>, ext: Seq<char>) -> bool {
    &&& name != ".."@
    &&& !ext.contains('.')
    &&& name.len() > ext.len() + 1
    &&& ext.is_suffix_of(name)
    &&& name[name.len() - ext.len() - 1] == '.'
}

/// Whether the extension of the file name `name` is `ext`.
pub fn extension_is(name: &str, ext: &str) -> (matches: bool)
    ensures
        matches == has_extension(name@, ext@),
{
    if same_text(name, "..") {
        return false;
    }
    let chars = chars_of(name);
    let wanted = chars_of(ext);
    let mut k: usize = 0;
    while k < wanted.len()
        invariant
            k <= wanted.len(),
            wanted@ == ext@,
            forall|j: int| 0 <= j < k ==> wanted@[j] != '.',
        decreases wanted.len() - k,
    {
        if wanted[k] == '.' {
            assert(wanted@.contains('.'));
            return false;
        }
        k += 1;
    }
    if chars.len() <= wanted.len() || chars.len() - wanted.len() < 2 {
        return false;
    }
    assert(chars@.take(chars.len() as int) =~= chars@);
    ends_at(&chars, chars.len(), &wanted) && chars[chars.len() - wanted.len() - 1] == '.'
}

} // verus!
