//! Which occurrences of dictionary patterns are replaced.
//!
//! A dictionary maps patterns to payloads, both byte strings. An occurrence
//! of a pattern in a text is a non-empty span of the text that equals a key
//! of the dictionary. The text is read from left to right. At the first
//! position where some pattern starts, the longest pattern that starts there
//! is accepted, and reading goes on behind it, so accepted spans never
//! overlap. The rewritten text is the text with every accepted span replaced
//! by the payload of its pattern.

use vstd::prelude::*;

verus! {

/// A half-open span `start..end` of a text.
pub struct Span {
    pub start: int,
    pub end: int,
}

/// The span `start..end` of `text` is not empty and is a key of `dict`.
pub open spec fn occurs(dict: Map<Seq<u8>, Seq<u8>>, text: Seq<u8>, start: int, end: int) -> bool {
    0 <= start < end <= text.len() && dict.contains_key(text.subrange(start, end))
}

/// The largest `end` in `start + 1 ..= bound` at which a pattern that starts
/// at `start` ends; `start` itself where there is none.
pub open spec fn longest_end(
    dict: Map<Seq<u8>, Seq<u8>>,
    text: Seq<u8>,
    start: int,
    bound: int,
) -> int
    decreases bound - start,
{
    if bound <= start {
        start
    } else if dict.contains_key(text.subrange(start, bound)) {
        bound
    } else {
        longest_end(dict, text, start, bound - 1)
    }
}

/// The spans accepted at or behind position `pos`, from left to right.
pub open spec fn accepted_from(dict: Map<Seq<u8>, Seq<u8>>, text: Seq<u8>, pos: int) -> Seq<Span>
    decreases text.len() - pos,
{
    if pos < 0 || pos >= text.len() {
        Seq::empty()
    } else {
        let end = longest_end(dict, text, pos, text.len() as int);
        if pos < end <= text.len() {
            seq![Span { start: pos, end }] + accepted_from(dict, text, end)
        } else {
            accepted_from(dict, text, pos + 1)
        }
    }
}

/// The spans of `text` that are replaced.
pub open spec fn accepted(dict: Map<Seq<u8>, Seq<u8>>, text: Seq<u8>) -> Seq<Span> {
    accepted_from(dict, text, 0)
}

/// The text from position `from` on, with each span of `spans` replaced by
/// the payload of the pattern that it holds. The spans lie behind `from`,
/// in order and without overlap.
pub open spec fn render(
    dict: Map<Seq<u8>, Seq<u8>>,
    text: Seq<u8>,
    spans: Seq<Span>,
    from: int,
) -> Seq<u8>
    decreases spans.len(),
{
    if spans.len() == 0 {
        text.subrange(from, text.len() as int)
    } else {
        text.subrange(from, spans[0].start) + dict[text.subrange(spans[0].start, spans[0].end)]
            + render(dict, text, spans.drop_first(), spans[0].end)
    }
}

/// The rewritten text.
pub open spec fn rewrite(dict: Map<Seq<u8>, Seq<u8>>, text: Seq<u8>) -> Seq<u8> {
    render(dict, text, accepted(dict, text), 0)
}

/// `longest_end` is the end of an occurrence, and no occurrence from the same
/// start ends later within the bound.
pub proof fn lemma_longest_end(dict: Map<Seq<u8>, Seq<u8>>, text: Seq<u8>, start: int, bound: int)
    ensures
        start <= longest_end(dict, text, start, bound),
        longest_end(dict, text, start, bound) <= bound || longest_end(dict, text, start, bound)
            == start,
        longest_end(dict, text, start, bound) > start ==> dict.contains_key(
            text.subrange(start, longest_end(dict, text, start, bound)),
        ),
        forall|e: int|
            longest_end(dict, text, start, bound) < e <= bound ==> !dict.contains_key(
                #[trigger] text.subrange(start, e),
            ),
    decreases bound - start,
{
    if bound > start && !dict.contains_key(text.subrange(start, bound)) {
        lemma_longest_end(dict, text, start, bound - 1);
    }
}

/// An end that is an occurrence's and is followed by no later one is the
/// longest end.
pub proof fn lemma_longest_end_unique(
    dict: Map<Seq<u8>, Seq<u8>>,
    text: Seq<u8>,
    start: int,
    bound: int,
    end: int,
)
    requires
        start <= end,
        end <= bound || end == start,
        end > start ==> dict.contains_key(text.subrange(start, end)),
        forall|e: int| end < e <= bound ==> !dict.contains_key(#[trigger] text.subrange(start, e)),
    ensures
        longest_end(dict, text, start, bound) == end,
    decreases bound - start,
{
    if bound > start && bound != end {
        lemma_longest_end_unique(dict, text, start, bound - 1, end);
    }
}

/// Every accepted span is an occurrence, the longest from its start, and
/// begins at or behind the position from which reading went on.
pub proof fn lemma_accepted_from_occur(dict: Map<Seq<u8>, Seq<u8>>, text: Seq<u8>, pos: int)
    ensures
        forall|k: int|
            0 <= k < accepted_from(dict, text, pos).len() ==> {
                let span = #[trigger] accepted_from(dict, text, pos)[k];
                &&& pos <= span.start
                &&& occurs(dict, text, span.start, span.end)
                &&& span.end == longest_end(dict, text, span.start, text.len() as int)
            },
    decreases text.len() - pos,
{
    if 0 <= pos < text.len() {
        let end = longest_end(dict, text, pos, text.len() as int);
        lemma_longest_end(dict, text, pos, text.len() as int);
        if pos < end <= text.len() {
            lemma_accepted_from_occur(dict, text, end);
            let rest = accepted_from(dict, text, end);
            let all = accepted_from(dict, text, pos);
            assert forall|k: int| 0 <= k < all.len() implies {
                let span = #[trigger] all[k];
                &&& pos <= span.start
                &&& occurs(dict, text, span.start, span.end)
                &&& span.end == longest_end(dict, text, span.start, text.len() as int)
            } by {
                if k > 0 {
                    assert(all[k] == rest[k - 1]);
                }
            }
        } else {
            lemma_accepted_from_occur(dict, text, pos + 1);
            assert(accepted_from(dict, text, pos) == accepted_from(dict, text, pos + 1));
        }
    } else {
        assert(accepted_from(dict, text, pos).len() == 0);
    }
}

/// Accepted spans come in order and do not overlap.
pub proof fn lemma_accepted_from_disjoint(dict: Map<Seq<u8>, Seq<u8>>, text: Seq<u8>, pos: int)
    ensures
        forall|j: int, k: int|
            0 <= j < k < accepted_from(dict, text, pos).len() ==> (#[trigger] accepted_from(
                dict,
                text,
                pos,
            )[j]).end <= (#[trigger] accepted_from(dict, text, pos)[k]).start,
    decreases text.len() - pos,
{
    if 0 <= pos < text.len() {
        let end = longest_end(dict, text, pos, text.len() as int);
        if pos < end <= text.len() {
            lemma_accepted_from_disjoint(dict, text, end);
            lemma_accepted_from_occur(dict, text, end);
            let rest = accepted_from(dict, text, end);
            let all = accepted_from(dict, text, pos);
            assert forall|j: int, k: int| 0 <= j < k < all.len() implies (#[trigger] all[j]).end
                <= (#[trigger] all[k]).start by {
                assert(all[k] == rest[k - 1]);
                if j > 0 {
                    assert(all[j] == rest[j - 1]);
                }
            }
        } else {
            lemma_accepted_from_disjoint(dict, text, pos + 1);
            assert(accepted_from(dict, text, pos) == accepted_from(dict, text, pos + 1));
        }
    } else {
        assert(accepted_from(dict, text, pos).len() == 0);
    }
}

/// The start of every occurrence at or behind `pos` lies in an accepted span.
pub proof fn lemma_accepted_from_covers(
    dict: Map<Seq<u8>, Seq<u8>>,
    text: Seq<u8>,
    pos: int,
    start: int,
    end: int,
) -> (k: int)
    requires
        0 <= pos <= start,
        occurs(dict, text, start, end),
    ensures
        0 <= k < accepted_from(dict, text, pos).len(),
        accepted_from(dict, text, pos)[k].start <= start < accepted_from(dict, text, pos)[k].end,
    decreases text.len() - pos,
{
    let longest = longest_end(dict, text, pos, text.len() as int);
    lemma_longest_end(dict, text, pos, text.len() as int);
    if pos < longest <= text.len() {
        if start < longest {
            0
        } else {
            lemma_accepted_from_covers(dict, text, longest, start, end) + 1
        }
    } else {
        assert(pos != start);
        lemma_accepted_from_covers(dict, text, pos + 1, start, end)
    }
}

/// Two different accepted spans never overlap: one begins at or behind the
/// end of the other.
pub proof fn lemma_accepted_never_overlap(
    dict: Map<Seq<u8>, Seq<u8>>,
    text: Seq<u8>,
    j: int,
    k: int,
)
    requires
        0 <= j < accepted(dict, text).len(),
        0 <= k < accepted(dict, text).len(),
        j != k,
    ensures
        accepted(dict, text)[j].start >= accepted(dict, text)[k].end
            || accepted(dict, text)[k].start >= accepted(dict, text)[j].end,
{
    lemma_accepted_from_disjoint(dict, text, 0);
}

/// Where two patterns end at the same position and the shorter one, a suffix
/// of the longer, is accepted, the longer one was out of the question: it
/// begins strictly inside a span accepted before. Whenever the longer one can
/// be accepted, the shorter one is not.
pub proof fn lemma_longer_pattern_preferred(
    dict: Map<Seq<u8>, Seq<u8>>,
    text: Seq<u8>,
    k: int,
    start: int,
) -> (j: int)
    requires
        0 <= k < accepted(dict, text).len(),
        start < accepted(dict, text)[k].start,
        occurs(dict, text, start, accepted(dict, text)[k].end),
    ensures
        0 <= j < k,
        accepted(dict, text)[j].start < start < accepted(dict, text)[j].end,
{
    let spans = accepted(dict, text);
    let j = lemma_accepted_from_covers(dict, text, 0, start, spans[k].end);
    lemma_accepted_from_disjoint(dict, text, 0);
    lemma_accepted_from_occur(dict, text, 0);
    if spans[j].start == start {
        lemma_longest_end(dict, text, start, text.len() as int);
        assert(spans[j].end >= spans[k].end);
    }
    j
}

/// Where two patterns end at the same position, the shorter a suffix of the
/// longer, and the longer does not begin strictly inside an accepted span,
/// the longer one wins: a span is accepted that begins where the longer
/// pattern begins and covers it, and none begins where the shorter begins.
pub proof fn lemma_longer_pattern_accepted(
    dict: Map<Seq<u8>, Seq<u8>>,
    text: Seq<u8>,
    longer: int,
    shorter: int,
    end: int,
) -> (k: int)
    requires
        occurs(dict, text, longer, end),
        occurs(dict, text, shorter, end),
        longer < shorter,
        forall|j: int|
            0 <= j < accepted(dict, text).len() ==> !((#[trigger] accepted(dict, text)[j]).start
                < longer < accepted(dict, text)[j].end),
    ensures
        0 <= k < accepted(dict, text).len(),
        accepted(dict, text)[k].start == longer,
        accepted(dict, text)[k].end >= end,
        forall|j: int|
            0 <= j < accepted(dict, text).len() ==> (#[trigger] accepted(dict, text)[j]).start
                != shorter,
{
    let spans = accepted(dict, text);
    let k = lemma_accepted_from_covers(dict, text, 0, longer, end);
    lemma_accepted_from_disjoint(dict, text, 0);
    lemma_accepted_from_occur(dict, text, 0);
    lemma_longest_end(dict, text, longer, text.len() as int);
    assert(spans[k].start == longer);
    assert forall|j: int| 0 <= j < spans.len() implies (#[trigger] spans[j]).start != shorter by {
        if spans[j].start == shorter {
            if j < k {
                assert(spans[j].end <= spans[k].start);
            } else if j > k {
                assert(spans[k].end <= spans[j].start);
            }
        }
    }
    k
}

/// Where no pattern occurs at or behind `pos`, nothing is accepted there.
pub proof fn lemma_accepted_from_none(dict: Map<Seq<u8>, Seq<u8>>, text: Seq<u8>, pos: int)
    requires
        forall|start: int, end: int|
            pos <= start ==> !#[trigger] occurs(dict, text, start, end),
    ensures
        accepted_from(dict, text, pos) == Seq::<Span>::empty(),
    decreases text.len() - pos,
{
    if 0 <= pos < text.len() {
        let end = longest_end(dict, text, pos, text.len() as int);
        lemma_longest_end(dict, text, pos, text.len() as int);
        if pos < end <= text.len() {
            assert(occurs(dict, text, pos, end));
        } else {
            lemma_accepted_from_none(dict, text, pos + 1);
        }
    }
}

/// A text in which no pattern occurs is left as it is.
pub proof fn lemma_no_occurrence_unchanged(dict: Map<Seq<u8>, Seq<u8>>, text: Seq<u8>)
    requires
        forall|start: int, end: int| !#[trigger] occurs(dict, text, start, end),
    ensures
        rewrite(dict, text) == text,
{
    lemma_accepted_from_none(dict, text, 0);
    assert(text.subrange(0, text.len() as int) =~= text);
}

/// With an empty dictionary every text is left as it is.
pub proof fn lemma_empty_dictionary_unchanged(text: Seq<u8>)
    ensures
        rewrite(Map::<Seq<u8>, Seq<u8>>::empty(), text) == text,
{
    lemma_no_occurrence_unchanged(Map::empty(), text);
}

/// A pattern that is entered a second time keeps only its second payload:
/// every text is rewritten as if the first had never been entered.
pub proof fn lemma_last_insert_wins(
    dict: Map<Seq<u8>, Seq<u8>>,
    pattern: Seq<u8>,
    first: Seq<u8>,
    second: Seq<u8>,
    text: Seq<u8>,
)
    ensures
        rewrite(dict.insert(pattern, first).insert(pattern, second), text) == rewrite(
            dict.insert(pattern, second),
            text,
        ),
{
    assert(dict.insert(pattern, first).insert(pattern, second) =~= dict.insert(pattern, second));
}

/// A text that is one pattern, whole, is rewritten to the payload entered
/// last for that pattern.
pub proof fn lemma_pattern_alone_gives_payload(
    dict: Map<Seq<u8>, Seq<u8>>,
    pattern: Seq<u8>,
    first: Seq<u8>,
    second: Seq<u8>,
)
    requires
        pattern.len() > 0,
    ensures
        rewrite(dict.insert(pattern, first).insert(pattern, second), pattern) == second,
{
    let d = dict.insert(pattern, first).insert(pattern, second);
    let n = pattern.len() as int;
    assert(pattern.subrange(0, n) =~= pattern);
    assert(longest_end(d, pattern, 0, n) == n);
    assert(accepted_from(d, pattern, n) == Seq::<Span>::empty());
    let spans = accepted(d, pattern);
    assert(spans == seq![Span { start: 0, end: n }] + Seq::<Span>::empty());
    assert(spans.drop_first() =~= Seq::<Span>::empty());
    assert(render(d, pattern, spans.drop_first(), n) == pattern.subrange(n, n));
    assert(pattern.subrange(0, 0) + second + pattern.subrange(n, n) =~= second);
}

} // verus!
