//! The mathematical model of printable runs.
//!
//! A *run* is a stretch of printable ASCII bytes that cannot be made longer
//! on either side. This module says which runs a buffer has, which of them
//! are reported for a given threshold, and in what order.

use vstd::prelude::*;

verus! {

/// A byte is printable when it lies between space and tilde, both included.
pub open spec fn is_printable(b: u8) -> bool {
    32 <= b <= 126
}

/// A text is printable when each of its characters is one of the 95 printable
/// ASCII characters.
pub open spec fn is_printable_text(text: Seq<char>) -> bool {
    forall|j: int| 0 <= j < text.len() ==> 32 <= #[trigger] text[j] as int <= 126
}

/// The bytes read as text, each byte standing for the character with the same
/// code.
pub open spec fn text_of(bytes: Seq<u8>) -> Seq<char> {
    Seq::new(bytes.len(), |i: int| bytes[i] as char)
}

/// `[start, end)` is a run of `data`: it is not empty, all of its bytes are
/// printable, and the bytes next to it on either side, if there are any, are
/// not.
pub open spec fn is_run(data: Seq<u8>, start: int, end: int) -> bool {
    &&& 0 <= start < end <= data.len()
    &&& forall|k: int| start <= k < end ==> is_printable(#[trigger] data[k])
    &&& (start == 0 || !is_printable(data[start - 1]))
    &&& (end == data.len() || !is_printable(data[end]))
}

/// The first position at or after `from` that holds no printable byte; the
/// length of the buffer when there is none.
pub open spec fn run_end(data: Seq<u8>, from: int) -> int
    decreases data.len() - from,
{
    if 0 <= from < data.len() && is_printable(data[from]) {
        run_end(data, from + 1)
    } else {
        from
    }
}

/// The spans `(start, end)` of the runs found in `data` from position `from`
/// on, in order of appearance, without those shorter than `min_length`.
pub open spec fn spans_from(data: Seq<u8>, min_length: nat, from: int) -> Seq<(int, int)>
    decreases data.len() - from,
{
    if from < 0 || from >= data.len() {
        Seq::empty()
    } else if !is_printable(data[from]) {
        spans_from(data, min_length, from + 1)
    } else {
        let end = run_end(data, from);
        proof {
            lemma_run_end_bounds(data, from + 1);
        }
        let rest = spans_from(data, min_length, end);
        if end - from >= min_length {
            seq![(from, end)] + rest
        } else {
            rest
        }
    }
}

/// The spans of the runs of `data` that are at least `min_length` long, in
/// order of appearance.
pub open spec fn run_spans(data: Seq<u8>, min_length: nat) -> Seq<(int, int)> {
    spans_from(data, min_length, 0)
}

/// The text that each span covers.
pub open spec fn span_texts(data: Seq<u8>, spans: Seq<(int, int)>) -> Seq<Seq<char>> {
    Seq::new(spans.len(), |k: int| text_of(data.subrange(spans[k].0, spans[k].1)))
}

/// The texts of the runs of `data` that are at least `min_length` long, in
/// order of appearance.
pub open spec fn extracted_texts(data: Seq<u8>, min_length: nat) -> Seq<Seq<char>> {
    span_texts(data, run_spans(data, min_length))
}

/// One more span at the end of the list gives one more text at the end of
/// the texts.
pub proof fn lemma_span_texts_push(data: Seq<u8>, spans: Seq<(int, int)>, start: int, end: int)
    ensures
        span_texts(data, spans.push((start, end))) == span_texts(data, spans).push(
            text_of(data.subrange(start, end)),
        ),
{
    let longer = spans.push((start, end));
    assert forall|k: int| 0 <= k < longer.len() implies span_texts(data, longer)[k] == span_texts(
        data,
        spans,
    ).push(text_of(data.subrange(start, end)))[k] by {
        if k < spans.len() {
            assert(longer[k] == spans[k]);
        }
    }
    assert(span_texts(data, longer) =~= span_texts(data, spans).push(
        text_of(data.subrange(start, end)),
    ));
}

/// `run_end` never moves backwards and never leaves the buffer.
pub proof fn lemma_run_end_bounds(data: Seq<u8>, from: int)
    requires
        0 <= from <= data.len(),
    ensures
        from <= run_end(data, from) <= data.len(),
    decreases data.len() - from,
{
    if from < data.len() && is_printable(data[from]) {
        lemma_run_end_bounds(data, from + 1);
    }
}

/// A stretch of printable bytes that stops at `end` has its `run_end` there.
pub proof fn lemma_run_end_is(data: Seq<u8>, from: int, end: int)
    requires
        0 <= from <= end <= data.len(),
        forall|k: int| from <= k < end ==> is_printable(#[trigger] data[k]),
        end == data.len() || !is_printable(data[end]),
    ensures
        run_end(data, from) == end,
    decreases end - from,
{
    if from < end {
        lemma_run_end_is(data, from + 1, end);
    }
}

/// Between `from` and `run_end(data, from)` every byte is printable, and the
/// byte at `run_end(data, from)`, if there is one, is not.
pub proof fn lemma_run_end_stops(data: Seq<u8>, from: int)
    requires
        0 <= from <= data.len(),
    ensures
        forall|k: int| from <= k < run_end(data, from) ==> is_printable(#[trigger] data[k]),
        run_end(data, from) == data.len() || !is_printable(data[run_end(data, from)]),
    decreases data.len() - from,
{
    if from < data.len() && is_printable(data[from]) {
        lemma_run_end_stops(data, from + 1);
    }
}

/// Position `at` does not lie strictly inside a stretch of printable bytes:
/// a run may begin there, or end there, but none goes through it.
pub open spec fn is_boundary(data: Seq<u8>, at: int) -> bool {
    &&& 0 <= at <= data.len()
    &&& (at == 0 || at == data.len() || !is_printable(data[at - 1]) || !is_printable(data[at]))
}

/// The spans lie one behind the other, with at least one byte between any
/// two of them.
pub open spec fn are_apart(spans: Seq<(int, int)>) -> bool {
    forall|j: int, k: int|
        0 <= j < k < spans.len() ==> (#[trigger] spans[j]).1 < (#[trigger] spans[k]).0
}

/// Each span is a run of `data` that begins at or behind `from` and is at
/// least `min_length` long.
pub open spec fn are_runs(
    data: Seq<u8>,
    min_length: nat,
    from: int,
    spans: Seq<(int, int)>,
) -> bool {
    forall|k: int|
        0 <= k < spans.len() ==> {
            &&& from <= (#[trigger] spans[k]).0
            &&& is_run(data, spans[k].0, spans[k].1)
            &&& spans[k].1 - spans[k].0 >= min_length
        }
}

/// Every span reported from a boundary on is a run of the buffer and at
/// least as long as the threshold, and the spans lie apart, in order.
pub proof fn lemma_spans_from_sound(data: Seq<u8>, min_length: nat, from: int)
    requires
        is_boundary(data, from),
    ensures
        are_runs(data, min_length, from, spans_from(data, min_length, from)),
        are_apart(spans_from(data, min_length, from)),
    decreases data.len() - from,
{
    let spans = spans_from(data, min_length, from);
    if from >= data.len() {
    } else if !is_printable(data[from]) {
        lemma_spans_from_sound(data, min_length, from + 1);
    } else {
        let end = run_end(data, from);
        lemma_run_end_bounds(data, from + 1);
        lemma_run_end_stops(data, from);
        let rest = spans_from(data, min_length, end);
        if end < data.len() {
            assert(rest == spans_from(data, min_length, end + 1));
            lemma_spans_from_sound(data, min_length, end + 1);
        }
        assert(are_runs(data, min_length, end + 1, rest));
        assert(are_apart(rest));
        assert(is_run(data, from, end));
        if end - from >= min_length {
            assert(spans == seq![(from, end)] + rest);
            assert forall|k: int| 0 <= k < spans.len() implies {
                &&& from <= (#[trigger] spans[k]).0
                &&& is_run(data, spans[k].0, spans[k].1)
                &&& spans[k].1 - spans[k].0 >= min_length
            } by {
                if k > 0 {
                    assert(spans[k] == rest[k - 1]);
                }
            }
            assert forall|j: int, k: int| 0 <= j < k < spans.len() implies (#[trigger] spans[j]).1
                < (#[trigger] spans[k]).0 by {
                assert(spans[k] == rest[k - 1]);
                if j > 0 {
                    assert(spans[j] == rest[j - 1]);
                }
            }
        } else {
            assert(spans == rest);
        }
    }
}

/// Every run that begins at or behind a boundary and is at least as long as
/// the threshold is among the spans reported from that boundary on.
pub proof fn lemma_spans_from_complete(
    data: Seq<u8>,
    min_length: nat,
    from: int,
    start: int,
    end: int,
)
    requires
        is_boundary(data, from),
        from <= start,
        is_run(data, start, end),
        end - start >= min_length,
    ensures
        spans_from(data, min_length, from).contains((start, end)),
    decreases data.len() - from,
{
    let spans = spans_from(data, min_length, from);
    if !is_printable(data[from]) {
        lemma_spans_from_complete(data, min_length, from + 1, start, end);
    } else {
        let stop = run_end(data, from);
        lemma_run_end_bounds(data, from + 1);
        lemma_run_end_stops(data, from);
        let rest = spans_from(data, min_length, stop);
        if start == from {
            lemma_run_end_is(data, from, end);
            assert(spans[0] == (start, end));
        } else {
            assert(!is_printable(data[start - 1]));
            assert(stop < start);
            assert(rest == spans_from(data, min_length, stop + 1));
            lemma_spans_from_complete(data, min_length, stop + 1, start, end);
            let k = choose|k: int| 0 <= k < rest.len() && rest[k] == (start, end);
            if stop - from >= min_length {
                assert(spans[k + 1] == rest[k]);
            }
        }
    }
}

/// `spans` lists the reported runs of `data`: each span is a run that is at
/// least `min_length` long, the spans come in order of appearance, and no
/// such run is missing.
pub open spec fn lists_runs(data: Seq<u8>, min_length: nat, spans: Seq<(int, int)>) -> bool {
    &&& are_runs(data, min_length, 0, spans)
    &&& are_apart(spans)
    &&& forall|start: int, end: int|
        is_run(data, start, end) && end - start >= min_length ==> #[trigger] spans.contains(
            (start, end),
        )
}

/// Two lists of spans that lie apart and hold the same spans are the same
/// list.
proof fn lemma_same_spans(first: Seq<(int, int)>, second: Seq<(int, int)>)
    requires
        are_apart(first),
        are_apart(second),
        forall|k: int| 0 <= k < first.len() ==> (#[trigger] first[k]).0 < first[k].1,
        forall|k: int| 0 <= k < second.len() ==> (#[trigger] second[k]).0 < second[k].1,
        forall|k: int| 0 <= k < first.len() ==> second.contains(#[trigger] first[k]),
        forall|k: int| 0 <= k < second.len() ==> first.contains(#[trigger] second[k]),
    ensures
        first == second,
    decreases first.len(),
{
    if first.len() == 0 {
        if second.len() > 0 {
            assert(first.contains(second[0]));
        }
        assert(first =~= second);
    } else {
        let top = first.last();
        assert(second.contains(top));
        let i = choose|i: int| 0 <= i < second.len() && second[i] == top;
        assert(first.contains(second.last()));
        let j = choose|j: int| 0 <= j < first.len() && first[j] == second.last();
        assert(i == second.len() - 1) by {
            if i < second.len() - 1 {
                assert(second[i].1 < second.last().0);
                if j < first.len() - 1 {
                    assert(first[j].1 < first.last().0);
                }
            }
        }
        let lower = first.drop_last();
        let other = second.drop_last();
        assert forall|k: int| 0 <= k < lower.len() implies other.contains(#[trigger] lower[k]) by {
            assert(second.contains(first[k]));
            let m = choose|m: int| 0 <= m < second.len() && second[m] == first[k];
            assert(first[k].1 < first.last().0);
            assert(other[m] == lower[k]);
        }
        assert forall|k: int| 0 <= k < other.len() implies lower.contains(#[trigger] other[k]) by {
            assert(first.contains(second[k]));
            let m = choose|m: int| 0 <= m < first.len() && first[m] == second[k];
            assert(second[k].1 < second.last().0);
            assert(lower[m] == other[k]);
        }
        assert(are_apart(lower)) by {
            assert forall|a: int, b: int| 0 <= a < b < lower.len() implies (#[trigger] lower[a]).1
                < (#[trigger] lower[b]).0 by {
                assert(first[a].1 < first[b].0);
            }
        }
        assert(are_apart(other)) by {
            assert forall|a: int, b: int| 0 <= a < b < other.len() implies (#[trigger] other[a]).1
                < (#[trigger] other[b]).0 by {
                assert(second[a].1 < second[b].0);
            }
        }
        assert forall|k: int| 0 <= k < lower.len() implies (#[trigger] lower[k]).0 < lower[k].1 by {
            assert(first[k].0 < first[k].1);
        }
        assert forall|k: int| 0 <= k < other.len() implies (#[trigger] other[k]).0 < other[k].1 by {
            assert(second[k].0 < second[k].1);
        }
        lemma_same_spans(lower, other);
        assert(first =~= lower.push(top));
        assert(second =~= other.push(top));
    }
}

/// The spans that `run_spans` gives are the reported runs of the buffer, and
/// no other list is: the description in `lists_runs` has exactly one answer.
pub proof fn lemma_run_spans_characterised(data: Seq<u8>, min_length: nat, spans: Seq<(int, int)>)
    ensures
        lists_runs(data, min_length, run_spans(data, min_length)),
        lists_runs(data, min_length, spans) <==> spans == run_spans(data, min_length),
{
    let found = run_spans(data, min_length);
    lemma_spans_from_sound(data, min_length, 0);
    assert forall|start: int, end: int|
        is_run(data, start, end) && end - start >= min_length implies #[trigger] found.contains(
        (start, end),
    ) by {
        lemma_spans_from_complete(data, min_length, 0, start, end);
    }
    if lists_runs(data, min_length, spans) {
        assert forall|k: int| 0 <= k < spans.len() implies found.contains(#[trigger] spans[k]) by {
            assert(is_run(data, spans[k].0, spans[k].1));
        }
        assert forall|k: int| 0 <= k < found.len() implies spans.contains(#[trigger] found[k]) by {
            assert(is_run(data, found[k].0, found[k].1));
        }
        lemma_same_spans(spans, found);
    }
}

/// Every extracted text is at least as long as the threshold, is never
/// empty, and holds printable characters only.
pub proof fn lemma_texts_long_and_printable(data: Seq<u8>, min_length: nat)
    ensures
        forall|i: int|
            0 <= i < extracted_texts(data, min_length).len() ==> (#[trigger] extracted_texts(
                data,
                min_length,
            )[i]).len() >= min_length && extracted_texts(data, min_length)[i].len() >= 1
                && is_printable_text(extracted_texts(data, min_length)[i]),
{
    let spans = run_spans(data, min_length);
    let texts = extracted_texts(data, min_length);
    lemma_spans_from_sound(data, min_length, 0);
    assert forall|i: int| 0 <= i < texts.len() implies {
        &&& (#[trigger] texts[i]).len() >= min_length
        &&& texts[i].len() >= 1
        &&& is_printable_text(texts[i])
    } by {
        let (start, end) = spans[i];
        assert(is_run(data, start, end));
        assert forall|j: int| 0 <= j < texts[i].len() implies 32 <= #[trigger] texts[i][j] as int
            <= 126 by {
            assert(is_printable(data[start + j]));
        }
    }
}

/// A buffer without a printable byte has no run, so nothing is extracted
/// from it, whatever the threshold. The empty buffer is one such.
pub proof fn lemma_nothing_printable_nothing_extracted(data: Seq<u8>, min_length: nat)
    requires
        forall|k: int| 0 <= k < data.len() ==> !is_printable(#[trigger] data[k]),
    ensures
        run_spans(data, min_length).len() == 0,
        extracted_texts(data, min_length).len() == 0,
{
    let spans = run_spans(data, min_length);
    lemma_spans_from_sound(data, min_length, 0);
    if spans.len() > 0 {
        assert(is_run(data, spans[0].0, spans[0].1));
        assert(is_printable(data[spans[0].0]));
    }
}

/// A run that reaches the end of the buffer and is at least as long as the
/// threshold is reported, and it is the last one: no terminating byte is
/// needed behind it.
pub proof fn lemma_trailing_run_is_last(data: Seq<u8>, min_length: nat, start: int)
    requires
        is_run(data, start, data.len() as int),
        data.len() - start >= min_length,
    ensures
        run_spans(data, min_length).len() > 0,
        run_spans(data, min_length).last() == (start, data.len() as int),
        extracted_texts(data, min_length).last() == text_of(data.skip(start)),
{
    let spans = run_spans(data, min_length);
    let end = data.len() as int;
    lemma_spans_from_sound(data, min_length, 0);
    lemma_spans_from_complete(data, min_length, 0, start, end);
    let k = choose|k: int| 0 <= k < spans.len() && spans[k] == (start, end);
    if k < spans.len() - 1 {
        assert(spans[k].1 < spans.last().0);
        assert(is_run(data, spans.last().0, spans.last().1));
    }
}

/// `at` places `part` inside `whole`: it gives, for each element of `part`,
/// a position of `whole` that holds the same element, and the positions
/// grow strictly from one element to the next.
pub open spec fn embeds_at<T>(part: Seq<T>, whole: Seq<T>, at: Seq<int>) -> bool {
    &&& at.len() == part.len()
    &&& forall|k: int|
        0 <= k < at.len() ==> 0 <= #[trigger] at[k] < whole.len() && part[k] == whole[at[k]]
    &&& forall|j: int, k: int| 0 <= j < k < at.len() ==> #[trigger] at[j] < #[trigger] at[k]
}

/// `part` is a subsequence of `whole`: it can be had from `whole` by leaving
/// elements out, without moving or repeating any.
pub open spec fn is_subsequence<T>(part: Seq<T>, whole: Seq<T>) -> bool {
    exists|at: Seq<int>| embeds_at(part, whole, at)
}

/// The positions that the spans cover, span after span.
pub open spec fn span_positions(spans: Seq<(int, int)>) -> Seq<int>
    decreases spans.len(),
{
    if spans.len() == 0 {
        Seq::empty()
    } else {
        Seq::new((spans[0].1 - spans[0].0) as nat, |i: int| spans[0].0 + i) + span_positions(
            spans.drop_first(),
        )
    }
}

/// The texts of spans that are runs and lie apart, written one behind the
/// other, stand in the buffer at the positions that the spans cover.
proof fn lemma_span_texts_embed(data: Seq<u8>, min_length: nat, from: int, spans: Seq<(int, int)>)
    requires
        0 <= from,
        are_runs(data, min_length, from, spans),
        are_apart(spans),
    ensures
        embeds_at(span_texts(data, spans).flatten(), text_of(data), span_positions(spans)),
        forall|k: int|
            0 <= k < span_positions(spans).len() ==> from <= #[trigger] span_positions(spans)[k],
    decreases spans.len(),
{
    let texts = span_texts(data, spans);
    let flat = texts.flatten();
    let at = span_positions(spans);
    if spans.len() > 0 {
        let (start, end) = spans[0];
        let rest = spans.drop_first();
        assert(is_run(data, start, end));
        assert(are_runs(data, min_length, end + 1, rest)) by {
            assert forall|k: int| 0 <= k < rest.len() implies {
                &&& end + 1 <= (#[trigger] rest[k]).0
                &&& is_run(data, rest[k].0, rest[k].1)
                &&& rest[k].1 - rest[k].0 >= min_length
            } by {
                assert(rest[k] == spans[k + 1]);
                assert(spans[0].1 < spans[k + 1].0);
            }
        }
        assert(are_apart(rest)) by {
            assert forall|j: int, k: int| 0 <= j < k < rest.len() implies (#[trigger] rest[j]).1
                < (#[trigger] rest[k]).0 by {
                assert(spans[j + 1].1 < spans[k + 1].0);
            }
        }
        lemma_span_texts_embed(data, min_length, end + 1, rest);
        assert(texts.drop_first() =~= span_texts(data, rest));
        let head = text_of(data.subrange(start, end));
        let tail = span_texts(data, rest).flatten();
        let tail_at = span_positions(rest);
        assert(texts[0] == head);
        assert(flat == head + tail);
        let head_at = Seq::new((end - start) as nat, |i: int| start + i);
        assert(at == head_at + tail_at);
        assert forall|k: int| 0 <= k < at.len() implies 0 <= #[trigger] at[k] < text_of(data).len()
            && flat[k] == text_of(data)[at[k]] && from <= at[k] by {
            if k < head.len() {
                assert(at[k] == start + k);
            } else {
                assert(at[k] == tail_at[k - head.len()]);
                assert(flat[k] == tail[k - head.len()]);
            }
        }
        assert forall|j: int, k: int| 0 <= j < k < at.len() implies #[trigger] at[j]
            < #[trigger] at[k] by {
            if k < head.len() {
                assert(at[j] == start + j);
                assert(at[k] == start + k);
            } else {
                assert(at[k] == tail_at[k - head.len()]);
                if j < head.len() {
                    assert(at[j] == start + j);
                } else {
                    assert(at[j] == tail_at[j - head.len()]);
                }
            }
        }
    } else {
        assert(flat =~= Seq::<char>::empty());
    }
}

/// Written one behind the other, the extracted texts are a subsequence of
/// the buffer read as text: what is extracted keeps the order it had in the
/// buffer, and nothing is taken twice.
pub proof fn lemma_texts_are_subsequence(data: Seq<u8>, min_length: nat)
    ensures
        embeds_at(
            extracted_texts(data, min_length).flatten(),
            text_of(data),
            span_positions(run_spans(data, min_length)),
        ),
        is_subsequence(extracted_texts(data, min_length).flatten(), text_of(data)),
{
    lemma_spans_from_sound(data, min_length, 0);
    lemma_span_texts_embed(data, min_length, 0, run_spans(data, min_length));
}

} // verus!
