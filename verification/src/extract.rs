//! The extractor: one pass over a byte buffer that collects the text of its
//! printable runs.

use crate::runs::{
    extracted_texts, is_printable, is_printable_text, is_run, is_subsequence,
    lemma_nothing_printable_nothing_extracted, lemma_run_end_is, lemma_span_texts_push,
    lemma_texts_are_subsequence, lemma_texts_long_and_printable, lemma_trailing_run_is_last,
    run_spans, span_texts, spans_from, text_of,
};
use vstd::prelude::*;

verus! {

/// Scans `data` once from left to right and returns the text of each run of
/// printable bytes that is at least `min_length` long, in order of
/// appearance. A run that reaches the end of the buffer counts like any
/// other. No run is empty, so with a threshold of zero every run is returned.
///
/// The first clause says exactly what is returned. The others spell out what
/// follows from it: each string is long enough and printable; the strings,
/// written one behind the other, are a subsequence of the buffer; a buffer
/// that is empty or holds no printable byte yields nothing; and a run that
/// reaches the end of the buffer is the last string when it is long enough.
pub fn extract_printable_strings(data: &[u8], min_length: usize) -> (strings: Vec<String>)
    ensures
        strings.deep_view() == extracted_texts(data@, min_length as nat),
        forall|i: int|
            0 <= i < strings.len() ==> (#[trigger] strings[i])@.len() >= min_length
                && strings[i]@.len() >= 1 && is_printable_text(strings[i]@),
        is_subsequence(strings.deep_view().flatten(), text_of(data@)),
        data.len() == 0 ==> strings.len() == 0,
        (forall|k: int| 0 <= k < data.len() ==> !is_printable(#[trigger] data[k]))
            ==> strings.len() == 0,
        forall|start: int|
            #[trigger] is_run(data@, start, data.len() as int) && data.len() - start >= min_length
                ==> strings.len() > 0 && strings@.last()@ == text_of(data@.skip(start)),
{
    let mut strings: Vec<String> = Vec::new();
    let mut current = String::new();
    let mut length: usize = 0;
    let ghost mut spans: Seq<(int, int)> = Seq::empty();
    let mut i: usize = 0;
    while i < data.len()
        invariant
            i <= data.len(),
            length <= i,
            current@ == text_of(data@.subrange(i - length, i as int)),
            forall|k: int| i - length <= k < i ==> is_printable(#[trigger] data@[k]),
            strings.deep_view() == span_texts(data@, spans),
            spans + spans_from(data@, min_length as nat, i - length) == run_spans(
                data@,
                min_length as nat,
            ),
        decreases data.len() - i,
    {
        let byte = data[i];
        if byte >= 32 && byte <= 126 {
            current.push(byte as char);
            length = length + 1;
            assert(current@ =~= text_of(data@.subrange(i + 1 - length, i + 1)));
        } else {
            proof {
                if length > 0 {
                    lemma_run_end_is(data@, i - length, i as int);
                }
                assert(spans_from(data@, min_length as nat, i as int) == spans_from(
                    data@,
                    min_length as nat,
                    i + 1,
                ));
            }
            if length > 0 && length >= min_length {
                let ghost texts = strings.deep_view();
                strings.push(current);
                proof {
                    let rest = spans_from(data@, min_length as nat, i + 1);
                    let span = (i - length, i as int);
                    assert(spans + (seq![span] + rest) =~= spans.push(span) + rest);
                    lemma_span_texts_push(data@, spans, span.0, span.1);
                    assert(strings.deep_view() =~= texts.push(current@));
                    spans = spans.push(span);
                }
            }
            current = String::new();
            length = 0;
            assert(current@ =~= text_of(data@.subrange(i + 1, i + 1)));
        }
        i = i + 1;
    }
    proof {
        if length > 0 {
            lemma_run_end_is(data@, i - length, i as int);
        }
        assert(spans_from(data@, min_length as nat, i as int) =~= Seq::empty());
    }
    if length > 0 && length >= min_length {
        let ghost texts = strings.deep_view();
        strings.push(current);
        proof {
            let span = (i - length, i as int);
            assert(spans + seq![span] =~= spans.push(span));
            lemma_span_texts_push(data@, spans, span.0, span.1);
            assert(strings.deep_view() =~= texts.push(current@));
            spans = spans.push(span);
        }
    }
    proof {
        assert(spans + Seq::<(int, int)>::empty() =~= spans);
        lemma_texts_long_and_printable(data@, min_length as nat);
        lemma_texts_are_subsequence(data@, min_length as nat);
        if forall|k: int| 0 <= k < data.len() ==> !is_printable(#[trigger] data[k]) {
            lemma_nothing_printable_nothing_extracted(data@, min_length as nat);
        }
        assert forall|start: int|
            #[trigger] is_run(data@, start, data.len() as int) && data.len() - start
                >= min_length implies strings.len() > 0 && strings@.last()@ == text_of(
            data@.skip(start),
        ) by {
            lemma_trailing_run_is_last(data@, min_length as nat, start);
        }
        assert forall|i: int| 0 <= i < strings.len() implies (#[trigger] strings[i])@.len()
            >= min_length && strings[i]@.len() >= 1 && is_printable_text(strings[i]@) by {
            assert(strings[i]@ == strings.deep_view()[i]);
        }
    }
    strings
}

/// Extraction depends on the buffer and the threshold and on nothing else:
/// whatever two calls with the same buffer and the same threshold return,
/// they return the same strings in the same order.
pub proof fn lemma_extraction_is_repeatable(
    data: Seq<u8>,
    min_length: nat,
    first: Vec<String>,
    second: Vec<String>,
)
    requires
        first.deep_view() == extracted_texts(data, min_length),
        second.deep_view() == extracted_texts(data, min_length),
    ensures
        first.deep_view() == second.deep_view(),
        first.len() == second.len(),
        forall|i: int| 0 <= i < first.len() ==> (#[trigger] first[i])@ == second[i]@,
{
    assert(first.deep_view().len() == second.deep_view().len());
    assert forall|i: int| 0 <= i < first.len() implies (#[trigger] first[i])@ == second[i]@ by {
        assert(first.deep_view()[i] == second.deep_view()[i]);
    }
}

} // verus!
