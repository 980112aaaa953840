//! What holds of every conversion.

use vstd::prelude::*;
use crate::cursor::{lemma_until_len, lemma_until_len_is, marker_end, text_len, ESCAPE};
use crate::error::AnsiError;
use crate::run::{
    coalesced, flat_text, lemma_coalesced, neighbours_differ, no_empty_text, Span,
};
use crate::state::{
    default_state, escape_code, lemma_escape_code_bounded, lemma_escape_code_ignores_style,
    AnsiState,
};
use crate::{collect, converted, text_span};

verus! {

/// The input without its escape sequences: the text in front of each escape
/// marker, as long as the sequence behind the marker is sound, and the text
/// in front of the first one that is not.
pub open spec fn plain_text(rest: Seq<char>) -> Seq<char>
    decreases rest.len(),
    via plain_text_decreases
{
    let tail = rest.skip(marker_end(rest) as int);
    let escape = escape_code(default_state(), tail);
    if escape.result is Ok {
        rest.take(text_len(rest) as int) + plain_text(tail.skip(escape.consumed as int))
    } else {
        rest.take(text_len(rest) as int)
    }
}

#[via_fn]
proof fn plain_text_decreases(rest: Seq<char>) {
    lemma_until_len(rest, ESCAPE, rest.len());
    lemma_escape_code_bounded(default_state(), rest.skip(marker_end(rest) as int));
}

/// Whether `s` holds no escape marker.
pub open spec fn is_plain(s: Seq<char>) -> bool {
    forall|i: int| 0 <= i < s.len() ==> #[trigger] s[i] != ESCAPE
}

proof fn lemma_flat_text_joined(first: Seq<Span>, second: Seq<Span>)
    ensures
        flat_text(first + second) == flat_text(first) + flat_text(second),
    decreases first.len(),
{
    if first.len() == 0 {
        assert(first + second =~= second);
        assert(flat_text(first) + flat_text(second) =~= flat_text(second));
    } else {
        lemma_flat_text_joined(first.drop_first(), second);
        assert((first + second).drop_first() =~= first.drop_first() + second);
        assert(flat_text(first + second) =~= flat_text(first) + flat_text(second));
    }
}

/// The spans of a pass hold the plain text of the input, and none of them
/// is empty.
pub proof fn lemma_collect_text(state: AnsiState, rest: Seq<char>)
    ensures
        flat_text(collect(state, rest).spans) == plain_text(rest),
        no_empty_text(collect(state, rest).spans),
    decreases rest.len(),
{
    lemma_until_len(rest, ESCAPE, rest.len());
    let tail = rest.skip(marker_end(rest) as int);
    let escape = escape_code(state, tail);
    let head = text_span(state, rest);
    lemma_escape_code_bounded(state, tail);
    lemma_escape_code_ignores_style(state, default_state(), tail);
    assert(flat_text(head) =~= rest.take(text_len(rest) as int)) by {
        if text_len(rest) > 0 {
            assert(head.drop_first() =~= Seq::<Span>::empty());
            assert(flat_text(head.drop_first()) =~= Seq::<char>::empty());
        }
    }
    match escape.result {
        Ok(next) => {
            let more = collect(next, tail.skip(escape.consumed as int));
            lemma_collect_text(next, tail.skip(escape.consumed as int));
            lemma_flat_text_joined(head, more.spans);
            let all = head + more.spans;
            assert forall|i: int| 0 <= i < all.len() implies (#[trigger] all[i]).text.len()
                > 0 by {
                if i >= head.len() {
                    assert(all[i] == more.spans[i - head.len()]);
                }
            }
        },
        Err(_) => {},
    }
}

/// Of the runs of any input that converts: no two neighbours share a style,
/// none is empty, and their texts read in order are the plain text of the
/// input.
pub proof fn lemma_converted_runs(input: Seq<char>)
    requires
        converted(input) is Ok,
    ensures
        neighbours_differ(converted(input)->Ok_0),
        no_empty_text(converted(input)->Ok_0),
        flat_text(converted(input)->Ok_0) == plain_text(input),
{
    let pass = collect(default_state(), input);
    lemma_collect_text(default_state(), input);
    lemma_coalesced(pass.spans);
}

/// A pass over text without an escape marker: the whole text as one span
/// under the style it started with, or no span if there is no text.
pub proof fn lemma_collect_plain(state: AnsiState, text: Seq<char>)
    requires
        is_plain(text),
    ensures
        collect(state, text).error is None,
        collect(state, text).state == state,
        collect(state, text).consumed == text.len(),
        collect(state, text).spans == (if text.len() > 0 {
            seq![Span { style: state, text }]
        } else {
            Seq::<Span>::empty()
        }),
{
    lemma_until_len_is(text, ESCAPE, text.len(), text.len() as int);
    assert(text.take(text.len() as int) =~= text);
    assert(text.skip(text.len() as int) =~= Seq::<char>::empty());
}

/// Text without an escape marker converts to itself: one run in the default
/// style that holds all of it. Only the empty text converts to no run.
pub proof fn lemma_plain_input(input: Seq<char>)
    requires
        is_plain(input),
    ensures
        input.len() > 0 ==> converted(input) == Ok::<Seq<Span>, AnsiError>(
            seq![Span { style: default_state(), text: input }],
        ),
        input.len() == 0 ==> converted(input) == Ok::<Seq<Span>, AnsiError>(Seq::empty()),
{
    lemma_collect_plain(default_state(), input);
    if input.len() > 0 {
        let only = seq![Span { style: default_state(), text: input }];
        assert(only.drop_first() =~= Seq::<Span>::empty());
    }
}

/// Where the input ends in the middle of an escape sequence, the sequence
/// counts for nothing: if the attempt to read what stands behind the last
/// escape marker uses up the input, then the pass, sound or not, comes to
/// the spans of the text in front of the marker, without a failure.
pub proof fn lemma_truncated_tail(state: AnsiState, text: Seq<char>, tail: Seq<char>)
    requires
        is_plain(text),
        escape_code(state, tail).consumed == tail.len(),
    ensures
        collect(state, text + seq![ESCAPE] + tail).error is None,
        collect(state, text + seq![ESCAPE] + tail).spans == collect(state, text).spans,
        collect(state, text + seq![ESCAPE] + tail).consumed == text.len() + 1 + tail.len(),
{
    let input = text + seq![ESCAPE] + tail;
    assert forall|i: int| 0 <= i < text.len() implies #[trigger] input[i] != ESCAPE by {
        assert(input[i] == text[i]);
    }
    assert(input[text.len() as int] == ESCAPE);
    lemma_until_len_is(input, ESCAPE, input.len(), text.len() as int);
    assert(input.take(text.len() as int) =~= text);
    assert(input.skip(text.len() as int + 1) =~= tail);
    lemma_collect_plain(state, text);
    let escape = escape_code(state, tail);
    match escape.result {
        Ok(next) => {
            assert(tail.skip(tail.len() as int) =~= Seq::<char>::empty());
            lemma_collect_plain(next, Seq::<char>::empty());
            assert(text_span(state, input) + Seq::<Span>::empty() =~= text_span(state, input));
        },
        Err(_) => {},
    }
}

/// Text that ends in the middle of an escape sequence converts as the text
/// without that sequence does.
pub proof fn lemma_truncated_input(text: Seq<char>, tail: Seq<char>)
    requires
        is_plain(text),
        escape_code(default_state(), tail).consumed == tail.len(),
    ensures
        converted(text + seq![ESCAPE] + tail) == converted(text),
{
    lemma_truncated_tail(default_state(), text, tail);
    lemma_collect_plain(default_state(), text);
}

} // verus!
