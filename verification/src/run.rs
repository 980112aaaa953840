//! Runs of styled text, and the merging of neighbours that share a style.

use itertools::Itertools;
use vstd::prelude::*;
use vstd::string::*;
use crate::state::AnsiState;

verus! {

/// A stretch of text and the style it is shown in.
#[derive(Debug, PartialEq, Eq, Clone)]
pub struct Run {
    pub style: AnsiState,
    pub text: String,
}

/// What a run is: its style and the characters of its text.
pub struct Span {
    pub style: AnsiState,
    pub text: Seq<char>,
}

impl View for Run {
    type V = Span;

    open spec fn view(&self) -> Span {
        Span { style: self.style, text: self.text@ }
    }
}

/// The spans of a list of runs, in order.
pub open spec fn spans(runs: Seq<Run>) -> Seq<Span> {
    runs.map_values(|run: Run| run@)
}

/// Two neighbours of one style become one span with both texts; two of
/// different styles stay as they are.
pub open spec fn merged(left: Span, right: Span) -> Result<Span, (Span, Span)> {
    if left.style == right.style {
        Ok(Span { style: left.style, text: left.text + right.text })
    } else {
        Err((left, right))
    }
}

/// The spans that come out when `previous` is held back and `rest` is still
/// to come. Each span of `rest` is offered to the one held back: merged, the
/// two are held back together; not merged, the older one comes out and the
/// newer one is held back. The last one held back comes out at the end.
pub open spec fn coalesce_from(previous: Span, rest: Seq<Span>) -> Seq<Span>
    decreases rest.len(),
{
    if rest.len() == 0 {
        seq![previous]
    } else {
        match merged(previous, rest[0]) {
            Ok(combined) => coalesce_from(combined, rest.drop_first()),
            Err((emitted, current)) => seq![emitted] + coalesce_from(current, rest.drop_first()),
        }
    }
}

/// The spans with every group of neighbours of one style merged.
pub open spec fn coalesced(all: Seq<Span>) -> Seq<Span> {
    if all.len() == 0 {
        Seq::empty()
    } else {
        coalesce_from(all[0], all.drop_first())
    }
}

/// The texts of the spans, one after the other.
pub open spec fn flat_text(all: Seq<Span>) -> Seq<char>
    decreases all.len(),
{
    if all.len() == 0 {
        Seq::empty()
    } else {
        all[0].text + flat_text(all.drop_first())
    }
}

/// Whether any two neighbours differ in style.
pub open spec fn neighbours_differ(all: Seq<Span>) -> bool {
    forall|i: int, j: int|
        0 <= i && j == i + 1 && j < all.len() ==> (#[trigger] all[i]).style != (
        #[trigger] all[j]).style
}

/// Whether every span has some text.
pub open spec fn no_empty_text(all: Seq<Span>) -> bool {
    forall|i: int| 0 <= i < all.len() ==> (#[trigger] all[i]).text.len() > 0
}

/// Merges two runs if their styles are equal.
pub fn merge_runs(left: Run, right: Run) -> (r: Result<Run, (Run, Run)>)
    ensures
        match r {
            Ok(run) => merged(left@, right@) == Ok::<Span, (Span, Span)>(run@),
            Err(pair) => left.style != right.style && pair == (left, right),
        },
{
    if left.style == right.style {
        let mut text = left.text;
        text.append(right.text.as_str());
        Ok(Run { style: left.style, text })
    } else {
        Err((left, right))
    }
}

/// `Itertools::coalesce` walks the runs once and hands each pair of
/// neighbours to `merge_runs`: on `Ok` the combined run takes the place of
/// both, on `Err` the first of the pair is put out and the second is offered
/// to the run that follows. The run left at the end is put out too. The
/// contract says this of the spans of the runs.
#[verifier::external_body]
pub(crate) fn coalesce_runs(chain: Vec<Run>) -> (out: Vec<Run>)
    ensures
        spans(out@) == coalesced(spans(chain@)),
{
    chain.into_iter().coalesce(|left, right| merge_runs(left, right)).collect()
}

proof fn lemma_coalesce_from_head(previous: Span, rest: Seq<Span>)
    ensures
        coalesce_from(previous, rest).len() >= 1,
        coalesce_from(previous, rest)[0].style == previous.style,
    decreases rest.len(),
{
    if rest.len() > 0 {
        let tail = rest.drop_first();
        if previous.style == rest[0].style {
            lemma_coalesce_from_head(
                Span { style: previous.style, text: previous.text + rest[0].text },
                tail,
            );
        } else {
            lemma_coalesce_from_head(rest[0], tail);
        }
    }
}

proof fn lemma_coalesce_from_differ(previous: Span, rest: Seq<Span>)
    ensures
        neighbours_differ(coalesce_from(previous, rest)),
    decreases rest.len(),
{
    let out = coalesce_from(previous, rest);
    if rest.len() > 0 {
        let tail = rest.drop_first();
        if previous.style == rest[0].style {
            lemma_coalesce_from_differ(
                Span { style: previous.style, text: previous.text + rest[0].text },
                tail,
            );
        } else {
            let inner = coalesce_from(rest[0], tail);
            lemma_coalesce_from_differ(rest[0], tail);
            lemma_coalesce_from_head(rest[0], tail);
            assert(out == seq![previous] + inner);
            assert forall|i: int, j: int| 0 <= i && j == i + 1 && j < out.len() implies (
            #[trigger] out[i]).style != (#[trigger] out[j]).style by {
                if i > 0 {
                    assert(out[i] == inner[i - 1]);
                    assert(out[j] == inner[j - 1]);
                } else {
                    assert(out[0] == previous);
                    assert(out[1] == inner[0]);
                }
            }
        }
    }
}

proof fn lemma_coalesce_from_text(previous: Span, rest: Seq<Span>)
    ensures
        flat_text(coalesce_from(previous, rest)) == previous.text + flat_text(rest),
    decreases rest.len(),
{
    let out = coalesce_from(previous, rest);
    if rest.len() == 0 {
        assert(out.drop_first() =~= Seq::<Span>::empty());
        assert(flat_text(out.drop_first()) =~= Seq::<char>::empty());
        assert(flat_text(out) =~= previous.text + flat_text(rest));
    } else {
        let tail = rest.drop_first();
        if previous.style == rest[0].style {
            lemma_coalesce_from_text(
                Span { style: previous.style, text: previous.text + rest[0].text },
                tail,
            );
            assert(flat_text(out) =~= previous.text + flat_text(rest));
        } else {
            let inner = coalesce_from(rest[0], tail);
            lemma_coalesce_from_text(rest[0], tail);
            assert(out == seq![previous] + inner);
            assert(out.drop_first() =~= inner);
            assert(flat_text(out) =~= previous.text + flat_text(rest));
        }
    }
}

proof fn lemma_coalesce_from_no_empty(previous: Span, rest: Seq<Span>)
    requires
        previous.text.len() > 0,
        no_empty_text(rest),
    ensures
        no_empty_text(coalesce_from(previous, rest)),
    decreases rest.len(),
{
    let out = coalesce_from(previous, rest);
    if rest.len() > 0 {
        let tail = rest.drop_first();
        assert(rest[0].text.len() > 0);
        assert forall|i: int| 0 <= i < tail.len() implies (#[trigger] tail[i]).text.len() > 0 by {
            assert(tail[i] == rest[i + 1]);
        }
        if previous.style == rest[0].style {
            lemma_coalesce_from_no_empty(
                Span { style: previous.style, text: previous.text + rest[0].text },
                tail,
            );
        } else {
            let inner = coalesce_from(rest[0], tail);
            lemma_coalesce_from_no_empty(rest[0], tail);
            assert(out == seq![previous] + inner);
            assert forall|i: int| 0 <= i < out.len() implies (#[trigger] out[i]).text.len()
                > 0 by {
                if i > 0 {
                    assert(out[i] == inner[i - 1]);
                }
            }
        }
    }
}

/// After merging, no two neighbours share a style, the texts read in order
/// are what they were, and no span is empty if none was.
pub proof fn lemma_coalesced(all: Seq<Span>)
    ensures
        neighbours_differ(coalesced(all)),
        flat_text(coalesced(all)) == flat_text(all),
        no_empty_text(all) ==> no_empty_text(coalesced(all)),
        all.len() > 0 ==> coalesced(all).len() > 0 && coalesced(all)[0].style == all[0].style,
{
    if all.len() > 0 {
        let tail = all.drop_first();
        lemma_coalesce_from_head(all[0], tail);
        lemma_coalesce_from_differ(all[0], tail);
        lemma_coalesce_from_text(all[0], tail);
        if no_empty_text(all) {
            assert forall|i: int| 0 <= i < tail.len() implies (#[trigger] tail[i]).text.len()
                > 0 by {
                assert(tail[i] == all[i + 1]);
            }
            assert(all[0].text.len() > 0);
            lemma_coalesce_from_no_empty(all[0], tail);
        }
    }
}

} // verus!
