//! Turns text that carries ANSI SGR escape sequences into styled runs.
//!
//! The input is a sequence of characters. Every `ESC [ <code>` sequence in it
//! changes one attribute of a running [`state::AnsiState`]; the text between
//! two sequences becomes a [`run::Run`] under the style in force, and
//! neighbouring runs of one style are merged.
//!
//! One escape marker carries one numeric code. A sequence such as
//! `ESC [ 1 ; 32 m` is read as code `1`, and what follows the `;` is text.

pub mod color;
pub mod cursor;
pub mod error;
pub mod guarantees;
pub mod run;
pub mod state;
pub mod sub_parsers;

use vstd::prelude::*;
use crate::cursor::{lemma_until_len, marker_end, text_len, Cursor, ESCAPE};
use crate::error::AnsiError;
use crate::run::{coalesce_runs, coalesced, spans, Run, Span};
use crate::state::{default_state, escape_code, lemma_escape_code_bounded, AnsiState};

verus! {

/// What one pass over the input came to.
pub struct Pass {
    /// The stretches of text met, each under the style in force, unmerged.
    pub spans: Seq<Span>,
    /// The style in force where the pass ended.
    pub state: AnsiState,
    /// The failure that stopped the pass, if one did.
    pub error: Option<AnsiError>,
    /// How many characters the pass used up.
    pub consumed: nat,
}

/// The plain text at the front of `rest` as a span, if there is any.
pub open spec fn text_span(state: AnsiState, rest: Seq<char>) -> Seq<Span> {
    if text_len(rest) > 0 {
        seq![Span { style: state, text: rest.take(text_len(rest) as int) }]
    } else {
        Seq::empty()
    }
}

/// A pass over `rest` that starts under the style `state`.
///
/// The text up to the next escape marker is a span under `state`, unless it
/// is empty. Then one escape sequence is read. If it is sound, the pass goes
/// on behind it under the style it gives. If it is not, the pass ends there:
/// with the failure if input is left behind the attempt, and without one if
/// the attempt used up the input.
pub open spec fn collect(state: AnsiState, rest: Seq<char>) -> Pass
    decreases rest.len(),
    via collect_decreases
{
    let tail = rest.skip(marker_end(rest) as int);
    let escape = escape_code(state, tail);
    match escape.result {
        Ok(next) => {
            let more = collect(next, tail.skip(escape.consumed as int));
            Pass {
                spans: text_span(state, rest) + more.spans,
                state: more.state,
                error: more.error,
                consumed: marker_end(rest) + escape.consumed + more.consumed,
            }
        },
        Err(e) => Pass {
            spans: text_span(state, rest),
            state,
            error: if escape.consumed < tail.len() {
                Some(e)
            } else {
                None
            },
            consumed: marker_end(rest) + escape.consumed,
        },
    }
}

#[via_fn]
proof fn collect_decreases(state: AnsiState, rest: Seq<char>) {
    lemma_until_len(rest, ESCAPE, rest.len());
    lemma_escape_code_bounded(state, rest.skip(marker_end(rest) as int));
}

/// The runs that the input stands for, or the failure that stopped the pass.
pub open spec fn converted(input: Seq<char>) -> Result<Seq<Span>, AnsiError> {
    let pass = collect(default_state(), input);
    match pass.error {
        Some(e) => Err(e),
        None => Ok(coalesced(pass.spans)),
    }
}

/// A pass never uses more than there is, and one that does not fail uses
/// all of it.
pub proof fn lemma_collect_consumed(state: AnsiState, rest: Seq<char>)
    ensures
        collect(state, rest).consumed <= rest.len(),
        collect(state, rest).error is None ==> collect(state, rest).consumed == rest.len(),
    decreases rest.len(),
{
    lemma_until_len(rest, ESCAPE, rest.len());
    let tail = rest.skip(marker_end(rest) as int);
    let escape = escape_code(state, tail);
    lemma_escape_code_bounded(state, tail);
    match escape.result {
        Ok(next) => {
            lemma_collect_consumed(next, tail.skip(escape.consumed as int));
        },
        Err(_) => {},
    }
}

/// Holds the style in force and the runs of the last successful pass.
pub struct Parser {
    ansi_chain: Vec<Run>,
    current: AnsiState,
}

impl Default for Parser {
    fn default() -> (parser: Self)
        ensures
            parser.chain() == Seq::<Span>::empty(),
            parser.style() == default_state(),
    {
        let parser = Parser { ansi_chain: Vec::new(), current: AnsiState::default() };
        assert(spans(parser.ansi_chain@) =~= Seq::<Span>::empty());
        parser
    }
}

impl Parser {
    /// The runs of the last successful pass.
    pub closed spec fn chain(&self) -> Seq<Span> {
        spans(self.ansi_chain@)
    }

    /// The style in force.
    pub closed spec fn style(&self) -> AnsiState {
        self.current
    }

    /// The runs of the last successful pass.
    pub fn runs(&self) -> (runs: &Vec<Run>)
        ensures
            spans(runs@) == self.chain(),
    {
        &self.ansi_chain
    }

    /// The runs of the last successful pass, handed over.
    pub fn into_runs(self) -> (runs: Vec<Run>)
        ensures
            spans(runs@) == self.chain(),
    {
        self.ansi_chain
    }

    /// The style in force.
    pub fn current(&self) -> (state: AnsiState)
        ensures
            state == self.style(),
    {
        self.current
    }

    /// Makes one pass over the characters, from the style in force.
    ///
    /// On success the merged runs of the pass replace those held, and the
    /// input is used up. On failure the runs held stay, and the cursor stands
    /// behind the attempt that failed. Either way the style in force is the
    /// one where the pass ended.
    pub fn parse_ansi_text(&mut self, characters: &mut Cursor) -> (r: Result<(), AnsiError>)
        ensures
            r == (match collect(old(self).style(), old(characters)@).error {
                Some(e) => Err::<(), AnsiError>(e),
                None => Ok(()),
            }),
            final(self).style() == collect(old(self).style(), old(characters)@).state,
            final(characters)@ == old(characters)@.skip(
                collect(old(self).style(), old(characters)@).consumed as int,
            ),
            r is Ok ==> final(self).chain() == coalesced(
                collect(old(self).style(), old(characters)@).spans,
            ),
            r is Ok ==> final(characters)@.len() == 0,
            r is Err ==> final(self).chain() == old(self).chain(),
    {
        let ghost input = characters@;
        proof {
            lemma_collect_consumed(self.current, input);
        }
        let ghost whole = collect(self.current, input);
        let mut state = self.current;
        let mut chain: Vec<Run> = Vec::new();
        let mut failure: Option<AnsiError> = None;
        let ghost mut done: nat = 0;
        assert(spans(chain@) =~= Seq::<Span>::empty());
        assert(input.skip(0) =~= input);
        assert(spans(chain@) + whole.spans =~= whole.spans);
        loop
            invariant_except_break
                failure.is_none(),
                done <= input.len(),
                characters@ == input.skip(done as int),
                whole.spans == spans(chain@) + collect(state, characters@).spans,
                whole.state == collect(state, characters@).state,
                whole.error == collect(state, characters@).error,
                whole.consumed == done + collect(state, characters@).consumed,
            ensures
                whole.spans == spans(chain@),
                whole.state == state,
                whole.error == failure,
                characters@ == input.skip(whole.consumed as int),
            decreases characters@.len(),
        {
            let ghost rest = characters@;
            let ghost before = state;
            let ghost held = spans(chain@);
            proof {
                lemma_until_len(rest, ESCAPE, rest.len());
            }
            let text = characters.take_text();
            if !text.as_str().is_empty() {
                chain.push(Run { style: state, text });
                assert(spans(chain@) =~= held + text_span(before, rest));
            } else {
                assert(spans(chain@) =~= held + text_span(before, rest));
            }
            let ghost tail = characters@;
            proof {
                lemma_escape_code_bounded(before, tail);
                assert(tail == rest.skip(marker_end(rest) as int));
            }
            let ghost escape = escape_code(before, tail);
            match state.parse_ansi_code(characters) {
                Ok(()) => {
                    proof {
                        let more = collect(state, characters@);
                        assert(whole.spans =~= spans(chain@) + more.spans);
                        done = done + marker_end(rest) + escape.consumed;
                        assert(characters@ =~= input.skip(done as int));
                    }
                },
                Err(e) => {
                    if !characters.is_empty() {
                        failure = Some(e);
                    }
                    proof {
                        assert(whole.spans =~= spans(chain@));
                        assert(characters@ =~= input.skip(whole.consumed as int));
                    }
                    break ;
                },
            }
        }
        self.current = state;
        match failure {
            Some(e) => Err(e),
            None => {
                self.ansi_chain = coalesce_runs(chain);
                Ok(())
            },
        }
    }
}

/// Turns the characters into runs: the text between the escape sequences,
/// each stretch under the style that the sequences before it add up to, with
/// neighbours of one style merged.
pub fn convert(characters: &[char]) -> (r: Result<Vec<Run>, AnsiError>)
    ensures
        match r {
            Ok(runs) => converted(characters@) == Ok::<Seq<Span>, AnsiError>(spans(runs@)),
            Err(e) => converted(characters@) == Err::<Seq<Span>, AnsiError>(e),
        },
{
    let mut parser = Parser::default();
    let mut cursor = Cursor::new(characters);
    match parser.parse_ansi_text(&mut cursor) {
        Ok(()) => Ok(parser.into_runs()),
        Err(e) => Err(e),
    }
}

} // verus!
