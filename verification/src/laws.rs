//! Laws of the scanner, proved over the mathematical model that `scan_code`
//! is proved to implement.

use vstd::prelude::*;

use crate::chars::{lemma_line_at_mono, line_at};
use crate::model::{lemma_step_in_range, lex, mk_token, step, LexStep};
use crate::token::{lexeme_text, ScanErrorKind, SpecToken, TokenType};

verus! {

/// Tokens from position `i` on carry lines at least `line_at(src, i)`, in
/// non-decreasing order.
pub proof fn lemma_lex_line_bounds(src: Seq<char>, i: int, ts: Seq<SpecToken>)
    requires
        0 <= i <= src.len(),
        lex(src, i) is Ok,
        lex(src, i)->Ok_0 == ts,
    ensures
        forall|k: int| 0 <= k < ts.len() ==> line_at(src, i) <= #[trigger] ts[k].line,
        forall|a: int, b: int|
            0 <= a <= b < ts.len() ==> #[trigger] ts[a].line <= #[trigger] ts[b].line,
    decreases src.len() - i,
{
    if i < src.len() {
        lemma_step_in_range(src, i);
        match step(src, i) {
            LexStep::Skip { skip_end } => {
                assert(lex(src, i) == lex(src, skip_end));
                lemma_lex_line_bounds(src, skip_end, ts);
                lemma_line_at_mono(src, i, skip_end);
            },
            LexStep::Emit { kind, end } => {
                let t = mk_token(src, i, kind, end);
                let rest = lex(src, end)->Ok_0;
                assert(lex(src, end) is Ok && ts == seq![t] + rest);
                lemma_lex_line_bounds(src, end, rest);
                lemma_line_at_mono(src, i, end);
                assert(ts[0] == t);
                assert(forall|k: int| 1 <= k < ts.len() ==> #[trigger] ts[k] == rest[k - 1]);
            },
            LexStep::Fail { err, at } => {
                assert(false);
            },
        }
    }
}

/// Law: a successful scan returns its tokens in non-decreasing line order,
/// matching their position in the source.
pub proof fn lemma_lines_non_decreasing(src: Seq<char>, ts: Seq<SpecToken>)
    requires
        lex(src, 0) is Ok,
        lex(src, 0)->Ok_0 == ts,
    ensures
        forall|a: int, b: int|
            0 <= a <= b < ts.len() ==> #[trigger] ts[a].line <= #[trigger] ts[b].line,
{
    lemma_lex_line_bounds(src, 0, ts);
}

/// Law: every emitted token's lexeme is exactly the source text consumed for
/// it, matched back at its start offset.
pub proof fn lemma_lexeme_matches_source(src: Seq<char>, i: int, kind: TokenType, end: int)
    requires
        0 <= i,
        step(src, i) == (LexStep::Emit { kind, end }),
    ensures
        lexeme_text(mk_token(src, i, kind, end).lexeme) == src.subrange(i, end),
{
}

/// The source text as the scan reassembles it from position `i`: each
/// emitted token contributes its lexeme text, and each skipped span (the
/// elided whitespace, comments, and shebang line) contributes the characters
/// it covered.
pub open spec fn reconstruct(src: Seq<char>, i: int) -> Seq<char>
    decreases src.len() - i,
{
    if i < 0 || i >= src.len() {
        Seq::empty()
    } else {
        match step(src, i) {
            LexStep::Skip { skip_end } => if i < skip_end <= src.len() {
                src.subrange(i, skip_end) + reconstruct(src, skip_end)
            } else {
                Seq::empty()
            },
            LexStep::Emit { kind, end } => if i < end <= src.len() {
                lexeme_text(mk_token(src, i, kind, end).lexeme) + reconstruct(src, end)
            } else {
                Seq::empty()
            },
            LexStep::Fail { err, at } => Seq::empty(),
        }
    }
}

/// Law: when a scan succeeds, concatenating each token's recovered source
/// text in order, re-inserting only the elided whitespace and comments,
/// reconstructs the original source exactly.
#[verifier::rlimit(60)]
pub proof fn lemma_reconstruct_source(src: Seq<char>, i: int)
    requires
        0 <= i <= src.len(),
        lex(src, i) is Ok,
    ensures
        reconstruct(src, i) == src.subrange(i, src.len() as int),
    decreases src.len() - i,
{
    let len = src.len() as int;
    if i >= src.len() {
        assert(src.subrange(i, len) =~= Seq::<char>::empty());
    } else {
        lemma_step_in_range(src, i);
        match step(src, i) {
            LexStep::Skip { skip_end } => {
                assert(lex(src, i) == lex(src, skip_end));
                lemma_reconstruct_source(src, skip_end);
                assert(src.subrange(i, skip_end) + src.subrange(skip_end, len) =~= src.subrange(
                    i,
                    len,
                ));
            },
            LexStep::Emit { kind, end } => {
                assert(lex(src, end) is Ok);
                lemma_reconstruct_source(src, end);
                assert(src.subrange(i, end) + src.subrange(end, len) =~= src.subrange(i, len));
            },
            LexStep::Fail { err, at } => {
                assert(false);
            },
        }
    }
}

} // verus!
