//! The rows of the detail pane: highlighted code with tints and marks.
use crate::app_state::{
    occurrence_label, AppState, OccurrenceView, Span,
};
use crate::detail::{
    extract_with_context, larger, smaller, window, ContextualSlice, LineKind, LineModel,
};
use crate::detail_rows::diff::{
    diff, flags_of, line_for_pane, pane_line, range_ends, DiffFlags,
};
use crate::detail_rows::{
    compute_cache_key, key_feed, row_models, segment_models, DetailRow, DetailRowsCache, DetailRowsCacheKey,
    LineSegment, RowModel, SegmentModel,
};
use crate::highlight::{highlight, highlight_runs, runs_cover, theme_color, HighlightedRun};
use crate::text::{dec, push_dec, text_between, text_in};
use crate::tint::{tint, tint_for_placeholder};
use std::collections::hash_map::DefaultHasher;
use std::ops::Range;
use std::rc::Rc;
use vstd::prelude::*;
use vstd::std_specs::hash::DefaultHasherAdditionalSpecFns;
use vstd::string::*;
use vstd::utf8::*;

verus! {

/// A part of a run of highlighted text: bytes, and a tint where they belong to
/// a renamed local.
#[derive(Debug, PartialEq, Eq)]
pub struct RunPiece {
    pub range: Range<usize>,
    pub tint: Option<u32>,
}

/// What a [`RunPiece`] stands for.
pub struct PieceModel {
    pub start: int,
    pub end: int,
    pub tint: Option<u32>,
}

impl View for RunPiece {
    type V = PieceModel;

    open spec fn view(&self) -> PieceModel {
        PieceModel {
            start: self.range.start as int,
            end: self.range.end as int,
            tint: self.tint,
        }
    }
}

impl Clone for RunPiece {
    fn clone(&self) -> (r: Self)
        ensures
            r@ == self@,
    {
        RunPiece { range: self.range.start..self.range.end, tint: self.tint }
    }
}

/// What a list of pieces stands for.
pub open spec fn piece_models(list: Seq<RunPiece>) -> Seq<PieceModel> {
    Seq::new(list.len(), |i: int| list[i]@)
}

/// Spans are sorted by their first bytes.
pub open spec fn spans_sorted(spans: Seq<Span>) -> bool {
    forall|i: int, j: int| 0 <= i <= j < spans.len() ==> spans[i].0 <= spans[j].0
}

/// The bytes `start..end` without a tint, if there are any.
pub open spec fn plain_piece(start: int, end: int) -> Seq<PieceModel> {
    if start < end {
        seq![PieceModel { start, end, tint: None }]
    } else {
        Seq::empty()
    }
}

/// The pieces that the first `n` spans make of the run `start..end`, and how
/// far they reach. A span takes what earlier spans have left of it.
pub open spec fn pieces_upto(start: int, end: int, spans: Seq<Span>, n: int) -> (
    Seq<PieceModel>,
    int,
)
    decreases n,
{
    if n <= 0 {
        (Seq::empty(), start)
    } else {
        let (before, cursor) = pieces_upto(start, end, spans, n - 1);
        let span = spans[n - 1];
        let low = larger(span.0 as int, cursor);
        let high = smaller(span.1 as int, end);
        if low < high {
            (
                before + plain_piece(cursor, low) + seq![
                    PieceModel { start: low, end: high, tint: Some(tint(span.2 as int)) },
                ],
                high,
            )
        } else {
            (before, cursor)
        }
    }
}

/// The pieces that spans make of the run `start..end`.
pub open spec fn tint_pieces(start: int, end: int, spans: Seq<Span>) -> Seq<PieceModel> {
    if start >= end {
        Seq::empty()
    } else {
        let (before, cursor) = pieces_upto(start, end, spans, spans.len() as int);
        before + plain_piece(cursor, end)
    }
}

/// Splits the run `run` at the spans of renamed locals, which are sorted by
/// their first bytes. Where spans overlap, the first one holds.
pub fn split_by_tints(run: Range<usize>, spans: &Vec<Span>) -> (r: Vec<RunPiece>)
    requires
        spans_sorted(spans@),
    ensures
        piece_models(r@) == tint_pieces(run.start as int, run.end as int, spans@),
{
    let mut out: Vec<RunPiece> = Vec::new();
    let start: usize = run.start;
    let end: usize = run.end;
    if start >= end {
        assert(piece_models(out@) =~= Seq::empty());
        return out;
    }
    let mut cursor: usize = start;
    let mut i: usize = 0;
    assert(piece_models(out@) =~= Seq::empty());
    while i < spans.len()
        invariant
            i <= spans.len(),
            start <= cursor <= end,
            piece_models(out@) == pieces_upto(start as int, end as int, spans@, i as int).0,
            cursor == pieces_upto(start as int, end as int, spans@, i as int).1,
        decreases spans.len() - i,
    {
        let span: Span = spans[i];
        let low: usize = if span.0 >= cursor {
            span.0
        } else {
            cursor
        };
        let high: usize = if span.1 <= end {
            span.1
        } else {
            end
        };
        if low < high {
            let ghost before = piece_models(out@);
            if cursor < low {
                out.push(RunPiece { range: cursor..low, tint: None });
                assert(piece_models(out@) =~= before + plain_piece(cursor as int, low as int));
            } else {
                assert(piece_models(out@) =~= before + plain_piece(cursor as int, low as int));
            }
            let ghost middle = piece_models(out@);
            let color: u32 = tint_for_placeholder(span.2);
            out.push(RunPiece { range: low..high, tint: Some(color) });
            assert(piece_models(out@) =~= middle + seq![
                PieceModel { start: low as int, end: high as int, tint: Some(color) },
            ]);
            cursor = high;
        }
        i += 1;
    }
    let ghost before = piece_models(out@);
    if cursor < end {
        out.push(RunPiece { range: cursor..end, tint: None });
    }
    assert(piece_models(out@) =~= before + plain_piece(cursor as int, end as int));
    out
}

/// Pieces follow each other without gaps from `start` to `end`, and none is
/// empty.
pub open spec fn pieces_cover(pieces: Seq<PieceModel>, start: int, end: int) -> bool {
    &&& forall|i: int| 0 <= i < pieces.len() ==> (#[trigger] pieces[i]).start < pieces[i].end
    &&& forall|i: int|
        0 < i < pieces.len() ==> (#[trigger] pieces[i]).start == pieces[i - 1].end
    &&& if pieces.len() == 0 {
        start == end
    } else {
        pieces[0].start == start && pieces.last().end == end
    }
}

/// Pieces that follow each other, with one more.
proof fn lemma_cover_push(pieces: Seq<PieceModel>, start: int, mid: int, p: PieceModel)
    requires
        pieces_cover(pieces, start, mid),
        p.start == mid,
        p.start < p.end,
    ensures
        pieces_cover(pieces.push(p), start, p.end),
{
    let all = pieces.push(p);
    assert forall|i: int| 0 <= i < all.len() implies (#[trigger] all[i]).start < all[i].end by {
        if i < pieces.len() {
            assert(all[i] == pieces[i]);
        }
    }
    assert forall|i: int| 0 < i < all.len() implies (#[trigger] all[i]).start == all[i - 1].end by {
        if i < pieces.len() {
            assert(all[i] == pieces[i]);
        } else {
            assert(all[i - 1] == pieces.last());
        }
    }
}

/// The pieces of the first spans follow each other.
proof fn lemma_pieces_cover(start: int, end: int, spans: Seq<Span>, n: int)
    requires
        start < end,
        0 <= n <= spans.len(),
    ensures
        start <= pieces_upto(start, end, spans, n).1 <= end,
        pieces_cover(
            pieces_upto(start, end, spans, n).0,
            start,
            pieces_upto(start, end, spans, n).1,
        ),
    decreases n,
{
    if n > 0 {
        lemma_pieces_cover(start, end, spans, n - 1);
        let (before, cursor) = pieces_upto(start, end, spans, n - 1);
        let span = spans[n - 1];
        let low = larger(span.0 as int, cursor);
        let high = smaller(span.1 as int, end);
        if low < high {
            let painted = PieceModel { start: low, end: high, tint: Some(tint(span.2 as int)) };
            let gap = PieceModel { start: cursor, end: low, tint: None };
            let middle = before + plain_piece(cursor, low);
            if cursor < low {
                lemma_cover_push(before, start, cursor, gap);
                assert(middle =~= before.push(gap));
            } else {
                assert(middle =~= before);
            }
            lemma_cover_push(middle, start, low, painted);
            assert(middle + seq![painted] =~= middle.push(painted));
        }
    }
}

/// The pieces of a run follow each other without gaps and cover it exactly once.
pub proof fn law_pieces_cover_run(start: int, end: int, spans: Seq<Span>)
    requires
        start <= end,
    ensures
        pieces_cover(tint_pieces(start, end, spans), start, end),
{
    if start < end {
        let n = spans.len() as int;
        lemma_pieces_cover(start, end, spans, n);
        let (before, cursor) = pieces_upto(start, end, spans, n);
        if cursor < end {
            let gap = PieceModel { start: cursor, end, tint: None };
            lemma_cover_push(before, start, cursor, gap);
            assert(before + plain_piece(cursor, end) =~= before.push(gap));
        } else {
            assert(before + plain_piece(cursor, end) =~= before);
        }
    }
}

/// The tint that a byte gets: that of the first of the first `n` spans that
/// holds it.
pub open spec fn tint_at(spans: Seq<Span>, n: int, byte: int) -> Option<u32>
    decreases n,
{
    if n <= 0 {
        None
    } else {
        match tint_at(spans, n - 1, byte) {
            Some(t) => Some(t),
            None => {
                let span = spans[n - 1];
                if span.0 <= byte < span.1 {
                    Some(tint(span.2 as int))
                } else {
                    None
                }
            },
        }
    }
}

/// A span that begins behind a byte, and all spans behind that one, do not
/// reach it.
proof fn lemma_tint_stays(spans: Seq<Span>, n: int, m: int, byte: int)
    requires
        spans_sorted(spans),
        0 <= n <= m <= spans.len(),
        n < spans.len() ==> byte < spans[n].0,
    ensures
        tint_at(spans, m, byte) == tint_at(spans, n, byte),
    decreases m - n,
{
    if n < m {
        lemma_tint_stays(spans, n, m - 1, byte);
        assert(spans[n].0 <= spans[m - 1].0);
    }
}

/// The pieces of the first spans have the tints of their bytes, and behind them
/// no byte of the run has a tint yet.
proof fn lemma_pieces_paint(start: int, end: int, spans: Seq<Span>, n: int)
    requires
        start < end,
        spans_sorted(spans),
        0 <= n <= spans.len(),
    ensures
        ({
            let (pieces, cursor) = pieces_upto(start, end, spans, n);
            &&& forall|i: int, byte: int|
                0 <= i < pieces.len() && (#[trigger] pieces[i]).start <= byte < pieces[i].end
                    ==> #[trigger] tint_at(spans, spans.len() as int, byte) == pieces[i].tint
            &&& forall|byte: int|
                cursor <= byte < end ==> #[trigger] tint_at(spans, n, byte) is None
        }),
    decreases n,
{
    if n > 0 {
        lemma_pieces_paint(start, end, spans, n - 1);
        lemma_pieces_cover(start, end, spans, n - 1);
        let (before, cursor) = pieces_upto(start, end, spans, n - 1);
        let (pieces, after) = pieces_upto(start, end, spans, n);
        let total = spans.len() as int;
        let span = spans[n - 1];
        let low = larger(span.0 as int, cursor);
        let high = smaller(span.1 as int, end);
        assert forall|i: int, byte: int|
            0 <= i < pieces.len() && (#[trigger] pieces[i]).start <= byte
                < pieces[i].end implies #[trigger] tint_at(spans, total, byte)
            == pieces[i].tint by {
            if i < before.len() {
                assert(pieces[i] == before[i]);
            } else if low <= byte < high {
                assert(tint_at(spans, n - 1, byte) is None);
                lemma_tint_kept(spans, n, total, byte);
            } else {
                assert(cursor <= byte < low);
                assert(tint_at(spans, n - 1, byte) is None);
                lemma_tint_stays(spans, n - 1, total, byte);
            }
        }
        assert forall|byte: int| after <= byte < end implies #[trigger] tint_at(
            spans,
            n,
            byte,
        ) is None by {
            assert(tint_at(spans, n - 1, byte) is None);
        }
    }
}

/// A byte keeps the first tint that it gets.
proof fn lemma_tint_kept(spans: Seq<Span>, n: int, m: int, byte: int)
    requires
        0 <= n <= m,
        tint_at(spans, n, byte) is Some,
    ensures
        tint_at(spans, m, byte) == tint_at(spans, n, byte),
    decreases m - n,
{
    if n < m {
        lemma_tint_kept(spans, n, m - 1, byte);
    }
}

/// Every piece of a run has the tint of its bytes: that of the first span that
/// holds them, or none.
pub proof fn law_pieces_have_tints(start: int, end: int, spans: Seq<Span>, i: int, byte: int)
    requires
        spans_sorted(spans),
        0 <= i < tint_pieces(start, end, spans).len(),
        tint_pieces(start, end, spans)[i].start <= byte < tint_pieces(start, end, spans)[i].end,
    ensures
        tint_pieces(start, end, spans)[i].tint == tint_at(spans, spans.len() as int, byte),
{
    let n = spans.len() as int;
    lemma_pieces_paint(start, end, spans, n);
    let (before, cursor) = pieces_upto(start, end, spans, n);
    if i < before.len() {
        assert(tint_pieces(start, end, spans)[i] == before[i]);
    } else {
        assert(tint_at(spans, n, byte) is None);
    }
}

/// Where a span goes in sorted spans: behind those that begin no later.
pub open spec fn span_put(spans: Seq<Span>, span: Span) -> Seq<Span>
    decreases spans.len(),
{
    if spans.len() == 0 || spans.last().0 <= span.0 {
        spans.push(span)
    } else {
        span_put(spans.drop_last(), span).push(spans.last())
    }
}

/// The first `n` spans, sorted by their first bytes.
pub open spec fn spans_in_order(spans: Seq<Span>, n: int) -> Seq<Span>
    decreases n,
{
    if n <= 0 {
        Seq::empty()
    } else {
        span_put(spans_in_order(spans, n - 1), spans[n - 1])
    }
}

/// A span put in its place leaves spans sorted, and adds just that span.
proof fn lemma_span_put(spans: Seq<Span>, span: Span)
    requires
        spans_sorted(spans),
    ensures
        spans_sorted(span_put(spans, span)),
        span_put(spans, span).to_multiset() == spans.to_multiset().insert(span),
        span_put(spans, span).len() == spans.len() + 1,
        span_put(spans, span).last().0 == if spans.len() > 0 && spans.last().0 > span.0 {
            spans.last().0
        } else {
            span.0
        },
    decreases spans.len(),
{
    broadcast use vstd::seq_lib::group_to_multiset_ensures;

    if spans.len() > 0 && spans.last().0 > span.0 {
        let before = spans.drop_last();
        lemma_span_put(before, span);
        assert(spans =~= before.push(spans.last()));
        let put = span_put(before, span);
        assert forall|i: int| 0 <= i < put.len() implies put[i].0 <= spans.last().0 by {
            assert(put[i].0 <= put.last().0);
        }
        assert(span_put(spans, span).to_multiset() =~= spans.to_multiset().insert(span));
    }
}

/// Sorting spans leaves them the same, in order.
pub proof fn law_spans_in_order(spans: Seq<Span>, n: int)
    requires
        0 <= n <= spans.len(),
    ensures
        spans_sorted(spans_in_order(spans, n)),
        spans_in_order(spans, n).to_multiset() == spans.take(n).to_multiset(),
    decreases n,
{
    broadcast use vstd::seq_lib::group_to_multiset_ensures;

    if n > 0 {
        law_spans_in_order(spans, n - 1);
        lemma_span_put(spans_in_order(spans, n - 1), spans[n - 1]);
        assert(spans.take(n) =~= spans.take(n - 1).push(spans[n - 1]));
    } else {
        assert(spans.take(0) =~= Seq::empty());
    }
}

/// How far back a span has to go in sorted spans.
proof fn lemma_span_place(spans: Seq<Span>, span: Span, n: int)
    requires
        0 <= n <= spans.len(),
        n > 0 ==> spans[n - 1].0 <= span.0,
        forall|k: int| n <= k < spans.len() ==> (#[trigger] spans[k]).0 > span.0,
    ensures
        span_put(spans, span) == spans.insert(n, span),
    decreases spans.len(),
{
    if n == spans.len() {
        assert(spans.insert(n, span) =~= spans.push(span));
    } else {
        lemma_span_place(spans.drop_last(), span, n);
        assert(spans.insert(n, span) =~= spans.drop_last().insert(n, span).push(spans.last()));
    }
}

/// The spans sorted by their first bytes. Spans that begin at the same byte keep
/// their order.
pub fn sort_spans(spans: &Vec<Span>) -> (r: Vec<Span>)
    ensures
        r@ == spans_in_order(spans@, spans@.len() as int),
        spans_sorted(r@),
{
    let mut out: Vec<Span> = Vec::new();
    let mut i: usize = 0;
    while i < spans.len()
        invariant
            i <= spans.len(),
            out@ == spans_in_order(spans@, i as int),
        decreases spans.len() - i,
    {
        let span: Span = spans[i];
        let mut n: usize = out.len();
        while n > 0 && out[n - 1].0 > span.0
            invariant
                n <= out.len(),
                forall|k: int| n <= k < out@.len() ==> (#[trigger] out@[k]).0 > span.0,
            decreases n,
        {
            n -= 1;
        }
        proof {
            lemma_span_place(out@, span, n as int);
        }
        out.insert(n, span);
        i += 1;
    }
    proof {
        law_spans_in_order(spans@, spans@.len() as int);
    }
    out
}

/// The bytes `start..end` overlap one of the ranges.
pub open spec fn overlaps(ranges: Seq<(int, int)>, start: int, end: int) -> bool {
    exists|i: int| 0 <= i < ranges.len() && (#[trigger] ranges[i]).0 < end && ranges[i].1 > start
}

/// The segments for the pieces from `i` on, if no piece cuts a character.
pub open spec fn piece_segments(
    bytes: Seq<u8>,
    pieces: Seq<PieceModel>,
    i: int,
    fg_color: u32,
    is_diff: bool,
) -> Option<Seq<SegmentModel>>
    decreases pieces.len() - i,
{
    if i < 0 || i >= pieces.len() {
        Some(Seq::empty())
    } else {
        let p = pieces[i];
        match (
            text_in(bytes, p.start, p.end),
            piece_segments(bytes, pieces, i + 1, fg_color, is_diff),
        ) {
            (Some(text), Some(rest)) => Some(
                seq![SegmentModel { text, fg_color, bg_color: p.tint, is_diff }] + rest,
            ),
            _ => None,
        }
    }
}

/// The segments that the runs from `i` on make of the line `start..end`, if no
/// piece cuts a character. Runs before the line are passed over, and the first
/// run behind it ends it.
pub open spec fn run_segments(
    bytes: Seq<u8>,
    runs: Seq<HighlightedRun>,
    i: int,
    spans: Seq<Span>,
    is_diff: bool,
    start: int,
    end: int,
) -> Option<Seq<SegmentModel>>
    decreases runs.len() - i,
{
    if i < 0 || i >= runs.len() {
        Some(Seq::empty())
    } else if runs[i].end <= start {
        run_segments(bytes, runs, i + 1, spans, is_diff, start, end)
    } else if runs[i].start >= end {
        Some(Seq::empty())
    } else {
        match (
            one_run_segments(bytes, runs[i], spans, is_diff, start, end),
            run_segments(bytes, runs, i + 1, spans, is_diff, start, end),
        ) {
            (Some(here), Some(rest)) => Some(here + rest),
            _ => None,
        }
    }
}

/// The segments of the line `start..end`, if no piece cuts a character. An
/// empty line has none.
pub open spec fn line_segments(
    bytes: Seq<u8>,
    runs: Seq<HighlightedRun>,
    spans: Seq<Span>,
    flags: Seq<(int, int)>,
    start: int,
    end: int,
) -> Option<Seq<SegmentModel>> {
    if start >= end {
        Some(Seq::empty())
    } else {
        run_segments(bytes, runs, 0, spans, overlaps(flags, start, end), start, end)
    }
}

/// Whether the bytes `start..end` overlap one of the ranges.
fn line_flagged(ranges: &Vec<Range<usize>>, start: usize, end: usize) -> (r: bool)
    ensures
        r == overlaps(range_ends(ranges@), start as int, end as int),
{
    let mut i: usize = 0;
    while i < ranges.len()
        invariant
            i <= ranges.len(),
            forall|k: int|
                0 <= k < i ==> !(range_ends(ranges@)[k].0 < end && range_ends(ranges@)[k].1
                    > start),
        decreases ranges.len() - i,
    {
        assert(range_ends(ranges@)[i as int] == (
            ranges@[i as int].start as int,
            ranges@[i as int].end as int,
        ));
        if ranges[i].start < end && ranges[i].end > start {
            return true;
        }
        i += 1;
    }
    assert forall|k: int| 0 <= k < range_ends(ranges@).len() implies !((
    #[trigger] range_ends(ranges@)[k]).0 < end && range_ends(ranges@)[k].1 > start) by {}
    false
}

/// Adds the segments for pieces, if no piece cuts a character.
fn add_pieces(
    out: &mut Vec<LineSegment>,
    source: &str,
    pieces: &Vec<RunPiece>,
    fg_color: u32,
    is_diff: bool,
) -> (r: bool)
    ensures
        match piece_segments(encode_utf8(source@), piece_models(pieces@), 0, fg_color, is_diff) {
            Some(list) => r && segment_models(final(out)@) == segment_models(old(out)@) + list,
            None => !r,
        },
{
    let bytes: &[u8] = source.as_bytes();
    let ghost all = piece_models(pieces@);
    let ghost total = piece_segments(bytes@, all, 0, fg_color, is_diff);
    let ghost before = segment_models(out@);
    let ghost mut done: Seq<SegmentModel> = Seq::empty();
    let mut i: usize = 0;
    assert(segment_models(out@) =~= before + done);
    while i < pieces.len()
        invariant
            i <= pieces.len(),
            bytes@ == encode_utf8(source@),
            all == piece_models(pieces@),
            segment_models(out@) == before + done,
            total == match piece_segments(bytes@, all, i as int, fg_color, is_diff) {
                Some(rest) => Some(done + rest),
                None => None,
            },
            total == piece_segments(encode_utf8(source@), all, 0, fg_color, is_diff),
        decreases pieces.len() - i,
    {
        let p: &RunPiece = &pieces[i];
        assert(all[i as int] == p@);
        match text_between(bytes, p.range.start, p.range.end) {
            Some(text) => {
                let segment: LineSegment = LineSegment {
                    text: text.to_owned(),
                    fg_color,
                    bg_color: p.tint,
                    is_diff,
                };
                let ghost now = segment_models(out@);
                out.push(segment);
                proof {
                    assert(segment_models(out@) =~= now.push(segment@));
                    let rest = piece_segments(bytes@, all, i + 1, fg_color, is_diff);
                    if rest is Some {
                        assert(done + (seq![segment@] + rest->0) =~= done.push(segment@) + rest->0);
                    }
                    done = done.push(segment@);
                    assert(segment_models(out@) =~= before + done);
                }
            },
            None => {
                return false;
            },
        }
        i += 1;
    }
    proof {
        assert(done + Seq::<SegmentModel>::empty() =~= done);
    }
    true
}

/// The segments that a run makes of the line `start..end`, if no piece cuts a
/// character.
pub open spec fn one_run_segments(
    bytes: Seq<u8>,
    run: HighlightedRun,
    spans: Seq<Span>,
    is_diff: bool,
    start: int,
    end: int,
) -> Option<Seq<SegmentModel>> {
    piece_segments(
        bytes,
        tint_pieces(larger(run.start as int, start), smaller(run.end as int, end), spans),
        0,
        run.kind.rgb(),
        is_diff,
    )
}

/// Adds the segments that a run makes of the line `start..end`, if no piece cuts
/// a character.
fn add_run(
    out: &mut Vec<LineSegment>,
    source: &str,
    run: HighlightedRun,
    spans: &Vec<Span>,
    is_diff: bool,
    start: usize,
    end: usize,
) -> (r: bool)
    requires
        spans_sorted(spans@),
    ensures
        match one_run_segments(
            encode_utf8(source@),
            run,
            spans@,
            is_diff,
            start as int,
            end as int,
        ) {
            Some(list) => r && segment_models(final(out)@) == segment_models(old(out)@) + list,
            None => !r,
        },
{
    let low: usize = if run.start >= start {
        run.start
    } else {
        start
    };
    let high: usize = if run.end <= end {
        run.end
    } else {
        end
    };
    let pieces: Vec<RunPiece> = split_by_tints(low..high, spans);
    add_pieces(out, source, &pieces, theme_color(run.kind), is_diff)
}

/// Adds the segments that runs make of the line `start..end`, if no piece cuts a
/// character.
fn add_runs(
    out: &mut Vec<LineSegment>,
    source: &str,
    runs: &Vec<HighlightedRun>,
    spans: &Vec<Span>,
    is_diff: bool,
    start: usize,
    end: usize,
) -> (r: bool)
    requires
        spans_sorted(spans@),
    ensures
        match run_segments(
            encode_utf8(source@),
            runs@,
            0,
            spans@,
            is_diff,
            start as int,
            end as int,
        ) {
            Some(list) => r && segment_models(final(out)@) == segment_models(old(out)@) + list,
            None => !r,
        },
{
    let ghost bytes = encode_utf8(source@);
    let ghost before = segment_models(out@);
    let ghost mut done: Seq<SegmentModel> = Seq::empty();
    let ghost total = run_segments(bytes, runs@, 0, spans@, is_diff, start as int, end as int);
    let mut i: usize = 0;
    proof {
        assert(segment_models(out@) =~= before + done);
        if total is Some {
            assert(done + total->0 =~= total->0);
        }
    }
    while i < runs.len()
        invariant_except_break
            total == match run_segments(
                bytes,
                runs@,
                i as int,
                spans@,
                is_diff,
                start as int,
                end as int,
            ) {
                Some(rest) => Some(done + rest),
                None => None,
            },
        invariant
            i <= runs.len(),
            spans_sorted(spans@),
            bytes == encode_utf8(source@),
            before == segment_models(old(out)@),
            total == run_segments(
                encode_utf8(source@),
                runs@,
                0,
                spans@,
                is_diff,
                start as int,
                end as int,
            ),
            segment_models(out@) == before + done,
        ensures
            total == Some(done),
        decreases runs.len() - i,
    {
        let run: HighlightedRun = runs[i];
        if run.end <= start {
            i += 1;
        } else if run.start >= end {
            assert(done + Seq::<SegmentModel>::empty() =~= done);
            break;
        } else {
            let ghost here = one_run_segments(
                bytes,
                run,
                spans@,
                is_diff,
                start as int,
                end as int,
            );
            if !add_run(out, source, run, spans, is_diff, start, end) {
                return false;
            }
            proof {
                let rest = run_segments(
                    bytes,
                    runs@,
                    i + 1,
                    spans@,
                    is_diff,
                    start as int,
                    end as int,
                );
                if rest is Some {
                    assert(done + (here->0 + rest->0) =~= done + here->0 + rest->0);
                }
                assert(before + done + here->0 =~= before + (done + here->0));
                done = done + here->0;
            }
            i += 1;
        }
        assert(i == runs.len() ==> done + Seq::<SegmentModel>::empty() =~= done);
    }
    true
}

/// The segments of a line, if no tint or run cuts a character. The spans are
/// sorted by their first bytes.
pub fn segments_for_range(
    source: &str,
    runs: &Vec<HighlightedRun>,
    tint_spans: &Vec<Span>,
    diff_ranges: &Vec<Range<usize>>,
    line: Range<usize>,
) -> (r: Option<Vec<LineSegment>>)
    requires
        spans_sorted(tint_spans@),
    ensures
        match r {
            Some(list) => line_segments(
                encode_utf8(source@),
                runs@,
                tint_spans@,
                range_ends(diff_ranges@),
                line.start as int,
                line.end as int,
            ) == Some(segment_models(list@)),
            None => line_segments(
                encode_utf8(source@),
                runs@,
                tint_spans@,
                range_ends(diff_ranges@),
                line.start as int,
                line.end as int,
            ) is None,
        },
{
    let mut out: Vec<LineSegment> = Vec::new();
    assert(segment_models(out@) =~= Seq::empty());
    if line.start >= line.end {
        return Some(out);
    }
    let is_diff: bool = line_flagged(diff_ranges, line.start, line.end);
    if add_runs(&mut out, source, runs, tint_spans, is_diff, line.start, line.end) {
        assert(forall|list: Seq<SegmentModel>| #[trigger]
            (Seq::<SegmentModel>::empty() + list) =~= list);
        Some(out)
    } else {
        None
    }
}

/// The row for a line of code, if no tint or run cuts a character.
pub open spec fn line_row(
    bytes: Seq<u8>,
    runs: Seq<HighlightedRun>,
    spans: Seq<Span>,
    flags: Seq<(int, int)>,
    line: LineModel,
) -> Option<RowModel> {
    match line_segments(bytes, runs, spans, flags, line.start, line.end) {
        Some(segments) => Some(
            RowModel::CodeLine {
                line_number: line.line_number,
                is_context: line.kind == LineKind::Context,
                segments,
            },
        ),
        None => None,
    }
}

/// The rows for the first `n` lines, if no tint or run cuts a character.
pub open spec fn line_rows(
    bytes: Seq<u8>,
    runs: Seq<HighlightedRun>,
    spans: Seq<Span>,
    flags: Seq<(int, int)>,
    lines: Seq<LineModel>,
    n: int,
) -> Option<Seq<RowModel>>
    decreases n,
{
    if n <= 0 {
        Some(Seq::empty())
    } else {
        match (
            line_rows(bytes, runs, spans, flags, lines, n - 1),
            line_row(bytes, runs, spans, flags, lines[n - 1]),
        ) {
            (Some(before), Some(row)) => Some(before.push(row)),
            _ => None,
        }
    }
}

/// Once a line cannot be drawn, no more lines help.
proof fn lemma_rows_stay_none(
    bytes: Seq<u8>,
    runs: Seq<HighlightedRun>,
    spans: Seq<Span>,
    flags: Seq<(int, int)>,
    lines: Seq<LineModel>,
    n: int,
    m: int,
)
    requires
        n <= m,
        line_rows(bytes, runs, spans, flags, lines, n) is None,
    ensures
        line_rows(bytes, runs, spans, flags, lines, m) is None,
    decreases m - n,
{
    if n < m {
        lemma_rows_stay_none(bytes, runs, spans, flags, lines, n, m - 1);
    }
}

/// The rows of the code of an occurrence, if no tint or run cuts a character.
pub open spec fn code_rows(
    source: Seq<char>,
    hint: Option<Seq<char>>,
    spans: Seq<Span>,
    flags: Seq<(int, int)>,
    lines: Seq<LineModel>,
) -> Option<Seq<RowModel>> {
    line_rows(
        encode_utf8(source),
        highlight_runs(source, hint),
        spans_in_order(spans, spans.len() as int),
        flags,
        lines,
        lines.len() as int,
    )
}

/// The characters of an optional string.
pub open spec fn opt_chars(s: Option<String>) -> Option<Seq<char>> {
    match s {
        Some(t) => Some(t@),
        None => None,
    }
}

/// The slice of an optional string.
fn opt_str(s: &Option<String>) -> (r: Option<&str>)
    ensures
        crate::highlight::hint_text(r) == opt_chars(*s),
{
    match s {
        Some(t) => Some(t.as_str()),
        None => None,
    }
}

/// Adds the rows of the code of an occurrence, if no tint or run cuts a
/// character.
pub fn append_slice_rows(
    out: &mut Vec<DetailRow>,
    source: &str,
    lang_hint: Option<&str>,
    slice: &ContextualSlice,
    occ: &OccurrenceView,
    diff_ranges: &Vec<Range<usize>>,
) -> (r: bool)
    ensures
        match code_rows(
            source@,
            crate::highlight::hint_text(lang_hint),
            occ.alpha_rename_spans@,
            range_ends(diff_ranges@),
            slice@.lines,
        ) {
            Some(rows) => r && row_models(final(out)@) == row_models(old(out)@) + rows,
            None => !r,
        },
{
    let runs: Vec<HighlightedRun> = highlight(source, lang_hint);
    let spans: Vec<Span> = sort_spans(&occ.alpha_rename_spans);
    let ghost bytes = encode_utf8(source@);
    let ghost flags = range_ends(diff_ranges@);
    let ghost lines = slice@.lines;
    let ghost before = row_models(out@);
    let ghost mut done: Seq<RowModel> = Seq::empty();
    let mut i: usize = 0;
    assert(row_models(out@) =~= before + done);
    while i < slice.lines.len()
        invariant
            i <= slice.lines.len(),
            lines == slice@.lines,
            lines.len() == slice.lines@.len(),
            bytes == encode_utf8(source@),
            flags == range_ends(diff_ranges@),
            spans_sorted(spans@),
            runs@ == highlight_runs(source@, crate::highlight::hint_text(lang_hint)),
            spans@ == spans_in_order(
                occ.alpha_rename_spans@,
                occ.alpha_rename_spans@.len() as int,
            ),
            line_rows(bytes, runs@, spans@, flags, lines, i as int) == Some(done),
            row_models(out@) == before + done,
        decreases slice.lines.len() - i,
    {
        let line = &slice.lines[i];
        assert(lines[i as int] == line@);
        let range: Range<usize> = line.byte_range.start..line.byte_range.end;
        match segments_for_range(source, &runs, &spans, diff_ranges, range) {
            Some(segments) => {
                let ghost now = row_models(out@);
                let row: DetailRow = DetailRow::CodeLine {
                    line_number: line.line_number,
                    is_context: line.kind == LineKind::Context,
                    segments,
                };
                out.push(row);
                proof {
                    assert(row_models(out@) =~= now.push(row@));
                    done = done.push(row@);
                    assert(row_models(out@) =~= before + done);
                }
            },
            None => {
                proof {
                    lemma_rows_stay_none(
                        bytes,
                        runs@,
                        spans@,
                        flags,
                        lines,
                        i + 1,
                        lines.len() as int,
                    );
                }
                return false;
            },
        }
        i += 1;
    }
    true
}

/// Who last changed the first line of an occurrence, and what that change says
/// of itself.
pub type BlameFields = (Option<String>, Option<String>);

/// The head of occurrence `i`.
pub open spec fn header_row(
    state: AppState,
    group_id: i64,
    occurrences: Seq<OccurrenceView>,
    blames: Seq<BlameFields>,
    i: int,
) -> RowModel {
    RowModel::OccurrenceHeader {
        group_id,
        occ_idx: i,
        label: occurrence_label(occurrences[i]@),
        checked: state.selected_occurrence_indices@.contains((group_id, i as usize)),
        path: occurrences[i].path@,
        blame_overlay: opt_chars(blames[i].0),
        blame_tooltip: opt_chars(blames[i].1),
    }
}

/// The rows of the code of occurrence `i`, if no tint or run cuts a character.
pub open spec fn body_rows(
    state: AppState,
    occurrences: Seq<OccurrenceView>,
    sources: Seq<Option<String>>,
    hints: Seq<Option<String>>,
    i: int,
) -> Option<Seq<RowModel>> {
    let o = occurrences[i];
    match sources[i] {
        Some(source) => code_rows(
            source@,
            opt_chars(hints[i]),
            o.alpha_rename_spans@,
            flags_of(occurrences, sources, i),
            window(
                encode_utf8(source@),
                pane_line(o.start_line),
                pane_line(o.end_line),
                state.detail_config.context_lines as int,
            ).lines,
        ),
        None => Some(seq![RowModel::Unavailable]),
    }
}

/// The rows of occurrence `i`: its head alone if it is collapsed, else its head
/// and its code, with a gap in front unless it is the first one.
pub open spec fn occurrence_rows(
    state: AppState,
    group_id: i64,
    occurrences: Seq<OccurrenceView>,
    sources: Seq<Option<String>>,
    hints: Seq<Option<String>>,
    blames: Seq<BlameFields>,
    i: int,
) -> Option<Seq<RowModel>> {
    let header = header_row(state, group_id, occurrences, blames, i);
    let gap = if i > 0 {
        seq![RowModel::Gap]
    } else {
        Seq::empty()
    };
    if state.collapsed_occurrences@.contains((group_id, i as usize)) {
        Some(seq![header])
    } else {
        match body_rows(state, occurrences, sources, hints, i) {
            Some(body) => Some(gap.push(header) + body),
            None => None,
        }
    }
}

/// The rows of the first `n` occurrences, under a row that says how many there
/// are in all.
pub open spec fn rows_upto(
    state: AppState,
    group_id: i64,
    occurrences: Seq<OccurrenceView>,
    sources: Seq<Option<String>>,
    hints: Seq<Option<String>>,
    blames: Seq<BlameFields>,
    n: int,
) -> Option<Seq<RowModel>>
    decreases n,
{
    if n <= 0 {
        Some(seq![RowModel::Summary(dec(occurrences.len()) + " occurrences"@)])
    } else {
        match (
            rows_upto(state, group_id, occurrences, sources, hints, blames, n - 1),
            occurrence_rows(state, group_id, occurrences, sources, hints, blames, n - 1),
        ) {
            (Some(before), Some(rows)) => Some(before + rows),
            _ => None,
        }
    }
}

/// Once an occurrence cannot be drawn, no more occurrences help.
proof fn lemma_upto_stays_none(
    state: AppState,
    group_id: i64,
    occurrences: Seq<OccurrenceView>,
    sources: Seq<Option<String>>,
    hints: Seq<Option<String>>,
    blames: Seq<BlameFields>,
    n: int,
    m: int,
)
    requires
        n <= m,
        rows_upto(state, group_id, occurrences, sources, hints, blames, n) is None,
    ensures
        rows_upto(state, group_id, occurrences, sources, hints, blames, m) is None,
    decreases m - n,
{
    if n < m {
        lemma_upto_stays_none(
            state,
            group_id,
            occurrences,
            sources,
            hints,
            blames,
            n,
            m - 1,
        );
    }
}

/// What is read of the occurrences of a group fits them: there is one entry for
/// each.
pub open spec fn inputs_fit(
    occurrences: Seq<OccurrenceView>,
    sources: Seq<Option<String>>,
    hints: Seq<Option<String>>,
    blames: Seq<BlameFields>,
) -> bool {
    &&& occurrences.len() == sources.len()
    &&& occurrences.len() == hints.len()
    &&& occurrences.len() == blames.len()
}

/// A copy of an optional string.
fn copy_opt(s: &Option<String>) -> (r: Option<String>)
    ensures
        opt_chars(r) == opt_chars(*s),
{
    match s {
        Some(t) => Some(t.clone()),
        None => None,
    }
}

/// Adds the rows of occurrence `i`, if no tint or run cuts a character.
fn append_occurrence(
    out: &mut Vec<DetailRow>,
    state: &AppState,
    group_id: i64,
    occurrences: &Vec<OccurrenceView>,
    sources: &Vec<Option<String>>,
    hints: &Vec<Option<String>>,
    blames: &Vec<BlameFields>,
    flags: &Vec<DiffFlags>,
    i: usize,
) -> (r: bool)
    requires
        inputs_fit(occurrences@, sources@, hints@, blames@),
        i < occurrences@.len(),
        flags@.len() == occurrences@.len(),
        range_ends(flags@[i as int]@) == flags_of(occurrences@, sources@, i as int),
    ensures
        match occurrence_rows(
            *state,
            group_id,
            occurrences@,
            sources@,
            hints@,
            blames@,
            i as int,
        ) {
            Some(rows) => r && row_models(final(out)@) == row_models(old(out)@) + rows,
            None => !r,
        },
{
    let ghost before = row_models(out@);
    let ghost header = header_row(*state, group_id, occurrences@, blames@, i as int);
    let collapsed: bool = state.is_occurrence_collapsed(group_id, i);
    let o: &OccurrenceView = &occurrences[i];
    if i > 0 && !collapsed {
        out.push(DetailRow::Gap);
        assert(row_models(out@) =~= before.push(RowModel::Gap));
    }
    let ghost gapped = row_models(out@);
    let row: DetailRow = DetailRow::OccurrenceHeader {
        group_id,
        occ_idx: i,
        label: o.label(),
        checked: state.is_occurrence_selected(group_id, i),
        path: o.path.clone(),
        blame_overlay: copy_opt(&blames[i].0),
        blame_tooltip: copy_opt(&blames[i].1),
    };
    assert(row@ == header);
    out.push(row);
    assert(row_models(out@) =~= gapped.push(header));
    if collapsed {
        assert(row_models(out@) =~= before + seq![header]);
        return true;
    }
    let ghost gap = if i > 0 {
        seq![RowModel::Gap]
    } else {
        Seq::empty()
    };
    let ghost headed = row_models(out@);
    assert(headed =~= before + gap.push(header));
    match &sources[i] {
        Some(source) => {
            assert(sources@[i as int] is Some);
            let slice: ContextualSlice = extract_with_context(
                source.as_str(),
                line_for_pane(o.start_line),
                line_for_pane(o.end_line),
                state.detail_config.context_lines,
            );
            let ok: bool = append_slice_rows(
                out,
                source.as_str(),
                opt_str(&hints[i]),
                &slice,
                o,
                &flags[i],
            );
            proof {
                let body = body_rows(*state, occurrences@, sources@, hints@, i as int);
                if body is Some {
                    assert(headed + body->0 =~= before + (gap.push(header) + body->0));
                }
            }
            ok
        },
        None => {
            out.push(DetailRow::Unavailable);
            assert(row_models(out@) =~= before + (gap.push(header) + seq![
                RowModel::Unavailable,
            ]));
            true
        },
    }
}

/// The rows of the detail pane for the occurrences of a group. The sources are
/// those of the files, where they could be read, the hints name their
/// languages, and `blames` says who last changed the first lines. There are no
/// rows where a tint or a run cuts a character.
pub fn build_detail_rows(
    state: &AppState,
    group_id: i64,
    occurrences: &Vec<OccurrenceView>,
    sources: &Vec<Option<String>>,
    hints: &Vec<Option<String>>,
    blames: &Vec<BlameFields>,
) -> (r: Option<Vec<DetailRow>>)
    requires
        inputs_fit(occurrences@, sources@, hints@, blames@),
    ensures
        match r {
            Some(rows) => rows_upto(
                *state,
                group_id,
                occurrences@,
                sources@,
                hints@,
                blames@,
                occurrences@.len() as int,
            ) == Some(row_models(rows@)),
            None => rows_upto(
                *state,
                group_id,
                occurrences@,
                sources@,
                hints@,
                blames@,
                occurrences@.len() as int,
            ) is None,
        },
{
    let flags: Vec<DiffFlags> = diff(occurrences, sources, state.detail_config.context_lines);
    let mut out: Vec<DetailRow> = Vec::new();
    let mut summary: String = String::new();
    push_dec(&mut summary, occurrences.len() as u64);
    summary.append(" occurrences");
    assert(summary@ =~= dec(occurrences@.len()) + " occurrences"@);
    out.push(DetailRow::Summary(summary));
    assert(row_models(out@) =~= seq![RowModel::Summary(dec(occurrences@.len()) + " occurrences"@)]);
    let mut i: usize = 0;
    while i < occurrences.len()
        invariant
            i <= occurrences.len(),
            inputs_fit(occurrences@, sources@, hints@, blames@),
            flags@.len() == occurrences@.len(),
            forall|k: int|
                0 <= k < flags@.len() ==> range_ends((#[trigger] flags@[k])@) == flags_of(
                    occurrences@,
                    sources@,
                    k,
                ),
            rows_upto(*state, group_id, occurrences@, sources@, hints@, blames@, i as int)
                == Some(row_models(out@)),
        decreases occurrences.len() - i,
    {
        let ok: bool = append_occurrence(
            &mut out,
            state,
            group_id,
            occurrences,
            sources,
            hints,
            blames,
            &flags,
            i,
        );
        if !ok {
            proof {
                lemma_upto_stays_none(
                    *state,
                    group_id,
                    occurrences@,
                    sources@,
                    hints@,
                    blames@,
                    i + 1,
                    occurrences@.len() as int,
                );
            }
            return None;
        }
        i += 1;
    }
    Some(out)
}

/// What the rows of the detail pane are kept under.
pub open spec fn state_key(
    state: AppState,
    group_id: i64,
    occurrences: Seq<OccurrenceView>,
) -> DetailRowsCacheKey {
    DetailRowsCacheKey {
        group_id: Some(group_id),
        fingerprint: DefaultHasher::spec_finish(
            key_feed(
                Some(group_id),
                occurrences,
                state.collapsed_occurrences@,
                state.selected_occurrence_indices@,
                state.session_occurrence_dismissed@,
                state.detail_config.context_lines,
            ),
        ),
    }
}

/// The kept rows, if they were kept under `key`.
pub open spec fn kept_rows(state: AppState, key: DetailRowsCacheKey) -> Option<Rc<Vec<DetailRow>>> {
    match state.detail_rows_cache {
        Some(cache) if cache.key == key => Some(cache.rows),
        _ => None,
    }
}

/// What the rows of the detail pane are kept under.
fn key_of(state: &AppState, group_id: i64, occurrences: &Vec<OccurrenceView>) -> (r:
    DetailRowsCacheKey)
    ensures
        r == state_key(*state, group_id, occurrences@),
{
    compute_cache_key(
        Some(group_id),
        occurrences,
        &state.collapsed_occurrences,
        &state.selected_occurrence_indices,
        &state.session_occurrence_dismissed,
        state.detail_config.context_lines,
    )
}

/// The rows of the detail pane, if they are still those of the state.
pub fn cached_detail_rows(
    state: &AppState,
    group_id: i64,
    occurrences: &Vec<OccurrenceView>,
) -> (r: Option<Rc<Vec<DetailRow>>>)
    ensures
        r == kept_rows(*state, state_key(*state, group_id, occurrences@)),
{
    let key: DetailRowsCacheKey = key_of(state, group_id, occurrences);
    match &state.detail_rows_cache {
        Some(cache) => if cache.key == key {
            Some(cache.rows.clone())
        } else {
            None
        },
        None => None,
    }
}

/// The rows of the detail pane: those that are kept, if they are still those of
/// the state, else new ones, which are kept. There are no rows where a tint or
/// a run cuts a character.
pub fn get_or_build_detail_rows(
    state: &mut AppState,
    group_id: i64,
    occurrences: &Vec<OccurrenceView>,
    sources: &Vec<Option<String>>,
    hints: &Vec<Option<String>>,
    blames: &Vec<BlameFields>,
) -> (r: Option<Rc<Vec<DetailRow>>>)
    requires
        inputs_fit(occurrences@, sources@, hints@, blames@),
    ensures
        ({
            let key = state_key(*old(state), group_id, occurrences@);
            let built = rows_upto(
                *old(state),
                group_id,
                occurrences@,
                sources@,
                hints@,
                blames@,
                occurrences@.len() as int,
            );
            match (kept_rows(*old(state), key), built) {
                (Some(rows), _) => r == Some(rows) && *final(state) == *old(state),
                (None, Some(models)) => {
                    &&& r is Some
                    &&& row_models((*r->0)@) == models
                    &&& *final(state) == (AppState {
                        detail_rows_cache: Some(DetailRowsCache { key, rows: r->0 }),
                        ..*old(state)
                    })
                },
                (None, None) => r is None && *final(state) == *old(state),
            }
        }),
{
    if let Some(rows) = cached_detail_rows(state, group_id, occurrences) {
        return Some(rows);
    }
    let key: DetailRowsCacheKey = key_of(state, group_id, occurrences);
    match build_detail_rows(state, group_id, occurrences, sources, hints, blames) {
        Some(list) => {
            let rows: Rc<Vec<DetailRow>> = Rc::new(list);
            state.detail_rows_cache = Some(DetailRowsCache { key, rows: rows.clone() });
            Some(rows)
        },
        None => None,
    }
}

/// Rows that were built for a state are found again as long as nothing but the
/// kept rows changes.
pub proof fn law_rows_are_kept(
    state: AppState,
    group_id: i64,
    occurrences: Seq<OccurrenceView>,
    rows: Rc<Vec<DetailRow>>,
)
    ensures
        ({
            let key = state_key(state, group_id, occurrences);
            let after = AppState {
                detail_rows_cache: Some(DetailRowsCache { key, rows }),
                ..state
            };
            kept_rows(after, state_key(after, group_id, occurrences)) == Some(rows)
        }),
{
}

/// A head of an occurrence.
pub open spec fn is_header(row: RowModel) -> bool {
    row is OccurrenceHeader
}

/// How many of the rows are heads of occurrences.
pub open spec fn header_count(rows: Seq<RowModel>) -> nat
    decreases rows.len(),
{
    if rows.len() == 0 {
        0
    } else {
        header_count(rows.drop_last()) + if is_header(rows.last()) {
            1nat
        } else {
            0nat
        }
    }
}

/// Heads in rows that follow each other.
proof fn lemma_header_count(a: Seq<RowModel>, b: Seq<RowModel>)
    ensures
        header_count(a + b) == header_count(a) + header_count(b),
    decreases b.len(),
{
    if b.len() == 0 {
        assert(a + b =~= a);
    } else {
        lemma_header_count(a, b.drop_last());
        assert((a + b).drop_last() =~= a + b.drop_last());
    }
}

/// Lines of code are no heads.
proof fn lemma_code_has_no_headers(
    bytes: Seq<u8>,
    runs: Seq<HighlightedRun>,
    spans: Seq<Span>,
    flags: Seq<(int, int)>,
    lines: Seq<LineModel>,
    n: int,
)
    ensures
        match line_rows(bytes, runs, spans, flags, lines, n) {
            Some(rows) => header_count(rows) == 0,
            None => true,
        },
    decreases n,
{
    if n > 0 {
        lemma_code_has_no_headers(bytes, runs, spans, flags, lines, n - 1);
        if let Some(rows) = line_rows(bytes, runs, spans, flags, lines, n) {
            let before = line_rows(bytes, runs, spans, flags, lines, n - 1)->0;
            assert(rows.drop_last() =~= before);
        }
    }
}

/// Rows without a head, a head, and rows without a head have one head.
proof fn lemma_one_header(gap: Seq<RowModel>, header: RowModel, body: Seq<RowModel>)
    requires
        header_count(gap) == 0,
        is_header(header),
        header_count(body) == 0,
    ensures
        header_count(gap.push(header) + body) == 1,
{
    assert(gap.push(header).drop_last() =~= gap);
    assert(header_count(gap.push(header)) == 1);
    lemma_header_count(gap.push(header), body);
}

/// One row that is no head has none.
proof fn lemma_no_header(row: RowModel)
    requires
        !is_header(row),
    ensures
        header_count(seq![row]) == 0,
{
    assert(seq![row].drop_last() =~= Seq::<RowModel>::empty());
    assert(header_count(Seq::<RowModel>::empty()) == 0);
}

/// An occurrence has one head among its rows.
proof fn lemma_occurrence_has_header(
    state: AppState,
    group_id: i64,
    occurrences: Seq<OccurrenceView>,
    sources: Seq<Option<String>>,
    hints: Seq<Option<String>>,
    blames: Seq<BlameFields>,
    i: int,
)
    requires
        occurrence_rows(state, group_id, occurrences, sources, hints, blames, i) is Some,
    ensures
        header_count(
            occurrence_rows(state, group_id, occurrences, sources, hints, blames, i)->0,
        ) == 1,
{
    let header = header_row(state, group_id, occurrences, blames, i);
    let rows = occurrence_rows(state, group_id, occurrences, sources, hints, blames, i)->0;
    let empty = Seq::<RowModel>::empty();
    assert(header_count(empty) == 0);
    if state.collapsed_occurrences@.contains((group_id, i as usize)) {
        lemma_one_header(empty, header, empty);
        assert(rows =~= empty.push(header) + empty);
    } else {
        let body = body_rows(state, occurrences, sources, hints, i)->0;
        match sources[i] {
            Some(source) => {
                let o = occurrences[i];
                let lines = window(
                    encode_utf8(source@),
                    pane_line(o.start_line),
                    pane_line(o.end_line),
                    state.detail_config.context_lines as int,
                ).lines;
                lemma_code_has_no_headers(
                    encode_utf8(source@),
                    highlight_runs(source@, opt_chars(hints[i])),
                    spans_in_order(o.alpha_rename_spans@, o.alpha_rename_spans@.len() as int),
                    flags_of(occurrences, sources, i),
                    lines,
                    lines.len() as int,
                );
            },
            None => {
                lemma_no_header(RowModel::Unavailable);
            },
        }
        lemma_no_header(RowModel::Gap);
        if i > 0 {
            lemma_one_header(seq![RowModel::Gap], header, body);
        } else {
            lemma_one_header(empty, header, body);
        }
    }
}

/// Every occurrence has its head among the rows, whether it is collapsed or not.
pub proof fn law_headers_stay(
    state: AppState,
    group_id: i64,
    occurrences: Seq<OccurrenceView>,
    sources: Seq<Option<String>>,
    hints: Seq<Option<String>>,
    blames: Seq<BlameFields>,
    n: int,
)
    requires
        0 <= n <= occurrences.len(),
        rows_upto(state, group_id, occurrences, sources, hints, blames, n) is Some,
    ensures
        header_count(
            rows_upto(state, group_id, occurrences, sources, hints, blames, n)->0,
        ) == n,
    decreases n,
{
    if n > 0 {
        law_headers_stay(state, group_id, occurrences, sources, hints, blames, n - 1);
        lemma_occurrence_has_header(
            state,
            group_id,
            occurrences,
            sources,
            hints,
            blames,
            n - 1,
        );
        lemma_header_count(
            rows_upto(state, group_id, occurrences, sources, hints, blames, n - 1)->0,
            occurrence_rows(state, group_id, occurrences, sources, hints, blames, n - 1)->0,
        );
    } else {
        lemma_no_header(RowModel::Summary(dec(occurrences.len()) + " occurrences"@));
    }
}

/// A byte has the tint of the first span that holds it, and none where no span
/// does.
pub proof fn law_tint_of_bytes(spans: Seq<Span>, k: int, byte: int)
    requires
        0 <= k <= spans.len(),
        forall|j: int| 0 <= j < k ==> !((#[trigger] spans[j]).0 <= byte < spans[j].1),
        k < spans.len() ==> spans[k].0 <= byte < spans[k].1,
    ensures
        tint_at(spans, spans.len() as int, byte) == if k < spans.len() {
            Some(tint(spans[k].2 as int))
        } else {
            None
        },
{
    lemma_tint_of_bytes(spans, spans.len() as int, k, byte);
}

/// The tint of a byte among the first spans.
proof fn lemma_tint_of_bytes(spans: Seq<Span>, n: int, k: int, byte: int)
    requires
        0 <= n <= spans.len(),
        0 <= k <= spans.len(),
        forall|j: int| 0 <= j < k ==> !((#[trigger] spans[j]).0 <= byte < spans[j].1),
        k < spans.len() ==> spans[k].0 <= byte < spans[k].1,
    ensures
        tint_at(spans, n, byte) == if k < n {
            Some(tint(spans[k].2 as int))
        } else {
            None
        },
    decreases n,
{
    if n > 0 {
        lemma_tint_of_bytes(spans, n - 1, k, byte);
        let span = spans[n - 1];
    }
}

/// Spans that begin at the same byte stay in the order in which they came.
pub proof fn law_spans_stay_in_order(spans: Seq<Span>, n: int, start: usize)
    requires
        0 <= n <= spans.len(),
    ensures
        spans_in_order(spans, n).filter(|s: Span| s.0 == start) == spans.take(n).filter(
            |s: Span| s.0 == start,
        ),
    decreases n,
{
    reveal(Seq::filter);
    if n > 0 {
        law_spans_stay_in_order(spans, n - 1, start);
        law_spans_in_order(spans, n - 1);
        assert(spans.take(n).drop_last() =~= spans.take(n - 1));
        assert(spans.take(n).last() == spans[n - 1]);
        lemma_put_behind(spans_in_order(spans, n - 1), spans[n - 1], start);
    } else {
        assert(spans.take(0) =~= spans_in_order(spans, 0));
    }
}

/// A span that is put in comes behind those that begin at the same byte.
proof fn lemma_put_behind(list: Seq<Span>, span: Span, start: usize)
    ensures
        span_put(list, span).filter(|s: Span| s.0 == start) == if span.0 == start {
            list.filter(|s: Span| s.0 == start).push(span)
        } else {
            list.filter(|s: Span| s.0 == start)
        },
    decreases list.len(),
{
    reveal(Seq::filter);
    let same = |s: Span| s.0 == start;
    if list.len() == 0 || list.last().0 <= span.0 {
        assert(list.push(span).drop_last() =~= list);
    } else {
        let before = list.drop_last();
        lemma_put_behind(before, span, start);
        let put = span_put(before, span);
        assert(put.push(list.last()).drop_last() =~= put);
    }
}

/// The bytes of segments, one behind the other.
spec fn drawn(segments: Seq<SegmentModel>) -> Seq<u8>
    decreases segments.len(),
{
    if segments.len() == 0 {
        Seq::empty()
    } else {
        encode_utf8(segments[0].text) + drawn(segments.drop_first())
    }
}

/// Segments draw the bytes `from..to`, in the styles that these bytes have.
spec fn draws(
    bytes: Seq<u8>,
    runs: Seq<HighlightedRun>,
    spans: Seq<Span>,
    is_diff: bool,
    segments: Seq<SegmentModel>,
    from: int,
    to: int,
) -> bool
    decreases segments.len(),
{
    if segments.len() == 0 {
        from == to
    } else {
        let first = segments[0];
        let mid = from + encode_utf8(first.text).len();
        &&& from < mid <= to
        &&& encode_utf8(first.text) == bytes.subrange(from, mid)
        &&& first.is_diff == is_diff
        &&& forall|b: int|
            from <= b < mid ==> first.bg_color == #[trigger] tint_at(spans, spans.len() as int, b)
        &&& exists|r: int|
            0 <= r < runs.len() && (#[trigger] runs[r]).start <= from && mid <= runs[r].end
                && first.fg_color == runs[r].kind.rgb()
        &&& draws(bytes, runs, spans, is_diff, segments.drop_first(), mid, to)
    }
}

/// Segments that draw one part and segments that draw the next draw both.
proof fn lemma_draws_joined(
    bytes: Seq<u8>,
    runs: Seq<HighlightedRun>,
    spans: Seq<Span>,
    is_diff: bool,
    a: Seq<SegmentModel>,
    b: Seq<SegmentModel>,
    from: int,
    mid: int,
    to: int,
)
    requires
        draws(bytes, runs, spans, is_diff, a, from, mid),
        draws(bytes, runs, spans, is_diff, b, mid, to),
        mid <= to,
    ensures
        draws(bytes, runs, spans, is_diff, a + b, from, to),
    decreases a.len(),
{
    if a.len() == 0 {
        assert(a + b =~= b);
    } else {
        let next = from + encode_utf8(a[0].text).len();
        lemma_draws_joined(bytes, runs, spans, is_diff, a.drop_first(), b, next, mid, to);
        assert((a + b).drop_first() =~= a.drop_first() + b);
        assert((a + b)[0] == a[0]);
    }
}

/// The segments of the pieces of a run draw them.
proof fn lemma_pieces_drawn(
    bytes: Seq<u8>,
    runs: Seq<HighlightedRun>,
    spans: Seq<Span>,
    is_diff: bool,
    start: int,
    end: int,
    i: int,
    r: int,
)
    requires
        0 <= start < end <= bytes.len(),
        spans_sorted(spans),
        0 <= r < runs.len(),
        runs[r].start <= start,
        end <= runs[r].end,
        0 <= i <= tint_pieces(start, end, spans).len(),
        piece_segments(bytes, tint_pieces(start, end, spans), i, runs[r].kind.rgb(), is_diff) is Some,
    ensures
        draws(
            bytes,
            runs,
            spans,
            is_diff,
            piece_segments(
                bytes,
                tint_pieces(start, end, spans),
                i,
                runs[r].kind.rgb(),
                is_diff,
            )->0,
            if i < tint_pieces(start, end, spans).len() {
                tint_pieces(start, end, spans)[i].start
            } else {
                end
            },
            end,
        ),
    decreases tint_pieces(start, end, spans).len() - i,
{
    let pieces = tint_pieces(start, end, spans);
    law_pieces_cover_run(start, end, spans);
    lemma_pieces_ascend(pieces, start, end);
    if i < pieces.len() {
        lemma_pieces_drawn(bytes, runs, spans, is_diff, start, end, i + 1, r);
        let p = pieces[i];
        assert(start <= p.start < p.end <= end);
        let part = bytes.subrange(p.start, p.end);
        decode_utf8_encode_utf8(part);
        let rest = piece_segments(bytes, pieces, i + 1, runs[r].kind.rgb(), is_diff)->0;
        let all = piece_segments(bytes, pieces, i, runs[r].kind.rgb(), is_diff)->0;
        assert(all.drop_first() =~= rest);
        assert forall|b: int| p.start <= b < p.end implies p.tint == #[trigger] tint_at(
            spans,
            spans.len() as int,
            b,
        ) by {
            law_pieces_have_tints(start, end, spans, i, b);
        }
        if i + 1 < pieces.len() {
            assert(pieces[i + 1].start == pieces[i + 1 - 1].end);
        }
        assert(runs[r].start <= p.start && p.end <= runs[r].end);
    }
}

/// Pieces lie within the run that they are pieces of.
proof fn lemma_pieces_ascend(pieces: Seq<PieceModel>, start: int, end: int)
    requires
        pieces_cover(pieces, start, end),
    ensures
        forall|i: int|
            0 <= i < pieces.len() ==> start <= (#[trigger] pieces[i]).start && pieces[i].end <= end,
{
    assert forall|i: int| 0 <= i < pieces.len() implies start <= (#[trigger] pieces[i]).start
        && pieces[i].end <= end by {
        lemma_piece_within(pieces, start, end, i, 0);
        lemma_piece_within(pieces, start, end, pieces.len() - 1, i);
    }
}

/// A later piece begins no earlier, and ends no earlier.
proof fn lemma_piece_within(pieces: Seq<PieceModel>, start: int, end: int, i: int, j: int)
    requires
        pieces_cover(pieces, start, end),
        0 <= j <= i < pieces.len(),
    ensures
        pieces[j].start <= pieces[i].start,
        pieces[j].end <= pieces[i].end,
    decreases i - j,
{
    if j < i {
        lemma_piece_within(pieces, start, end, i - 1, j);
        assert(pieces[i].start == pieces[i - 1].end);
        assert(pieces[i].start < pieces[i].end);
        assert(pieces[i - 1].start < pieces[i - 1].end);
    }
}

/// The segments of the runs from `i` on draw the rest of a line.
proof fn lemma_runs_drawn(
    bytes: Seq<u8>,
    runs: Seq<HighlightedRun>,
    spans: Seq<Span>,
    is_diff: bool,
    start: int,
    end: int,
    i: int,
)
    requires
        0 <= start < end <= bytes.len(),
        runs_cover(runs, bytes.len() as int),
        spans_sorted(spans),
        0 <= i <= runs.len(),
        run_segments(bytes, runs, i, spans, is_diff, start, end) is Some,
        i < runs.len() ==> runs[i].start < end,
    ensures
        ({
            let here = if i < runs.len() {
                runs[i].start as int
            } else {
                bytes.len() as int
            };
            let from = if here > start {
                here
            } else {
                start
            };
            let segments = run_segments(bytes, runs, i, spans, is_diff, start, end)->0;
            if from < end {
                draws(bytes, runs, spans, is_diff, segments, from, end)
            } else {
                segments.len() == 0
            }
        }),
    decreases runs.len() - i,
{
    if i < runs.len() {
        let run = runs[i];
        assert(run.start < run.end);
        if i + 1 < runs.len() {
            assert(runs[i].end == runs[i + 1].start);
        } else {
            assert(runs.last().end == bytes.len());
        }
        if run.end <= start {
            if i + 1 < runs.len() && runs[i + 1].start < end {
                lemma_runs_drawn(bytes, runs, spans, is_diff, start, end, i + 1);
            }
        } else {
            let low = larger(run.start as int, start);
            let high = smaller(run.end as int, end);
            let here = one_run_segments(bytes, run, spans, is_diff, start, end)->0;
            law_pieces_cover_run(low, high, spans);
            lemma_pieces_drawn(bytes, runs, spans, is_diff, low, high, 0, i);
            assert(tint_pieces(low, high, spans)[0].start == low);
            assert(draws(bytes, runs, spans, is_diff, here, low, high));
            let rest = run_segments(bytes, runs, i + 1, spans, is_diff, start, end)->0;
            if high < end {
                assert(high == run.end);
                assert(i + 1 < runs.len());
                lemma_runs_drawn(bytes, runs, spans, is_diff, start, end, i + 1);
                lemma_draws_joined(bytes, runs, spans, is_diff, here, rest, low, high, end);
            } else {
                assert(rest.len() == 0);
                assert(here + rest =~= here);
            }
        }
    }
}

/// What segments draw is the text of the line, and every segment has the color
/// of the run and the tint of the span that its bytes lie in.
proof fn lemma_drawn(
    bytes: Seq<u8>,
    runs: Seq<HighlightedRun>,
    spans: Seq<Span>,
    is_diff: bool,
    segments: Seq<SegmentModel>,
    from: int,
    to: int,
)
    requires
        0 <= from <= to <= bytes.len(),
        draws(bytes, runs, spans, is_diff, segments, from, to),
    ensures
        drawn(segments) == bytes.subrange(from, to),
        segments.map_values(|s: SegmentModel| encode_utf8(s.text)).flatten() == drawn(segments),
    decreases segments.len(),
{
    let f = |s: SegmentModel| encode_utf8(s.text);
    if segments.len() > 0 {
        let mid = from + encode_utf8(segments[0].text).len();
        lemma_drawn(bytes, runs, spans, is_diff, segments.drop_first(), mid, to);
        assert(segments.map_values(f).drop_first() =~= segments.drop_first().map_values(f));
        assert(bytes.subrange(from, mid) + bytes.subrange(mid, to) =~= bytes.subrange(from, to));
    } else {
        assert(segments.map_values(f) =~= Seq::empty());
        assert(bytes.subrange(from, to) =~= Seq::empty());
    }
}

/// The segment at `j` draws the bytes behind those of the segments before it.
proof fn lemma_segment_at(
    bytes: Seq<u8>,
    runs: Seq<HighlightedRun>,
    spans: Seq<Span>,
    is_diff: bool,
    segments: Seq<SegmentModel>,
    from: int,
    to: int,
    j: int,
)
    requires
        0 <= from <= to <= bytes.len(),
        draws(bytes, runs, spans, is_diff, segments, from, to),
        0 <= j < segments.len(),
    ensures
        ({
            let low = from + segments.take(j).map_values(
                |s: SegmentModel| encode_utf8(s.text),
            ).flatten().len();
            let high = low + encode_utf8(segments[j].text).len();
            &&& from <= low < high <= to
            &&& segments[j].is_diff == is_diff
            &&& forall|b: int|
                low <= b < high ==> segments[j].bg_color == #[trigger] tint_at(
                    spans,
                    spans.len() as int,
                    b,
                )
            &&& exists|r: int|
                0 <= r < runs.len() && (#[trigger] runs[r]).start <= low && high <= runs[r].end
                    && segments[j].fg_color == runs[r].kind.rgb()
        }),
    decreases j,
{
    let f = |s: SegmentModel| encode_utf8(s.text);
    if j == 0 {
        assert(segments.take(0).map_values(f) =~= Seq::empty());
    } else {
        let mid = from + encode_utf8(segments[0].text).len();
        let rest = segments.drop_first();
        lemma_segment_at(bytes, runs, spans, is_diff, rest, mid, to, j - 1);
        let all = segments.take(j).map_values(f);
        assert(all.drop_first() =~= rest.take(j - 1).map_values(f));
        assert(all.first() == encode_utf8(segments[0].text));
        assert(all.flatten().len() == encode_utf8(segments[0].text).len() + rest.take(
            j - 1,
        ).map_values(f).flatten().len());
        assert(rest[j - 1] == segments[j]);
    }
}

/// The segments of a line show all of it and nothing else: one behind the other
/// their texts are the line.
pub proof fn law_segments_show_the_line(
    bytes: Seq<u8>,
    runs: Seq<HighlightedRun>,
    spans: Seq<Span>,
    flags: Seq<(int, int)>,
    start: int,
    end: int,
)
    requires
        0 <= start <= end <= bytes.len(),
        runs_cover(runs, bytes.len() as int),
        spans_sorted(spans),
        line_segments(bytes, runs, spans, flags, start, end) is Some,
    ensures
        line_segments(bytes, runs, spans, flags, start, end)->0.map_values(
            |s: SegmentModel| encode_utf8(s.text),
        ).flatten() == bytes.subrange(start, end),
{
    let segments = line_segments(bytes, runs, spans, flags, start, end)->0;
    let f = |s: SegmentModel| encode_utf8(s.text);
    let is_diff = overlaps(flags, start, end);
    if start < end {
        assert(runs[0].start == 0);
        lemma_runs_drawn(bytes, runs, spans, is_diff, start, end, 0);
        lemma_drawn(bytes, runs, spans, is_diff, segments, start, end);
    } else {
        assert(segments.map_values(f) =~= Seq::empty());
        assert(bytes.subrange(start, end) =~= Seq::empty());
    }
}

/// Every segment of a line has the color of the bucket that its bytes are painted
/// in, the tint of the renamed local that they are part of, if they are of one,
/// and the mark of a difference exactly where a flag meets the line.
pub proof fn law_segments_have_styles(
    bytes: Seq<u8>,
    runs: Seq<HighlightedRun>,
    spans: Seq<Span>,
    flags: Seq<(int, int)>,
    start: int,
    end: int,
    j: int,
    byte: int,
)
    requires
        0 <= start <= end <= bytes.len(),
        runs_cover(runs, bytes.len() as int),
        spans_sorted(spans),
        line_segments(bytes, runs, spans, flags, start, end) is Some,
        0 <= j < line_segments(bytes, runs, spans, flags, start, end)->0.len(),
        ({
            let segments = line_segments(bytes, runs, spans, flags, start, end)->0;
            let low = start + segments.take(j).map_values(
                |s: SegmentModel| encode_utf8(s.text),
            ).flatten().len();
            low <= byte < low + encode_utf8(segments[j].text).len()
        }),
    ensures
        ({
            let segment = line_segments(bytes, runs, spans, flags, start, end)->0[j];
            &&& segment.bg_color == tint_at(spans, spans.len() as int, byte)
            &&& segment.is_diff <==> exists|i: int|
                0 <= i < flags.len() && (#[trigger] flags[i]).0 < end && flags[i].1 > start
            &&& exists|r: int|
                0 <= r < runs.len() && (#[trigger] runs[r]).start <= byte < runs[r].end
                    && segment.fg_color == runs[r].kind.rgb()
        }),
{
    let segments = line_segments(bytes, runs, spans, flags, start, end)->0;
    let is_diff = overlaps(flags, start, end);
    assert(runs[0].start == 0);
    lemma_runs_drawn(bytes, runs, spans, is_diff, start, end, 0);
    lemma_segment_at(bytes, runs, spans, is_diff, segments, start, end, j);
    let low = start + segments.take(j).map_values(
        |s: SegmentModel| encode_utf8(s.text),
    ).flatten().len();
    let high = low + encode_utf8(segments[j].text).len();
    let r = choose|r: int|
        0 <= r < runs.len() && (#[trigger] runs[r]).start <= low && high <= runs[r].end
            && segments[j].fg_color == runs[r].kind.rgb();
    assert(runs[r].start <= byte < runs[r].end);
}

/// There is one row for each line.
pub proof fn law_one_row_for_each_line(
    bytes: Seq<u8>,
    runs: Seq<HighlightedRun>,
    spans: Seq<Span>,
    flags: Seq<(int, int)>,
    lines: Seq<LineModel>,
    n: int,
)
    requires
        0 <= n <= lines.len(),
        line_rows(bytes, runs, spans, flags, lines, n) is Some,
    ensures
        line_rows(bytes, runs, spans, flags, lines, n)->0.len() == n,
    decreases n,
{
    if n > 0 {
        law_one_row_for_each_line(bytes, runs, spans, flags, lines, n - 1);
    }
}

/// Every line has its row, in order, with its number, with its segments and with
/// whether it is context.
pub proof fn law_lines_have_rows(
    bytes: Seq<u8>,
    runs: Seq<HighlightedRun>,
    spans: Seq<Span>,
    flags: Seq<(int, int)>,
    lines: Seq<LineModel>,
    n: int,
    k: int,
)
    requires
        0 <= k < n <= lines.len(),
        line_rows(bytes, runs, spans, flags, lines, n) is Some,
    ensures
        line_segments(bytes, runs, spans, flags, lines[k].start, lines[k].end) is Some,
        line_rows(bytes, runs, spans, flags, lines, n)->0[k] == (RowModel::CodeLine {
            line_number: lines[k].line_number,
            is_context: lines[k].kind == LineKind::Context,
            segments: line_segments(
                bytes,
                runs,
                spans,
                flags,
                lines[k].start,
                lines[k].end,
            )->0,
        }),
    decreases n,
{
    law_one_row_for_each_line(bytes, runs, spans, flags, lines, n - 1);
    if k < n - 1 {
        law_lines_have_rows(bytes, runs, spans, flags, lines, n - 1, k);
        assert(line_rows(bytes, runs, spans, flags, lines, n)->0[k] == line_rows(
            bytes,
            runs,
            spans,
            flags,
            lines,
            n - 1,
        )->0[k]);
    }
}

/// The rows begin with how many occurrences there are.
pub proof fn law_rows_begin_with_summary(
    state: AppState,
    group_id: i64,
    occurrences: Seq<OccurrenceView>,
    sources: Seq<Option<String>>,
    hints: Seq<Option<String>>,
    blames: Seq<BlameFields>,
)
    ensures
        rows_upto(state, group_id, occurrences, sources, hints, blames, 0) == Some(
            seq![RowModel::Summary(dec(occurrences.len()) + " occurrences"@)],
        ),
{
}

/// One more occurrence adds its rows at the end: its head, which names it, says
/// whether it is checked and what is known of its last change; and unless it is
/// collapsed, a gap before the head, except before the first one, and its code
/// behind it, or that this could not be read.
pub proof fn law_occurrences_have_rows(
    state: AppState,
    group_id: i64,
    occurrences: Seq<OccurrenceView>,
    sources: Seq<Option<String>>,
    hints: Seq<Option<String>>,
    blames: Seq<BlameFields>,
    n: int,
)
    requires
        0 <= n < occurrences.len(),
        rows_upto(state, group_id, occurrences, sources, hints, blames, n + 1) is Some,
    ensures
        ({
            let before = rows_upto(state, group_id, occurrences, sources, hints, blames, n);
            let after = rows_upto(state, group_id, occurrences, sources, hints, blames, n + 1)->0;
            let head = RowModel::OccurrenceHeader {
                group_id,
                occ_idx: n,
                label: occurrence_label(occurrences[n]@),
                checked: state.selected_occurrence_indices@.contains((group_id, n as usize)),
                path: occurrences[n].path@,
                blame_overlay: opt_chars(blames[n].0),
                blame_tooltip: opt_chars(blames[n].1),
            };
            let collapsed = state.collapsed_occurrences@.contains((group_id, n as usize));
            &&& before is Some
            &&& collapsed ==> after == before->0 + seq![head]
            &&& !collapsed && sources[n] is None && n == 0 ==> after == before->0 + seq![
                head,
                RowModel::Unavailable,
            ]
            &&& !collapsed && sources[n] is None && n > 0 ==> after == before->0 + seq![
                RowModel::Gap,
                head,
                RowModel::Unavailable,
            ]
            &&& !collapsed && sources[n] is Some ==> {
                let source = sources[n]->0@;
                let lines = window(
                    encode_utf8(source),
                    pane_line(occurrences[n].start_line),
                    pane_line(occurrences[n].end_line),
                    state.detail_config.context_lines as int,
                ).lines;
                let code = line_rows(
                    encode_utf8(source),
                    highlight_runs(source, opt_chars(hints[n])),
                    spans_in_order(
                        occurrences[n].alpha_rename_spans@,
                        occurrences[n].alpha_rename_spans@.len() as int,
                    ),
                    flags_of(occurrences, sources, n),
                    lines,
                    lines.len() as int,
                );
                &&& code is Some
                &&& n == 0 ==> after == before->0 + seq![head] + code->0
                &&& n > 0 ==> after == before->0 + seq![RowModel::Gap, head] + code->0
            }
        }),
{
    let before = rows_upto(state, group_id, occurrences, sources, hints, blames, n)->0;
    let after = rows_upto(state, group_id, occurrences, sources, hints, blames, n + 1)->0;
    let head = header_row(state, group_id, occurrences, blames, n);
    assert(Seq::<RowModel>::empty().push(head) =~= seq![head]);
    assert(seq![RowModel::Gap].push(head) =~= seq![RowModel::Gap, head]);
    assert(seq![head] + seq![RowModel::Unavailable] =~= seq![head, RowModel::Unavailable]);
    assert(seq![RowModel::Gap, head] + seq![RowModel::Unavailable] =~= seq![
        RowModel::Gap,
        head,
        RowModel::Unavailable,
    ]);
    if !state.collapsed_occurrences@.contains((group_id, n as usize)) {
        let body = body_rows(state, occurrences, sources, hints, n)->0;
        if n == 0 {
            assert(after =~= before + seq![head] + body);
        } else {
            assert(after =~= before + seq![RowModel::Gap, head] + body);
        }
    }
}

/// Kept rows are taken only where they were kept under the same key.
pub proof fn law_other_rows_are_not_taken(state: AppState, key: DetailRowsCacheKey)
    ensures
        kept_rows(state, key) is Some <==> state.detail_rows_cache is Some
            && state.detail_rows_cache->0.key == key,
        kept_rows(state, key) is Some ==> kept_rows(state, key)->0
            == state.detail_rows_cache->0.rows,
{
}

/// Where no place of the source lies within a character, as in plain ASCII text,
/// every line has its segments.
pub proof fn law_uncut_lines_have_segments(
    bytes: Seq<u8>,
    runs: Seq<HighlightedRun>,
    spans: Seq<Span>,
    flags: Seq<(int, int)>,
    start: int,
    end: int,
)
    requires
        0 <= start <= end <= bytes.len(),
        runs_cover(runs, bytes.len() as int),
        forall|a: int, b: int|
            0 <= a <= b <= bytes.len() ==> (#[trigger] text_in(bytes, a, b)) is Some,
    ensures
        line_segments(bytes, runs, spans, flags, start, end) is Some,
{
    if start < end {
        lemma_uncut_runs(bytes, runs, 0, spans, overlaps(flags, start, end), start, end);
    }
}

/// The runs from `i` on have their segments.
proof fn lemma_uncut_runs(
    bytes: Seq<u8>,
    runs: Seq<HighlightedRun>,
    i: int,
    spans: Seq<Span>,
    is_diff: bool,
    start: int,
    end: int,
)
    requires
        0 <= start < end <= bytes.len(),
        0 <= i <= runs.len(),
        runs_cover(runs, bytes.len() as int),
        forall|a: int, b: int|
            0 <= a <= b <= bytes.len() ==> (#[trigger] text_in(bytes, a, b)) is Some,
    ensures
        run_segments(bytes, runs, i, spans, is_diff, start, end) is Some,
    decreases runs.len() - i,
{
    if i < runs.len() {
        lemma_uncut_runs(bytes, runs, i + 1, spans, is_diff, start, end);
        let run = runs[i];
        let low = larger(run.start as int, start);
        let high = smaller(run.end as int, end);
        if run.end > start && run.start < end {
            let pieces = tint_pieces(low, high, spans);
            law_pieces_cover_run(low, high, spans);
            lemma_pieces_ascend(pieces, low, high);
            lemma_uncut_pieces(bytes, pieces, 0, run.kind.rgb(), is_diff);
        }
    }
}

/// The pieces from `i` on have their segments.
proof fn lemma_uncut_pieces(
    bytes: Seq<u8>,
    pieces: Seq<PieceModel>,
    i: int,
    fg_color: u32,
    is_diff: bool,
)
    requires
        0 <= i <= pieces.len(),
        forall|k: int|
            0 <= k < pieces.len() ==> 0 <= (#[trigger] pieces[k]).start <= pieces[k].end
                && pieces[k].end <= bytes.len(),
        forall|a: int, b: int|
            0 <= a <= b <= bytes.len() ==> (#[trigger] text_in(bytes, a, b)) is Some,
    ensures
        piece_segments(bytes, pieces, i, fg_color, is_diff) is Some,
    decreases pieces.len() - i,
{
    if i < pieces.len() {
        lemma_uncut_pieces(bytes, pieces, i + 1, fg_color, is_diff);
        let p = pieces[i];
        assert(text_in(bytes, p.start, p.end) is Some);
    }
}

/// Lines have rows where each of them has segments.
pub proof fn law_rows_of_lines_are_there(
    bytes: Seq<u8>,
    runs: Seq<HighlightedRun>,
    spans: Seq<Span>,
    flags: Seq<(int, int)>,
    lines: Seq<LineModel>,
    n: int,
)
    requires
        0 <= n <= lines.len(),
        forall|k: int|
            0 <= k < n ==> line_segments(
                bytes,
                runs,
                spans,
                flags,
                (#[trigger] lines[k]).start,
                lines[k].end,
            ) is Some,
    ensures
        line_rows(bytes, runs, spans, flags, lines, n) is Some,
    decreases n,
{
    if n > 0 {
        law_rows_of_lines_are_there(bytes, runs, spans, flags, lines, n - 1);
        let last = lines[n - 1];
    }
}

/// An occurrence that is collapsed, or that could not be read, adds its rows
/// whatever it holds, and so does every other one whose lines have rows.
pub proof fn law_rows_are_there(
    state: AppState,
    group_id: i64,
    occurrences: Seq<OccurrenceView>,
    sources: Seq<Option<String>>,
    hints: Seq<Option<String>>,
    blames: Seq<BlameFields>,
    n: int,
)
    requires
        0 <= n < occurrences.len(),
        rows_upto(state, group_id, occurrences, sources, hints, blames, n) is Some,
        state.collapsed_occurrences@.contains((group_id, n as usize)) || sources[n] is None || {
            let source = sources[n]->0@;
            let lines = window(
                encode_utf8(source),
                pane_line(occurrences[n].start_line),
                pane_line(occurrences[n].end_line),
                state.detail_config.context_lines as int,
            ).lines;
            line_rows(
                encode_utf8(source),
                highlight_runs(source, opt_chars(hints[n])),
                spans_in_order(
                    occurrences[n].alpha_rename_spans@,
                    occurrences[n].alpha_rename_spans@.len() as int,
                ),
                flags_of(occurrences, sources, n),
                lines,
                lines.len() as int,
            ) is Some
        },
    ensures
        rows_upto(state, group_id, occurrences, sources, hints, blames, n + 1) is Some,
{
}

} // verus!
