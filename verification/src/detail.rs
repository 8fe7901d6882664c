//! The window of source lines that the detail pane shows of an occurrence.
use std::ops::Range;
use vstd::prelude::*;
use vstd::string::*;

verus! {

/// The byte of a line feed.
pub open spec fn is_feed(b: u8) -> bool {
    b == 0x0a
}

/// The offsets at which lines begin: zero, and behind every line feed.
pub open spec fn line_begins(bytes: Seq<u8>) -> Seq<int>
    decreases bytes.len(),
{
    if bytes.len() == 0 {
        seq![0int]
    } else if is_feed(bytes.last()) {
        line_begins(bytes.drop_last()).push(bytes.len() as int)
    } else {
        line_begins(bytes.drop_last())
    }
}

/// The offsets at which lines begin, and then the length of the source.
pub open spec fn line_bounds(bytes: Seq<u8>) -> Seq<int> {
    line_begins(bytes).push(bytes.len() as int)
}

/// The numbers of a list of offsets.
pub open spec fn offsets(list: Seq<usize>) -> Seq<int> {
    Seq::new(list.len(), |i: int| list[i] as int)
}

/// The byte offsets at which the lines of a source begin, with the length of
/// the source as the last entry, so that line `n`, counted from one, spans the
/// bytes from entry `n - 1` to entry `n`, its line feed included. A source
/// that ends in a line feed has an empty line behind it, and an empty source
/// has one empty line.
pub fn line_starts(source: &str) -> (r: Vec<usize>)
    ensures
        offsets(r@) == line_bounds(source.spec_bytes()),
{
    let bytes: &[u8] = source.as_bytes();
    let mut out: Vec<usize> = Vec::new();
    out.push(0);
    let mut i: usize = 0;
    assert(offsets(out@) =~= line_begins(bytes@.take(0)));
    while i < bytes.len()
        invariant
            i <= bytes.len(),
            offsets(out@) == line_begins(bytes@.take(i as int)),
        decreases bytes.len() - i,
    {
        let ghost before = offsets(out@);
        assert(bytes@.take(i + 1).drop_last() =~= bytes@.take(i as int));
        if bytes[i] == 0x0a {
            out.push(i + 1);
            assert(offsets(out@) =~= before.push(i + 1));
        }
        i += 1;
    }
    assert(bytes@.take(i as int) =~= bytes@);
    let ghost before = offsets(out@);
    out.push(bytes.len());
    assert(offsets(out@) =~= before.push(bytes.len() as int));
    out
}

/// The part of a line in its window.
#[derive(Debug, Clone, Copy, PartialEq, Eq, Structural)]
pub enum LineKind {
    /// A line before or behind the duplicate.
    Context,
    /// A line of the duplicate itself.
    Focus,
}

/// One line of a window.
#[derive(Debug, PartialEq, Eq)]
pub struct ContextLine {
    /// Number of the line in its file, counted from one.
    pub line_number: u32,
    /// Bytes of the line in its file, without the line feed.
    pub byte_range: Range<usize>,
    /// Whether the line is part of the duplicate.
    pub kind: LineKind,
}

/// What a [`ContextLine`] stands for.
pub struct LineModel {
    pub line_number: int,
    pub start: int,
    pub end: int,
    pub kind: LineKind,
}

impl View for ContextLine {
    type V = LineModel;

    open spec fn view(&self) -> LineModel {
        LineModel {
            line_number: self.line_number as int,
            start: self.byte_range.start as int,
            end: self.byte_range.end as int,
            kind: self.kind,
        }
    }
}

impl Clone for ContextLine {
    fn clone(&self) -> (r: Self)
        ensures
            r@ == self@,
    {
        ContextLine {
            line_number: self.line_number,
            byte_range: self.byte_range.start..self.byte_range.end,
            kind: self.kind,
        }
    }
}

/// The lines around a duplicate, top to bottom.
#[derive(Debug, Clone, PartialEq, Eq)]
pub struct ContextualSlice {
    pub lines: Vec<ContextLine>,
    /// Number of the first line.
    pub first_line: u32,
    /// Number of the last line.
    pub last_line: u32,
    /// Number of the first line of the duplicate.
    pub focus_start: u32,
    /// Number of the last line of the duplicate.
    pub focus_end: u32,
}

/// What a [`ContextualSlice`] stands for.
pub struct SliceModel {
    pub lines: Seq<LineModel>,
    pub first_line: int,
    pub last_line: int,
    pub focus_start: int,
    pub focus_end: int,
}

impl View for ContextualSlice {
    type V = SliceModel;

    open spec fn view(&self) -> SliceModel {
        SliceModel {
            lines: Seq::new(self.lines@.len(), |i: int| self.lines@[i]@),
            first_line: self.first_line as int,
            last_line: self.last_line as int,
            focus_start: self.focus_start as int,
            focus_end: self.focus_end as int,
        }
    }
}

/// How many lines a source has, or the largest line number where it has more.
/// The empty line behind a final line feed does not count.
pub open spec fn total_lines(bytes: Seq<u8>) -> int {
    let n = line_begins(bytes).len() as int;
    smaller(
        if bytes.len() > 0 && is_feed(bytes.last()) && n > 1 {
            n - 1
        } else {
            n
        },
        u32::MAX as int,
    )
}

/// `x`, moved into `low..=high`; `low` is moved no further than `high`.
pub open spec fn clamped(x: int, low: int, high: int) -> int {
    let y = if x < low {
        low
    } else {
        x
    };
    if y > high {
        high
    } else {
        y
    }
}

/// The smaller of two numbers.
pub open spec fn smaller(a: int, b: int) -> int {
    if a <= b {
        a
    } else {
        b
    }
}

/// The larger of two numbers.
pub open spec fn larger(a: int, b: int) -> int {
    if a >= b {
        a
    } else {
        b
    }
}

/// The first line of the duplicate, moved into the file.
pub open spec fn focus_first(bytes: Seq<u8>, a: int, b: int) -> int {
    smaller(clamped(a, 1, total_lines(bytes)), clamped(b, 1, total_lines(bytes)))
}

/// The last line of the duplicate, moved into the file.
pub open spec fn focus_last(bytes: Seq<u8>, a: int, b: int) -> int {
    larger(clamped(a, 1, total_lines(bytes)), clamped(b, 1, total_lines(bytes)))
}

/// The bytes of line `n`, counted from one, without its line feed.
pub open spec fn line_range(bytes: Seq<u8>, n: int) -> (int, int) {
    let low = line_bounds(bytes)[n - 1];
    let high = line_bounds(bytes)[n];
    if high > low && is_feed(bytes[high - 1]) {
        (low, high - 1)
    } else {
        (low, high)
    }
}

/// The line with number `n` in the window of a duplicate.
pub open spec fn window_line(bytes: Seq<u8>, a: int, b: int, n: int) -> LineModel {
    LineModel {
        line_number: n,
        start: line_range(bytes, n).0,
        end: line_range(bytes, n).1,
        kind: if focus_first(bytes, a, b) <= n <= focus_last(bytes, a, b) {
            LineKind::Focus
        } else {
            LineKind::Context
        },
    }
}

/// The window of a duplicate on the lines `a..=b`, in either order, with the
/// given number of lines around it, as far as the file has them.
pub open spec fn window(bytes: Seq<u8>, a: int, b: int, context: int) -> SliceModel {
    let fs = focus_first(bytes, a, b);
    let fe = focus_last(bytes, a, b);
    let first = larger(fs - context, 1);
    let last = smaller(fe + context, total_lines(bytes));
    SliceModel {
        lines: Seq::new(
            (last - first + 1) as nat,
            |i: int| window_line(bytes, a, b, first + i),
        ),
        first_line: first,
        last_line: last,
        focus_start: fs,
        focus_end: fe,
    }
}

/// The lines around the lines `start_line..=end_line` of a source, counted from
/// one. Line numbers outside the file are moved into it.
pub fn extract_with_context(
    source: &str,
    start_line: u32,
    end_line: u32,
    context: usize,
) -> (r: ContextualSlice)
    ensures
        r@ == window(source.spec_bytes(), start_line as int, end_line as int, context as int),
{
    let starts: Vec<usize> = line_starts(source);
    let bytes: &[u8] = source.as_bytes();
    let ghost bounds = line_bounds(bytes@);
    proof {
        lemma_bounds(bytes@);
    }
    let mut count: u64 = (starts.len() - 1) as u64;
    if bytes.len() > 0 && bytes[bytes.len() - 1] == 0x0a && count > 1 {
        count -= 1;
    }
    let total: u32 = if count > u32::MAX as u64 {
        u32::MAX
    } else {
        count as u32
    };
    assert(total == total_lines(bytes@));
    let mut fs: u32 = start_line;
    if fs < 1 {
        fs = 1;
    }
    if fs > total {
        fs = total;
    }
    let mut fe: u32 = end_line;
    if fe < 1 {
        fe = 1;
    }
    if fe > total {
        fe = total;
    }
    if fs > fe {
        let other: u32 = fs;
        fs = fe;
        fe = other;
    }
    let around: u32 = if context as u64 > u32::MAX as u64 {
        u32::MAX
    } else {
        context as u32
    };
    let mut first: u32 = fs.saturating_sub(around);
    if first < 1 {
        first = 1;
    }
    let mut last: u32 = fe.saturating_add(around);
    if last > total {
        last = total;
    }
    let ghost whole = window(bytes@, start_line as int, end_line as int, context as int);
    assert(first == whole.first_line);
    assert(last == whole.last_line);
    let mut lines: Vec<ContextLine> = Vec::new();
    let mut n: u32 = first;
    let mut more: bool = true;
    while more
        invariant
            more ==> first <= n <= last,
            !more ==> lines@.len() == last - first + 1,
            more ==> lines@.len() == n - first,
            1 <= first <= fs <= fe <= last <= total,
            total <= starts@.len() - 1,
            bounds == line_bounds(bytes@),
            offsets(starts@) == bounds,
            bytes@ == source.spec_bytes(),
            fs == focus_first(bytes@, start_line as int, end_line as int),
            fe == focus_last(bytes@, start_line as int, end_line as int),
            forall|i: int, j: int|
                0 <= i <= j < bounds.len() ==> 0 <= #[trigger] bounds[i] <= #[trigger] bounds[j],
            forall|i: int| 0 <= i < bounds.len() ==> #[trigger] bounds[i] <= bytes@.len(),
            forall|i: int|
                0 <= i < lines@.len() ==> (#[trigger] lines@[i])@ == window_line(
                    bytes@,
                    start_line as int,
                    end_line as int,
                    first + i,
                ),
        decreases
                if more {
                    last - n + 1
                } else {
                    0int
                },
    {
        let low: usize = starts[(n - 1) as usize];
        let above: usize = starts[n as usize];
        assert(low == offsets(starts@)[n - 1]);
        assert(above == offsets(starts@)[n as int]);
        assert(bounds[n - 1] <= bounds[n as int]);
        let high: usize = if above > low && bytes[above - 1] == 0x0a {
            above - 1
        } else {
            above
        };
        let kind: LineKind = if n >= fs && n <= fe {
            LineKind::Focus
        } else {
            LineKind::Context
        };
        lines.push(ContextLine { line_number: n, byte_range: low..high, kind });
        if n == last {
            more = false;
        } else {
            n += 1;
        }
    }
    let r = ContextualSlice {
        lines,
        first_line: first,
        last_line: last,
        focus_start: fs,
        focus_end: fe,
    };
    assert(r@.lines =~= whole.lines);
    r
}

/// The bounds of lines come in order and lie within the source.
pub proof fn lemma_bounds(bytes: Seq<u8>)
    ensures
        line_begins(bytes).len() >= 1,
        forall|i: int, j: int|
            0 <= i <= j < line_bounds(bytes).len() ==> 0 <= #[trigger] line_bounds(bytes)[i]
                <= #[trigger] line_bounds(bytes)[j],
        forall|i: int|
            0 <= i < line_bounds(bytes).len() ==> #[trigger] line_bounds(bytes)[i] <= bytes.len(),
        line_bounds(bytes)[0] == 0,
    decreases bytes.len(),
{
    if bytes.len() > 0 {
        let before = bytes.drop_last();
        lemma_bounds(before);
        let b = line_begins(before);
        assert forall|i: int| 0 <= i < b.len() implies b[i] == line_bounds(before)[i] by {}
        assert forall|i: int, j: int|
            0 <= i <= j < line_bounds(bytes).len() implies 0 <= #[trigger] line_bounds(bytes)[i]
            <= #[trigger] line_bounds(bytes)[j] by {
            if j < b.len() {
                assert(line_bounds(before)[i] <= line_bounds(before)[j]);
            } else if i < b.len() {
                assert(0 <= line_bounds(before)[i] <= before.len());
            }
        }
    }
}

/// The bytes of a line hold no line feed.
pub proof fn law_lines_hold_no_feed(bytes: Seq<u8>, n: int, k: int)
    requires
        1 <= n <= line_begins(bytes).len(),
        line_range(bytes, n).0 <= k < line_range(bytes, n).1,
    ensures
        !is_feed(bytes[k]),
{
    lemma_bounds(bytes);
    if is_feed(bytes[k]) {
        lemma_feed_ends_line(bytes, n, k);
    }
}

/// Within a line, a line feed can only be the last byte.
proof fn lemma_feed_ends_line(bytes: Seq<u8>, n: int, k: int)
    requires
        1 <= n <= line_begins(bytes).len(),
        line_bounds(bytes)[n - 1] <= k < line_bounds(bytes)[n],
        is_feed(bytes[k]),
    ensures
        k == line_bounds(bytes)[n] - 1,
    decreases bytes.len(),
{
    lemma_bounds(bytes);
    let before = bytes.drop_last();
    lemma_bounds(before);
    let b = line_begins(before);
    if k == bytes.len() - 1 {
        assert(line_bounds(bytes)[n] <= bytes.len());
    } else {
        assert(before[k] == bytes[k]);
        if n < b.len() {
            assert(line_bounds(before)[n] == line_bounds(bytes)[n]);
            assert(line_bounds(before)[n - 1] == line_bounds(bytes)[n - 1]);
            lemma_feed_ends_line(before, n, k);
        } else if n == b.len() {
            assert(line_bounds(before)[n - 1] == line_bounds(bytes)[n - 1]);
            assert(line_bounds(before)[n] == before.len());
            lemma_feed_ends_line(before, n, k);
            lemma_feed_opens_line(before);
        } else {
            assert(line_bounds(bytes)[n - 1] == bytes.len());
        }
    }
}

/// Behind a final line feed a line begins.
proof fn lemma_feed_opens_line(bytes: Seq<u8>)
    requires
        bytes.len() > 0,
        is_feed(bytes.last()),
    ensures
        line_begins(bytes).last() == bytes.len(),
{
}

/// The duplicate lies within its window, and the window within the file.
pub proof fn law_window_holds_focus(bytes: Seq<u8>, a: int, b: int, context: int)
    requires
        context >= 0,
    ensures
        ({
            let w = window(bytes, a, b, context);
            1 <= w.first_line <= w.focus_start <= w.focus_end <= w.last_line <= total_lines(bytes)
        }),
{
    lemma_bounds(bytes);
}

/// The two ends of a duplicate may be given in either order.
pub proof fn law_window_is_symmetric(bytes: Seq<u8>, a: int, b: int, context: int)
    ensures
        window(bytes, a, b, context) == window(bytes, b, a, context),
{
    let v = window(bytes, a, b, context);
    let w = window(bytes, b, a, context);
    assert(v.lines =~= w.lines);
}

/// Where the lines of a source begin: at its start and behind its line feeds,
/// the `n`th behind `n` of them.
proof fn lemma_begins(bytes: Seq<u8>, n: int)
    requires
        0 <= n < line_begins(bytes).len(),
    ensures
        line_begins(bytes).len() == bytes.filter(|b: u8| b == 0x0a).len() + 1,
        0 <= line_begins(bytes)[n] <= bytes.len(),
        line_begins(bytes)[n] == 0 || bytes[line_begins(bytes)[n] - 1] == 0x0a,
        bytes.take(line_begins(bytes)[n]).filter(|b: u8| b == 0x0a).len() == n,
    decreases bytes.len(),
{
    reveal(Seq::filter);
    if bytes.len() > 0 {
        let before = bytes.drop_last();
        let b = line_begins(before);
        if n < b.len() {
            lemma_begins(before, n);
            assert(before.take(b[n]) =~= bytes.take(b[n]));
        } else {
            lemma_bounds(before);
            lemma_begins(before, 0);
            assert(bytes.take(bytes.len() as int) =~= bytes);
        }
    } else {
        assert(bytes.take(0) =~= bytes);
    }
}

/// Line `n` is what lies behind `n - 1` line feeds: it begins at the start of
/// the source or behind a line feed, ends before a line feed or at the end, and
/// holds none.
pub proof fn law_lines_lie_between_feeds(bytes: Seq<u8>, n: int)
    requires
        1 <= n <= bytes.filter(|b: u8| b == 0x0a).len() + 1,
    ensures
        ({
            let (low, high) = line_range(bytes, n);
            &&& 0 <= low <= high <= bytes.len()
            &&& low == 0 || bytes[low - 1] == 0x0a
            &&& high == bytes.len() || bytes[high] == 0x0a
            &&& forall|k: int| low <= k < high ==> #[trigger] bytes[k] != 0x0a
            &&& bytes.take(low).filter(|b: u8| b == 0x0a).len() == n - 1
        }),
{
    lemma_bounds(bytes);
    lemma_begins(bytes, 0);
    lemma_begins(bytes, n - 1);
    let (low, high) = line_range(bytes, n);
    let bounds = line_bounds(bytes);
    assert(bounds[n - 1] <= bounds[n]);
    if n < line_begins(bytes).len() {
        lemma_begins(bytes, n);
        assert(bounds[n] == line_begins(bytes)[n]);
        if bounds[n] == bounds[n - 1] {
            assert(bytes.take(bounds[n]) == bytes.take(bounds[n - 1]));
        }
        assert(bounds[n] > 0);
    } else {
        assert(bounds[n] == bytes.len());
        if low < bytes.len() && is_feed(bytes.last()) {
            lemma_feed_opens_line(bytes);
        }
    }
    assert forall|k: int| low <= k < high implies #[trigger] bytes[k] != 0x0a by {
        law_lines_hold_no_feed(bytes, n, k);
    }
}

/// A source has as many lines as it has line feeds, and one more where
/// something, or nothing at all, stands behind the last one. No more are counted
/// than the largest line number.
pub proof fn law_lines_are_counted(bytes: Seq<u8>)
    ensures
        ({
            let feeds = bytes.filter(|b: u8| b == 0x0a).len() as int;
            let count = if bytes.len() > 0 && bytes.last() == 0x0a {
                feeds
            } else {
                feeds + 1
            };
            total_lines(bytes) == if count <= u32::MAX {
                count
            } else {
                u32::MAX as int
            }
        }),
        1 <= total_lines(bytes) <= bytes.filter(|b: u8| b == 0x0a).len() + 1,
{
    reveal(Seq::filter);
    lemma_bounds(bytes);
    lemma_begins(bytes, 0);
    if bytes.len() > 0 && bytes.last() == 0x0a {
        assert(bytes.filter(|b: u8| b == 0x0a).len() > 0);
    }
}

/// The window of a duplicate on lines that the file has is these lines and as
/// many around them as were asked for and the file has, top to bottom, and
/// exactly the lines of the duplicate are marked as its own.
pub proof fn law_window_is_around(bytes: Seq<u8>, a: int, b: int, context: int)
    requires
        1 <= a <= b <= total_lines(bytes),
        context >= 0,
    ensures
        ({
            let w = window(bytes, a, b, context);
            &&& w.focus_start == a && w.focus_end == b
            &&& w.first_line == if a - context > 1 {
                a - context
            } else {
                1
            }
            &&& w.last_line == if b + context < total_lines(bytes) {
                b + context
            } else {
                total_lines(bytes)
            }
            &&& w.lines.len() == w.last_line - w.first_line + 1
            &&& forall|i: int|
                0 <= i < w.lines.len() ==> {
                    let n = w.first_line + i;
                    &&& (#[trigger] w.lines[i]).line_number == n
                    &&& (w.lines[i].start, w.lines[i].end) == line_range(bytes, n)
                    &&& w.lines[i].kind == LineKind::Focus <==> a <= n <= b
                }
        }),
{
}

/// Lines that the file does not have are moved to its nearest line.
pub proof fn law_window_is_moved_into_file(bytes: Seq<u8>, a: int, b: int, context: int)
    ensures
        a < 1 ==> window(bytes, a, b, context) == window(bytes, 1, b, context),
        a > total_lines(bytes) ==> window(bytes, a, b, context) == window(
            bytes,
            total_lines(bytes),
            b,
            context,
        ),
{
    law_lines_are_counted(bytes);
    let v = window(bytes, a, b, context);
    let low = window(bytes, 1, b, context);
    let high = window(bytes, total_lines(bytes), b, context);
    if a < 1 {
        assert(v.lines =~= low.lines);
    }
    if a > total_lines(bytes) {
        assert(v.lines =~= high.lines);
    }
}

} // verus!
