//! Syntax highlighting for the detail pane.
//!
//! Rust, TypeScript, TSX and Python sources are highlighted by tree-sitter;
//! every other language that syntect knows is highlighted by syntect. Capture
//! names and scopes both map to one small set of buckets, so that the two look
//! the same.
use crate::paths::{extension, extension_of};
use crate::profile::{texts, Grammar};
use crate::text::{
    before_first, begins_with, chars_of, full_lines, head, lemma_before_first, lemma_encode_concat, lines_with_ends,
    lower, same_text, starts, string_models, to_lower,
};
use vstd::prelude::*;
use vstd::string::*;
use vstd::utf8::*;

verus! {

/// The bucket that a stretch of source text is painted as.
#[derive(Debug, Clone, Copy, PartialEq, Eq, Structural)]
pub enum Highlight {
    Keyword,
    Function,
    Type,
    String,
    Comment,
    Number,
    Punctuation,
    Variable,
    Constant,
    Attribute,
    Default,
}

/// A stretch of source bytes and its bucket. Neighbours in a list of runs have
/// different buckets.
#[derive(Debug, Clone, Copy, PartialEq, Eq, Structural)]
pub struct HighlightedRun {
    pub start: usize,
    pub end: usize,
    pub kind: Highlight,
}

impl Highlight {
    /// The color of a bucket, as 0xRRGGBB.
    pub open spec fn rgb(self) -> u32 {
        match self {
            Highlight::Keyword => 0xc586c0,
            Highlight::Function => 0xdcdcaa,
            Highlight::Type => 0x4ec9b0,
            Highlight::String => 0xce9178,
            Highlight::Comment => 0x6a9955,
            Highlight::Number => 0xb5cea8,
            Highlight::Punctuation => 0x9a9aa2,
            Highlight::Variable => 0x9cdcfe,
            Highlight::Constant => 0x569cd6,
            Highlight::Attribute => 0xd7ba7d,
            Highlight::Default => 0xd4d4d4,
        }
    }

    /// The color of a bucket, as 0xRRGGBB.
    pub fn color(self) -> (r: u32)
        ensures
            r == self.rgb(),
    {
        match self {
            Highlight::Keyword => 0xc586c0,
            Highlight::Function => 0xdcdcaa,
            Highlight::Type => 0x4ec9b0,
            Highlight::String => 0xce9178,
            Highlight::Comment => 0x6a9955,
            Highlight::Number => 0xb5cea8,
            Highlight::Punctuation => 0x9a9aa2,
            Highlight::Variable => 0x9cdcfe,
            Highlight::Constant => 0x569cd6,
            Highlight::Attribute => 0xd7ba7d,
            Highlight::Default => 0xd4d4d4,
        }
    }
}

/// The color of a bucket, as 0xRRGGBB.
pub fn theme_color(kind: Highlight) -> (r: u32)
    ensures
        r == kind.rgb(),
{
    kind.color()
}

/// Every bucket has a color of its own, and none is black.
pub proof fn law_colors_are_distinct(a: Highlight, b: Highlight)
    ensures
        a.rgb() != 0,
        a.rgb() == b.rgb() ==> a == b,
{
}

// ---------------------------------------------------------------------------
// Capture names
// ---------------------------------------------------------------------------
/// The capture names that the highlighter is asked to recognize.
pub open spec fn capture_names() -> Seq<Seq<char>> {
    seq![
        "string"@,
        "string.special"@,
        "string.regexp"@,
        "string.escape"@,
        "escape"@,
        "number"@,
        "boolean"@,
        "constant"@,
        "constant.builtin"@,
        "constructor"@,
        "function"@,
        "function.builtin"@,
        "function.method"@,
        "function.macro"@,
        "variable"@,
        "variable.builtin"@,
        "variable.parameter"@,
        "variable.member"@,
        "property"@,
        "label"@,
        "type"@,
        "type.builtin"@,
        "keyword"@,
        "operator"@,
        "punctuation"@,
        "punctuation.bracket"@,
        "punctuation.delimiter"@,
        "punctuation.special"@,
        "comment"@,
        "comment.documentation"@,
        "attribute"@,
        "tag"@,
    ]
}

/// The capture names that the highlighter is asked to recognize. Its answers
/// are indices into this list.
fn highlight_names() -> (r: Vec<&'static str>)
    ensures
        texts(r@) == capture_names(),
{
    let r: Vec<&'static str> = vec![
        "string",
        "string.special",
        "string.regexp",
        "string.escape",
        "escape",
        "number",
        "boolean",
        "constant",
        "constant.builtin",
        "constructor",
        "function",
        "function.builtin",
        "function.method",
        "function.macro",
        "variable",
        "variable.builtin",
        "variable.parameter",
        "variable.member",
        "property",
        "label",
        "type",
        "type.builtin",
        "keyword",
        "operator",
        "punctuation",
        "punctuation.bracket",
        "punctuation.delimiter",
        "punctuation.special",
        "comment",
        "comment.documentation",
        "attribute",
        "tag",
    ];
    assert(texts(r@) =~= capture_names());
    r
}

/// The bucket of a capture name, by the part before its first dot.
pub open spec fn capture_kind(name: Seq<char>) -> Highlight {
    let h = before_first(name, '.');
    if h == "keyword"@ || h == "operator"@ {
        Highlight::Keyword
    } else if h == "function"@ || h == "constructor"@ {
        Highlight::Function
    } else if h == "type"@ {
        Highlight::Type
    } else if h == "string"@ || h == "escape"@ {
        Highlight::String
    } else if h == "comment"@ {
        Highlight::Comment
    } else if h == "number"@ {
        Highlight::Number
    } else if h == "punctuation"@ || h == "tag"@ {
        Highlight::Punctuation
    } else if h == "boolean"@ || h == "constant"@ {
        Highlight::Constant
    } else if h == "attribute"@ {
        Highlight::Attribute
    } else if h == "variable"@ || h == "property"@ || h == "label"@ {
        Highlight::Variable
    } else {
        Highlight::Default
    }
}

/// The bucket of the capture name with an index; an index outside the list has
/// the bucket of the empty name.
pub open spec fn index_kind(names: Seq<Seq<char>>, idx: int) -> Highlight {
    if 0 <= idx < names.len() {
        capture_kind(names[idx])
    } else {
        Highlight::Default
    }
}

/// The bucket of a capture name.
pub fn capture_str_to_highlight(name: &str) -> (r: Highlight)
    ensures
        r == capture_kind(name@),
{
    let h: &str = head(name, '.');
    if same_text(h, "keyword") || same_text(h, "operator") {
        Highlight::Keyword
    } else if same_text(h, "function") || same_text(h, "constructor") {
        Highlight::Function
    } else if same_text(h, "type") {
        Highlight::Type
    } else if same_text(h, "string") || same_text(h, "escape") {
        Highlight::String
    } else if same_text(h, "comment") {
        Highlight::Comment
    } else if same_text(h, "number") {
        Highlight::Number
    } else if same_text(h, "punctuation") || same_text(h, "tag") {
        Highlight::Punctuation
    } else if same_text(h, "boolean") || same_text(h, "constant") {
        Highlight::Constant
    } else if same_text(h, "attribute") {
        Highlight::Attribute
    } else if same_text(h, "variable") || same_text(h, "property") || same_text(h, "label") {
        Highlight::Variable
    } else {
        Highlight::Default
    }
}

/// The bucket of the capture name with an index.
fn capture_name_to_highlight(names: &Vec<&'static str>, idx: usize) -> (r: Highlight)
    ensures
        r == index_kind(texts(names@), idx as int),
{
    if idx < names.len() {
        assert(texts(names@)[idx as int] == names@[idx as int]@);
        capture_str_to_highlight(names[idx])
    } else {
        Highlight::Default
    }
}

// ---------------------------------------------------------------------------
// Runs
// ---------------------------------------------------------------------------
/// The runs after one more stretch: an empty one changes nothing, and one that
/// continues the last run in its bucket extends it.
pub open spec fn with_run(
    runs: Seq<HighlightedRun>,
    start: usize,
    end: usize,
    kind: Highlight,
) -> Seq<HighlightedRun> {
    if start >= end {
        runs
    } else if runs.len() > 0 && runs.last().end == start && runs.last().kind == kind {
        runs.drop_last().push(HighlightedRun { start: runs.last().start, end, kind })
    } else {
        runs.push(HighlightedRun { start, end, kind })
    }
}

/// Appends a stretch to the runs.
pub fn push_run(runs: &mut Vec<HighlightedRun>, start: usize, end: usize, kind: Highlight)
    ensures
        final(runs)@ == with_run(old(runs)@, start, end, kind),
{
    if start >= end {
        return;
    }
    let n: usize = runs.len();
    if n > 0 && runs[n - 1].end == start && runs[n - 1].kind == kind {
        let first: usize = runs[n - 1].start;
        runs.set(n - 1, HighlightedRun { start: first, end, kind });
        assert(runs@ =~= with_run(old(runs)@, start, end, kind));
    } else {
        runs.push(HighlightedRun { start, end, kind });
    }
}

/// The runs are neither empty nor out of order, each begins where the one
/// before it ends, and together they cover the bytes `0..n`.
pub open spec fn runs_cover(runs: Seq<HighlightedRun>, n: int) -> bool {
    &&& forall|i: int| 0 <= i < runs.len() ==> (#[trigger] runs[i]).start < runs[i].end
    &&& forall|i: int, j: int|
        0 <= i < runs.len() && j == i + 1 && j < runs.len() ==> (#[trigger] runs[i]).end == (
        #[trigger] runs[j]).start
    &&& if runs.len() == 0 {
        n == 0
    } else {
        runs[0].start == 0 && runs.last().end == n
    }
}

/// Neighbouring runs that touch have different buckets.
pub open spec fn runs_coalesced(runs: Seq<HighlightedRun>) -> bool {
    forall|i: int, j: int|
        0 <= i < runs.len() && j == i + 1 && j < runs.len() && (#[trigger] runs[i]).end == (
        #[trigger] runs[j]).start ==> runs[i].kind != runs[j].kind
}

/// Appending a stretch that starts where the runs end keeps them gapless.
proof fn lemma_run_covers(runs: Seq<HighlightedRun>, start: usize, end: usize, kind: Highlight)
    requires
        runs_cover(runs, start as int),
    ensures
        runs_cover(
            with_run(runs, start, end, kind),
            if start >= end {
                start as int
            } else {
                end as int
            },
        ),
{
    let next = with_run(runs, start, end, kind);
    if start < end {
        if runs.len() > 0 && runs.last().kind == kind {
            assert(next.last().end == end);
            assert(next[0].start == 0);
        } else {
            assert(next.last().end == end);
            assert(next[0].start == 0);
        }
    }
}

/// Appending a stretch never leaves two touching runs in one bucket.
proof fn lemma_run_coalesces(runs: Seq<HighlightedRun>, start: usize, end: usize, kind: Highlight)
    requires
        runs_coalesced(runs),
    ensures
        runs_coalesced(with_run(runs, start, end, kind)),
{
    let next = with_run(runs, start, end, kind);
    assert forall|i: int, j: int|
        0 <= i < next.len() && j == i + 1 && j < next.len() && (#[trigger] next[i]).end == (
        #[trigger] next[j]).start implies next[i].kind != next[j].kind by {
        if j < runs.len() - 1 {
            assert(runs[i] == next[i] && runs[j] == next[j]);
        } else if j == runs.len() - 1 {
            assert(runs[i] == next[i]);
            assert(runs[j].start == next[j].start);
            assert(runs[j].kind == next[j].kind);
        }
    }
}

/// The runs are not empty, and each begins where the one before it ends.
pub open spec fn runs_joined(runs: Seq<HighlightedRun>) -> bool {
    &&& forall|i: int| 0 <= i < runs.len() ==> (#[trigger] runs[i]).start < runs[i].end
    &&& forall|i: int, j: int|
        0 <= i < runs.len() && j == i + 1 && j < runs.len() ==> (#[trigger] runs[i]).end == (
        #[trigger] runs[j]).start
}

/// Some run paints a byte in a bucket.
pub open spec fn paints(runs: Seq<HighlightedRun>, byte: int, kind: Highlight) -> bool {
    exists|i: int|
        0 <= i < runs.len() && (#[trigger] runs[i]).start <= byte < runs[i].end && runs[i].kind
            == kind
}

/// A stretch that is appended where the runs end leaves them joined, with
/// different buckets side by side. It paints its own bytes in its bucket and no
/// others, extends the last run where that has its bucket, and changes nothing
/// where it is empty.
pub proof fn law_appending_keeps_runs(
    runs: Seq<HighlightedRun>,
    start: usize,
    end: usize,
    kind: Highlight,
)
    requires
        runs_joined(runs),
        runs_coalesced(runs),
        runs.len() > 0 ==> runs.last().end == start,
    ensures
        runs_joined(with_run(runs, start, end, kind)),
        runs_coalesced(with_run(runs, start, end, kind)),
        start >= end ==> with_run(runs, start, end, kind) == runs,
        start < end ==> {
            let next = with_run(runs, start, end, kind);
            &&& next.len() == if runs.len() > 0 && runs.last().kind == kind {
                runs.len()
            } else {
                runs.len() + 1
            }
            &&& next.last().end == end
            &&& next.last().kind == kind
            &&& next[0].start == if runs.len() > 0 {
                runs[0].start
            } else {
                start
            }
        },
        forall|byte: int, k: Highlight|
            #![trigger paints(with_run(runs, start, end, kind), byte, k)]
            paints(with_run(runs, start, end, kind), byte, k) <==> paints(runs, byte, k) || start
                <= byte < end && k == kind,
{
    let next = with_run(runs, start, end, kind);
    lemma_run_coalesces(runs, start, end, kind);
    let n = runs.len() as int;
    if start < end {
        let extends = n > 0 && runs.last().kind == kind;
        assert(forall|i: int| 0 <= i < n - 1 ==> next[i] == runs[i]);
        assert forall|byte: int, k: Highlight|
            #![trigger paints(next, byte, k)]
            paints(next, byte, k) <==> paints(runs, byte, k) || start <= byte < end && k == kind by {
            if paints(runs, byte, k) {
                let i = choose|i: int|
                    0 <= i < runs.len() && (#[trigger] runs[i]).start <= byte < runs[i].end
                        && runs[i].kind == k;
                assert(next[i].start <= byte < next[i].end && next[i].kind == k);
            }
            if start <= byte < end && k == kind {
                let i = next.len() - 1;
                assert(next[i].start <= byte < next[i].end);
            }
            if paints(next, byte, k) {
                let i = choose|i: int|
                    0 <= i < next.len() && (#[trigger] next[i]).start <= byte < next[i].end
                        && next[i].kind == k;
                if i < n - 1 || (i == n - 1 && !(extends && byte >= start)) {
                    assert(runs[i].start <= byte < runs[i].end && runs[i].kind == k);
                }
            }
        }
    }
}

/// One run in the default bucket over the whole source.
fn plain_text_fallback(source: &str) -> (r: Vec<HighlightedRun>)
    ensures
        r@ == plain_runs(source@),
{
    let r: Vec<HighlightedRun> = vec![
        HighlightedRun { start: 0, end: source.len(), kind: Highlight::Default },
    ];
    r
}

/// One run in the default bucket over the whole source.
pub open spec fn plain_runs(source: Seq<char>) -> Seq<HighlightedRun> {
    seq![
        HighlightedRun {
            start: 0,
            end: encode_utf8(source).len() as usize,
            kind: Highlight::Default,
        },
    ]
}

// ---------------------------------------------------------------------------
// tree-sitter
// ---------------------------------------------------------------------------
/// One step of the highlighter: a stretch of source, the start of a capture
/// (by the index of its name), or the end of the innermost capture.
#[derive(Debug, Clone, Copy, PartialEq, Eq, Structural)]
pub enum Step {
    Source { start: usize, end: usize },
    Start(usize),
    End,
}

/// How far the highlighter's steps have been read.
pub struct Progress {
    pub runs: Seq<HighlightedRun>,
    pub stack: Seq<Highlight>,
    pub covered: usize,
}

/// The state before the first step.
pub open spec fn no_progress() -> Progress {
    Progress { runs: Seq::empty(), stack: Seq::empty(), covered: 0 }
}

/// One step further. A stretch is painted as the innermost capture, a gap
/// before it as default.
pub open spec fn advance(names: Seq<Seq<char>>, p: Progress, step: Step) -> Progress {
    match step {
        Step::Start(idx) => Progress { stack: p.stack.push(index_kind(names, idx as int)), ..p },
        Step::End => Progress {
            stack: if p.stack.len() > 0 {
                p.stack.drop_last()
            } else {
                p.stack
            },
            ..p
        },
        Step::Source { start, end } => if start >= end {
            p
        } else {
            let kind = if p.stack.len() > 0 {
                p.stack.last()
            } else {
                Highlight::Default
            };
            Progress {
                runs: with_run(
                    with_run(p.runs, p.covered, start, Highlight::Default),
                    start,
                    end,
                    kind,
                ),
                stack: p.stack,
                covered: if end > p.covered {
                    end
                } else {
                    p.covered
                },
            }
        },
    }
}

/// The state after all steps. A failed step, `None`, ends the reading.
pub open spec fn progress(names: Seq<Seq<char>>, steps: Seq<Option<Step>>) -> Progress
    decreases steps.len(),
{
    if steps.len() == 0 {
        no_progress()
    } else {
        let before = progress(names, steps.drop_last());
        if failed(steps.drop_last()) {
            before
        } else {
            match steps.last() {
                Some(step) => advance(names, before, step),
                None => before,
            }
        }
    }
}

/// Some step failed.
pub open spec fn failed(steps: Seq<Option<Step>>) -> bool {
    exists|i: int| 0 <= i < steps.len() && #[trigger] steps[i] is None
}

/// The runs of a source of `len` bytes: what the steps leave uncovered at the
/// end is default. There are no runs where nothing is painted.
pub open spec fn step_runs(
    names: Seq<Seq<char>>,
    steps: Seq<Option<Step>>,
    len: usize,
) -> Option<Seq<HighlightedRun>> {
    let p = progress(names, steps);
    let runs = with_run(p.runs, p.covered, len, Highlight::Default);
    if runs.len() == 0 {
        None
    } else {
        Some(runs)
    }
}

/// Turns the highlighter's steps into runs over a source of `len` bytes.
pub fn runs_from_steps(names: &Vec<&'static str>, steps: &Vec<Option<Step>>, len: usize) -> (r:
    Option<Vec<HighlightedRun>>)
    ensures
        match r {
            Some(runs) => step_runs(texts(names@), steps@, len) == Some(runs@),
            None => step_runs(texts(names@), steps@, len) is None,
        },
{
    let mut runs: Vec<HighlightedRun> = Vec::new();
    let mut stack: Vec<Highlight> = Vec::new();
    let mut covered: usize = 0;
    let mut i: usize = 0;
    let mut stopped: bool = false;
    let ghost list = texts(names@);
    while i < steps.len() && !stopped
        invariant
            i <= steps.len(),
            list == texts(names@),
            !stopped ==> !failed(steps@.take(i as int)),
            !stopped ==> progress(list, steps@.take(i as int)) == (Progress {
                runs: runs@,
                stack: stack@,
                covered,
            }),
            stopped ==> progress(list, steps@) == (Progress {
                runs: runs@,
                stack: stack@,
                covered,
            }),
        decreases steps.len() - i,
    {
        let ghost prefix = steps@.take(i + 1);
        proof {
            assert(prefix.drop_last() =~= steps@.take(i as int));
            assert(prefix.last() == steps@[i as int]);
        }
        match steps[i] {
            None => {
                proof {
                    lemma_stopped(list, steps@, i as int);
                }
                stopped = true;
            },
            Some(step) => {
                proof {
                    assert forall|k: int| 0 <= k < prefix.len() implies !(#[trigger] prefix[k] is None)
                    by {
                        if k < i {
                            assert(!(steps@.take(i as int)[k] is None));
                        }
                    }
                }
                match step {
                    Step::Start(idx) => {
                        stack.push(capture_name_to_highlight(names, idx));
                    },
                    Step::End => {
                        let top: Option<Highlight> = stack.pop();
                    },
                    Step::Source { start, end } => {
                        if start < end {
                            let gap: usize = covered;
                            let kind: Highlight = if stack.len() > 0 {
                                stack[stack.len() - 1]
                            } else {
                                Highlight::Default
                            };
                            push_run(&mut runs, gap, start, Highlight::Default);
                            push_run(&mut runs, start, end, kind);
                            if end > covered {
                                covered = end;
                            }
                        }
                    },
                }
            },
        }
        i += 1;
    }
    proof {
        if !stopped {
            assert(steps@.take(i as int) =~= steps@);
        }
    }
    push_run(&mut runs, covered, len, Highlight::Default);
    if runs.len() == 0 {
        None
    } else {
        Some(runs)
    }
}

/// Nothing after a failed step is read.
proof fn lemma_stopped(names: Seq<Seq<char>>, steps: Seq<Option<Step>>, i: int)
    requires
        0 <= i < steps.len(),
        steps[i] is None,
        !failed(steps.take(i)),
    ensures
        progress(names, steps) == progress(names, steps.take(i)),
    decreases steps.len(),
{
    if i == steps.len() - 1 {
        assert(steps.drop_last() =~= steps.take(i));
    } else {
        assert(steps.drop_last()[i] is None);
        assert(steps.drop_last().take(i) =~= steps.take(i));
        lemma_stopped(names, steps.drop_last(), i);
    }
}

/// The stretches come in source order and end within the source.
pub open spec fn steps_ordered(names: Seq<Seq<char>>, steps: Seq<Option<Step>>, len: usize) -> bool {
    forall|i: int|
        0 <= i < steps.len() ==> match #[trigger] steps[i] {
            Some(Step::Source { start, end }) => end <= len && (start < end ==> progress(
                names,
                steps.take(i),
            ).covered <= start),
            _ => true,
        }
}

/// Where the last stretch among the first `n` steps ends.
pub open spec fn reached(steps: Seq<Option<Step>>, n: int) -> int
    decreases n,
{
    if n <= 0 {
        0
    } else {
        match steps[n - 1] {
            Some(Step::Source { end, .. }) => end as int,
            _ => reached(steps, n - 1),
        }
    }
}

/// No stretch is empty, each starts where the one before it ends, the first one
/// at the start, and all end within the source.
pub open spec fn stretches_join(steps: Seq<Option<Step>>, len: usize) -> bool {
    forall|i: int|
        0 <= i < steps.len() ==> match #[trigger] steps[i] {
            Some(Step::Source { start, end }) => start == reached(steps, i) && start < end && end
                <= len,
            _ => true,
        }
}

/// What the steps have covered when they are read is where their stretches end,
/// or lies before it where a step failed.
proof fn lemma_covered(names: Seq<Seq<char>>, steps: Seq<Option<Step>>, len: usize, n: int)
    requires
        stretches_join(steps, len),
        0 <= n <= steps.len(),
    ensures
        progress(names, steps.take(n)).covered <= reached(steps, n),
        !failed(steps.take(n)) ==> progress(names, steps.take(n)).covered == reached(steps, n),
    decreases n,
{
    let now = steps.take(n);
    if n > 0 {
        let before = steps.take(n - 1);
        lemma_covered(names, steps, len, n - 1);
        assert(now.drop_last() =~= before);
        assert(now.last() == steps[n - 1]);
        if failed(before) {
            let k = choose|k: int| 0 <= k < before.len() && #[trigger] before[k] is None;
            assert(now[k] is None);
        }
        if !failed(now) {
            assert forall|k: int| 0 <= k < before.len() implies !(#[trigger] before[k] is None) by {
                assert(!(now[k] is None));
            }
        }
        assert(now[n - 1] == steps[n - 1]);
    }
}

/// Stretches that join come in source order.
pub proof fn lemma_joined_stretches(
    names: Seq<Seq<char>>,
    steps: Seq<Option<Step>>,
    len: usize,
)
    requires
        stretches_join(steps, len),
    ensures
        steps_ordered(names, steps, len),
{
    assert forall|i: int| 0 <= i < steps.len() implies match #[trigger] steps[i] {
        Some(Step::Source { start, end }) => end <= len && (start < end ==> progress(
            names,
            steps.take(i),
        ).covered <= start),
        _ => true,
    } by {
        lemma_covered(names, steps, len, i);
    }
}

/// For stretches that come in source order, the runs are in order, without
/// gaps and without overlaps, and they cover the whole source.
pub proof fn law_runs_cover_source(names: Seq<Seq<char>>, steps: Seq<Option<Step>>, len: usize)
    requires
        steps_ordered(names, steps, len),
        len > 0,
    ensures
        step_runs(names, steps, len) is Some,
        runs_cover(step_runs(names, steps, len)->0, len as int),
{
    lemma_progress_covers(names, steps, len);
    let p = progress(names, steps);
    lemma_run_covers(p.runs, p.covered, len, Highlight::Default);
}

/// Runs that touch always differ in their buckets.
pub proof fn law_runs_are_coalesced(names: Seq<Seq<char>>, steps: Seq<Option<Step>>, len: usize)
    ensures
        step_runs(names, steps, len) matches Some(runs) ==> runs_coalesced(runs),
{
    lemma_progress_coalesces(names, steps);
    let p = progress(names, steps);
    lemma_run_coalesces(p.runs, p.covered, len, Highlight::Default);
}

proof fn lemma_progress_covers(names: Seq<Seq<char>>, steps: Seq<Option<Step>>, len: usize)
    requires
        steps_ordered(names, steps, len),
    ensures
        runs_cover(progress(names, steps).runs, progress(names, steps).covered as int),
        progress(names, steps).covered <= len,
    decreases steps.len(),
{
    if steps.len() > 0 {
        let before = steps.drop_last();
        assert(steps_ordered(names, before, len)) by {
            assert forall|i: int| 0 <= i < before.len() implies match #[trigger] before[i] {
                Some(Step::Source { start, end }) => end <= len && (start < end ==> progress(
                    names,
                    before.take(i),
                ).covered <= start),
                _ => true,
            } by {
                assert(before.take(i) =~= steps.take(i));
                assert(before[i] == steps[i]);
            }
        }
        lemma_progress_covers(names, before, len);
        let p = progress(names, before);
        let last = steps[steps.len() - 1];
        assert(steps.take(steps.len() - 1) =~= before);
        if let Some(Step::Source { start, end }) = last {
            if start < end && !failed(before) {
                lemma_run_covers(p.runs, p.covered, start, Highlight::Default);
                let mid = with_run(p.runs, p.covered, start, Highlight::Default);
                let kind = if p.stack.len() > 0 {
                    p.stack.last()
                } else {
                    Highlight::Default
                };
                lemma_run_covers(mid, start, end, kind);
            }
        }
    }
}

proof fn lemma_progress_coalesces(names: Seq<Seq<char>>, steps: Seq<Option<Step>>)
    ensures
        runs_coalesced(progress(names, steps).runs),
    decreases steps.len(),
{
    if steps.len() > 0 {
        lemma_progress_coalesces(names, steps.drop_last());
        let p = progress(names, steps.drop_last());
        if let Some(Step::Source { start, end }) = steps.last() {
            if start < end {
                lemma_run_coalesces(p.runs, p.covered, start, Highlight::Default);
                let mid = with_run(p.runs, p.covered, start, Highlight::Default);
                let kind = if p.stack.len() > 0 {
                    p.stack.last()
                } else {
                    Highlight::Default
                };
                lemma_run_coalesces(mid, start, end, kind);
            }
        }
    }
}

/// The language setup of a highlighter: its grammar, its queries, and the
/// capture names that it recognizes.
#[verifier::external_type_specification]
#[verifier::external_body]
pub struct ExHighlightConfiguration(tree_sitter_highlight::HighlightConfiguration);

/// The grammar and the capture names that a configuration was made with.
pub uninterp spec fn configured(
    config: tree_sitter_highlight::HighlightConfiguration,
) -> (Grammar, Seq<Seq<char>>);

/// The steps of the highlighter for a source, with the grammar's own queries
/// and the given capture names, or `None` where it gives none.
pub uninterp spec fn highlighter_steps(
    grammar: Grammar,
    names: Seq<Seq<char>>,
    source: Seq<char>,
) -> Option<Seq<Option<Step>>>;

/// [`tree_sitter_highlight::HighlightConfiguration::new`] with the queries that
/// the grammar's crate ships, then
/// [`tree_sitter_highlight::HighlightConfiguration::configure`]. Without a
/// configuration there are no steps for any source.
#[verifier::external_body]
fn configuration(grammar: Grammar, names: &Vec<&'static str>) -> (r: Option<
    tree_sitter_highlight::HighlightConfiguration,
>)
    ensures
        r matches Some(c) ==> configured(c) == (grammar, texts(names@)),
        r is None ==> forall|source: Seq<char>|
            (#[trigger] highlighter_steps(grammar, texts(names@), source)) is None,
{
    let (language, name, query, locals): (tree_sitter::Language, &str, &str, &str) = match grammar {
        Grammar::Rust => (tree_sitter_rust::LANGUAGE.into(), "rust", tree_sitter_rust::HIGHLIGHTS_QUERY, ""),
        Grammar::Python => (tree_sitter_python::LANGUAGE.into(), "python", tree_sitter_python::HIGHLIGHTS_QUERY, ""),
        Grammar::TypeScript => (tree_sitter_typescript::LANGUAGE_TYPESCRIPT.into(), "typescript", tree_sitter_typescript::HIGHLIGHTS_QUERY, tree_sitter_typescript::LOCALS_QUERY),
        Grammar::Tsx => (tree_sitter_typescript::LANGUAGE_TSX.into(), "tsx", tree_sitter_typescript::HIGHLIGHTS_QUERY, tree_sitter_typescript::LOCALS_QUERY),
    };
    let mut config = tree_sitter_highlight::HighlightConfiguration::new(language, name, query, "", locals).ok()?;
    config.configure(names);
    Some(config)
}

/// [`tree_sitter_highlight::Highlighter::highlight`] without injected
/// languages. Which steps come out is left to the queries: they are only said
/// to depend on what the configuration was made with and on the source. A
/// step that failed is `None`. A stretch is handed out whenever the iterator
/// moves on from one byte of the source to a later one, so that stretches join.
#[verifier::external_body]
fn steps_of(config: &tree_sitter_highlight::HighlightConfiguration, source: &str) -> (r: Option<
    Vec<Option<Step>>,
>)
    ensures
        match r {
            Some(steps) => {
                &&& highlighter_steps(configured(*config).0, configured(*config).1, source@) == Some(
                    steps@,
                )
                &&& stretches_join(steps@, encode_utf8(source@).len() as usize)
            },
            None => highlighter_steps(configured(*config).0, configured(*config).1, source@) is None,
        },
{
    let mut highlighter = tree_sitter_highlight::Highlighter::new();
    let events = highlighter.highlight(config, source.as_bytes(), None, |_| None).ok()?;
    Some(events.map(|event| match event {
        Ok(tree_sitter_highlight::HighlightEvent::Source { start, end }) => Some(Step::Source { start, end }),
        Ok(tree_sitter_highlight::HighlightEvent::HighlightStart(h)) => Some(Step::Start(h.0)),
        Ok(tree_sitter_highlight::HighlightEvent::HighlightEnd) => Some(Step::End),
        Err(_) => None,
    }).collect())
}

/// The grammar that a language hint stands for.
pub open spec fn hint_grammar(hint: Seq<char>) -> Option<Grammar> {
    if hint == "rust"@ || hint == "rs"@ {
        Some(Grammar::Rust)
    } else if hint == "python"@ || hint == "py"@ {
        Some(Grammar::Python)
    } else if hint == "typescript"@ || hint == "ts"@ {
        Some(Grammar::TypeScript)
    } else if hint == "tsx"@ {
        Some(Grammar::Tsx)
    } else {
        None
    }
}

/// The grammar that a language hint stands for.
fn grammar_for(hint: &str) -> (r: Option<Grammar>)
    ensures
        r == hint_grammar(hint@),
{
    if same_text(hint, "rust") || same_text(hint, "rs") {
        Some(Grammar::Rust)
    } else if same_text(hint, "python") || same_text(hint, "py") {
        Some(Grammar::Python)
    } else if same_text(hint, "typescript") || same_text(hint, "ts") {
        Some(Grammar::TypeScript)
    } else if same_text(hint, "tsx") {
        Some(Grammar::Tsx)
    } else {
        None
    }
}

/// The runs that tree-sitter gives for a source, if it gives any.
pub open spec fn tree_sitter_runs(grammar: Grammar, source: Seq<char>) -> Option<
    Seq<HighlightedRun>,
> {
    match highlighter_steps(grammar, capture_names(), source) {
        Some(steps) => step_runs(capture_names(), steps, encode_utf8(source).len() as usize),
        None => None,
    }
}

/// Text that is not empty has bytes.
proof fn lemma_some_bytes(source: Seq<char>)
    requires
        source.len() > 0,
    ensures
        encode_utf8(source).len() > 0,
{
    lemma_encode_concat(source.take(1), source.skip(1));
    assert(source.take(1) + source.skip(1) =~= source);
}

/// Highlights a source with tree-sitter.
fn highlight_with_tree_sitter(source: &str, grammar: Grammar) -> (r: Option<Vec<HighlightedRun>>)
    ensures
        match r {
            Some(runs) => {
                &&& tree_sitter_runs(grammar, source@) == Some(runs@)
                &&& source@.len() > 0 ==> runs_cover(runs@, encode_utf8(source@).len() as int)
                &&& runs_coalesced(runs@)
            },
            None => tree_sitter_runs(grammar, source@) is None,
        },
{
    let names: Vec<&'static str> = highlight_names();
    match configuration(grammar, &names) {
        Some(config) => match steps_of(&config, source) {
            Some(steps) => {
                let len: usize = source.len();
                let bytes: &[u8] = source.as_bytes();
                assert(encode_utf8(source@).len() <= usize::MAX) by {
                    assert(bytes.len() == bytes@.len());
                }
                proof {
                    lemma_joined_stretches(texts(names@), steps@, len);
                    law_runs_are_coalesced(texts(names@), steps@, len);
                    if source@.len() > 0 {
                        lemma_some_bytes(source@);
                        law_runs_cover_source(texts(names@), steps@, len);
                    }
                }
                runs_from_steps(&names, &steps, len)
            },
            None => None,
        },
        None => {
            assert(highlighter_steps(grammar, capture_names(), source@) is None);
            None
        },
    }
}

// ---------------------------------------------------------------------------
// syntect
// ---------------------------------------------------------------------------
/// `prefix` is `scope`, or is `scope` up to one of its dots.
pub open spec fn is_scope_prefix(prefix: Seq<char>, scope: Seq<char>) -> bool {
    begins_with(scope, prefix) && (scope.len() == prefix.len() || scope[prefix.len() as int] == '.')
}

/// The bucket of a scope, by the first rule that applies to it.
pub open spec fn scope_kind(scope: Seq<char>) -> Option<Highlight> {
    if is_scope_prefix("comment"@, scope) {
        Some(Highlight::Comment)
    } else if is_scope_prefix("string"@, scope) {
        Some(Highlight::String)
    } else if is_scope_prefix("constant.numeric"@, scope) {
        Some(Highlight::Number)
    } else if is_scope_prefix("meta.attribute"@, scope) {
        Some(Highlight::Attribute)
    } else if is_scope_prefix("constant"@, scope) {
        Some(Highlight::Constant)
    } else if is_scope_prefix("keyword"@, scope) || is_scope_prefix("storage.type"@, scope) {
        Some(Highlight::Keyword)
    } else if is_scope_prefix("entity.name.function"@, scope) || is_scope_prefix(
        "support.function"@,
        scope,
    ) || is_scope_prefix("meta.function-call"@, scope) || is_scope_prefix(
        "variable.function"@,
        scope,
    ) {
        Some(Highlight::Function)
    } else if is_scope_prefix("entity.name.type"@, scope) || is_scope_prefix(
        "support.type"@,
        scope,
    ) {
        Some(Highlight::Type)
    } else if is_scope_prefix("entity.name"@, scope) {
        Some(Highlight::Function)
    } else if is_scope_prefix("variable"@, scope) {
        Some(Highlight::Variable)
    } else if is_scope_prefix("punctuation"@, scope) {
        Some(Highlight::Punctuation)
    } else {
        None
    }
}

/// The bucket of a scope stack: that of its innermost scope that has one.
pub open spec fn stack_kind(scopes: Seq<Seq<char>>) -> Highlight
    decreases scopes.len(),
{
    if scopes.len() == 0 {
        Highlight::Default
    } else {
        match scope_kind(scopes.last()) {
            Some(kind) => kind,
            None => stack_kind(scopes.drop_last()),
        }
    }
}

/// Whether `prefix` is `scope`, or `scope` up to one of its dots.
fn scope_has_prefix(prefix: &str, scope: &Vec<char>) -> (r: bool)
    ensures
        r == is_scope_prefix(prefix@, scope@),
{
    if !starts(scope, prefix) {
        return false;
    }
    let n: usize = prefix.unicode_len();
    scope.len() == n || scope[n] == '.'
}

/// The bucket of a scope.
fn classify_scope(scope: &str) -> (r: Option<Highlight>)
    ensures
        r == scope_kind(scope@),
{
    let s: Vec<char> = chars_of(scope);
    if scope_has_prefix("comment", &s) {
        Some(Highlight::Comment)
    } else if scope_has_prefix("string", &s) {
        Some(Highlight::String)
    } else if scope_has_prefix("constant.numeric", &s) {
        Some(Highlight::Number)
    } else if scope_has_prefix("meta.attribute", &s) {
        Some(Highlight::Attribute)
    } else if scope_has_prefix("constant", &s) {
        Some(Highlight::Constant)
    } else if scope_has_prefix("keyword", &s) || scope_has_prefix("storage.type", &s) {
        Some(Highlight::Keyword)
    } else if scope_has_prefix("entity.name.function", &s) || scope_has_prefix(
        "support.function",
        &s,
    ) || scope_has_prefix("meta.function-call", &s) || scope_has_prefix("variable.function", &s) {
        Some(Highlight::Function)
    } else if scope_has_prefix("entity.name.type", &s) || scope_has_prefix("support.type", &s) {
        Some(Highlight::Type)
    } else if scope_has_prefix("entity.name", &s) {
        Some(Highlight::Function)
    } else if scope_has_prefix("variable", &s) {
        Some(Highlight::Variable)
    } else if scope_has_prefix("punctuation", &s) {
        Some(Highlight::Punctuation)
    } else {
        None
    }
}

/// The bucket of a scope stack, outermost scope first.
pub fn classify_scope_stack(scopes: &Vec<String>) -> (r: Highlight)
    ensures
        r == stack_kind(string_models(scopes@)),
{
    let ghost all = string_models(scopes@);
    let mut n: usize = scopes.len();
    assert(all.take(n as int) =~= all);
    while n > 0
        invariant
            n <= scopes.len(),
            all == string_models(scopes@),
            stack_kind(all.take(n as int)) == stack_kind(all),
        decreases n,
    {
        n -= 1;
        proof {
            assert(all.take(n + 1).drop_last() =~= all.take(n as int));
            assert(all.take(n + 1).last() == scopes@[n as int]@);
        }
        if let Some(kind) = classify_scope(scopes[n].as_str()) {
            return kind;
        }
    }
    Highlight::Default
}

/// A stretch of a line, in bytes from the start of the line, and the scope
/// stack that it is read under, outermost scope first.
#[derive(Debug, Clone)]
pub struct ScopeSpan {
    pub start: usize,
    pub end: usize,
    pub scopes: Vec<String>,
}

/// What a [`ScopeSpan`] stands for.
#[verifier::ext_equal]
pub struct SpanModel {
    pub start: int,
    pub end: int,
    pub scopes: Seq<Seq<char>>,
}

impl View for ScopeSpan {
    type V = SpanModel;

    open spec fn view(&self) -> SpanModel {
        SpanModel {
            start: self.start as int,
            end: self.end as int,
            scopes: string_models(self.scopes@),
        }
    }
}

/// The models of the spans of a line.
pub open spec fn span_models(spans: Seq<ScopeSpan>) -> Seq<SpanModel> {
    Seq::new(spans.len(), |i: int| spans[i]@)
}

/// The models of the spans of all lines.
pub open spec fn line_models(lines: Seq<Vec<ScopeSpan>>) -> Seq<Seq<SpanModel>> {
    Seq::new(lines.len(), |i: int| span_models(lines[i]@))
}

/// A set of syntaxes.
#[verifier::external_type_specification]
#[verifier::external_body]
pub struct ExSyntaxSet(syntect::parsing::SyntaxSet);

/// A syntax of a set.
#[verifier::external_type_specification]
#[verifier::external_body]
pub struct ExSyntaxReference(syntect::parsing::SyntaxReference);

/// A parser between two lines.
#[verifier::external_type_specification]
#[verifier::external_body]
pub struct ExParseState(syntect::parsing::ParseState);

/// A change of a scope stack.
#[verifier::external_type_specification]
#[verifier::external_body]
pub struct ExScopeStackOp(syntect::parsing::ScopeStackOp);

/// The scopes that a place in a file is read under.
#[verifier::external_type_specification]
#[verifier::external_body]
pub struct ExScopeStack(syntect::parsing::ScopeStack);

/// What a change does to a scope stack: push a scope, pop some scopes, put away
/// the topmost ones or all, bring back those that were put away last, or
/// nothing.
#[verifier::ext_equal]
pub enum OpModel {
    Push(Seq<char>),
    Pop(nat),
    Clear(Option<nat>),
    Restore,
    Noop,
}

/// What a scope stack holds, outermost scope first, and what was put away from
/// it, the last time last.
#[verifier::ext_equal]
pub struct StackModel {
    pub scopes: Seq<Seq<char>>,
    pub cleared: Seq<Seq<Seq<char>>>,
}

/// A stack that nothing was pushed on.
pub open spec fn bare_stack() -> StackModel {
    StackModel { scopes: Seq::empty(), cleared: Seq::empty() }
}

/// How many of `len` scopes stay where `n` are taken off.
pub open spec fn left_over(len: nat, n: nat) -> int {
    if n < len {
        len - n
    } else {
        0
    }
}

/// A stack after a change. Where nothing was put away, nothing can be brought
/// back.
pub open spec fn changed(s: StackModel, op: OpModel) -> StackModel {
    match op {
        OpModel::Push(scope) => StackModel { scopes: s.scopes.push(scope), ..s },
        OpModel::Pop(n) => StackModel { scopes: s.scopes.take(left_over(s.scopes.len(), n)), ..s },
        OpModel::Clear(amount) => {
            let kept = match amount {
                Some(n) => left_over(s.scopes.len(), n),
                None => 0,
            };
            StackModel {
                scopes: s.scopes.take(kept),
                cleared: s.cleared.push(s.scopes.skip(kept)),
            }
        },
        OpModel::Restore => if s.cleared.len() == 0 {
            s
        } else {
            StackModel { scopes: s.scopes + s.cleared.last(), cleared: s.cleared.drop_last() }
        },
        OpModel::Noop => s,
    }
}

/// The set is the bundled one.
pub uninterp spec fn bundled(set: syntect::parsing::SyntaxSet) -> bool;

/// The place of a syntax in the bundled set, if it is from there.
pub uninterp spec fn syntax_place(syntax: syntect::parsing::SyntaxReference) -> Option<nat>;

/// The place of the bundled syntax for a file extension.
pub uninterp spec fn extension_syntax(ext: Seq<char>) -> Option<nat>;

/// The place of the bundled syntax that recognizes a first line.
pub uninterp spec fn first_line_syntax(line: Seq<char>) -> Option<nat>;

/// The place of the syntax that a parser reads with, and the lines that it has
/// read.
pub uninterp spec fn lines_read(state: syntect::parsing::ParseState) -> (nat, Seq<Seq<char>>);

/// The changes of the scope stack in a line, each with the byte before which it
/// takes place, where the parser has read some lines before. `None` where the
/// line cannot be parsed.
pub uninterp spec fn line_ops(syntax: nat, before: Seq<Seq<char>>, line: Seq<char>) -> Option<
    Seq<(int, OpModel)>,
>;

/// What a change does.
pub uninterp spec fn op_done(op: syntect::parsing::ScopeStackOp) -> OpModel;

/// What a scope stack holds.
pub uninterp spec fn stack_held(stack: syntect::parsing::ScopeStack) -> StackModel;

/// What the changes in a line do, with their places.
pub open spec fn op_models(ops: Seq<(usize, syntect::parsing::ScopeStackOp)>) -> Seq<
    (int, OpModel),
> {
    Seq::new(ops.len(), |i: int| (ops[i].0 as int, op_done(ops[i].1)))
}

/// [`syntect::parsing::SyntaxSet::load_defaults_newlines`]: the bundled set.
#[verifier::external_body]
fn bundled_syntaxes() -> (r: syntect::parsing::SyntaxSet)
    ensures
        bundled(r),
{
    syntect::parsing::SyntaxSet::load_defaults_newlines()
}

/// [`syntect::parsing::SyntaxSet::find_syntax_by_extension`] on the bundled
/// set. Which syntax that is depends on the extension alone.
#[verifier::external_body]
fn syntax_for_extension<'a>(set: &'a syntect::parsing::SyntaxSet, ext: &str) -> (r: Option<
    &'a syntect::parsing::SyntaxReference,
>)
    requires
        bundled(*set),
    ensures
        match r {
            Some(syntax) => syntax_place(*syntax) is Some && extension_syntax(ext@) == syntax_place(
                *syntax,
            ),
            None => extension_syntax(ext@) is None,
        },
{
    set.find_syntax_by_extension(ext)
}

/// [`syntect::parsing::SyntaxSet::find_syntax_by_first_line`] on the bundled
/// set. Which syntax that is depends on the line alone.
#[verifier::external_body]
fn syntax_for_first_line<'a>(set: &'a syntect::parsing::SyntaxSet, line: &str) -> (r: Option<
    &'a syntect::parsing::SyntaxReference,
>)
    requires
        bundled(*set),
    ensures
        match r {
            Some(syntax) => syntax_place(*syntax) is Some && first_line_syntax(line@)
                == syntax_place(*syntax),
            None => first_line_syntax(line@) is None,
        },
{
    set.find_syntax_by_first_line(line)
}

/// [`syntect::parsing::ParseState::new`]: a parser that has read nothing.
#[verifier::external_body]
fn new_parser(syntax: &syntect::parsing::SyntaxReference) -> (r: syntect::parsing::ParseState)
    requires
        syntax_place(*syntax) is Some,
    ensures
        lines_read(r) == (syntax_place(*syntax)->0, Seq::<Seq<char>>::empty()),
{
    syntect::parsing::ParseState::new(syntax)
}

/// [`syntect::parsing::ParseState::parse_line`]. Which changes come out is left
/// to the syntax: they are only said to depend on the syntax, on the lines that
/// the parser has read before and on this one, and to take place within the
/// line. In which order their places come is left open too.
#[verifier::external_body]
fn parse_line(
    state: &mut syntect::parsing::ParseState,
    line: &str,
    set: &syntect::parsing::SyntaxSet,
) -> (r: Option<Vec<(usize, syntect::parsing::ScopeStackOp)>>)
    requires
        bundled(*set),
    ensures
        lines_read(*final(state)) == (
            lines_read(*old(state)).0,
            lines_read(*old(state)).1.push(line@),
        ),
        match r {
            Some(ops) => {
                &&& line_ops(lines_read(*old(state)).0, lines_read(*old(state)).1, line@) == Some(
                    op_models(ops@),
                )
                &&& forall|k: int|
                    0 <= k < ops@.len() ==> (#[trigger] ops@[k]).0 <= encode_utf8(line@).len()
            },
            None => line_ops(lines_read(*old(state)).0, lines_read(*old(state)).1, line@) is None,
        },
{
    state.parse_line(line, set).ok()
}

/// [`syntect::easy::ScopeRangeIterator`]: the stretches into which the changes
/// cut a line, each with the change at its start. The first stretch comes with
/// no change.
#[verifier::external_body]
fn cut_line(ops: &Vec<(usize, syntect::parsing::ScopeStackOp)>, line: &str) -> (r: Vec<
    (usize, usize, syntect::parsing::ScopeStackOp),
>)
    ensures
        r@.len() == ops@.len() + 1,
        forall|i: int|
            0 <= i < r@.len() ==> {
                &&& (#[trigger] r@[i]).0 == cut_start(op_models(ops@), i)
                &&& r@[i].1 == cut_end(op_models(ops@), encode_utf8(line@).len() as int, i)
                &&& op_done(r@[i].2) == op_before(op_models(ops@), i)
            },
{
    let cuts = syntect::easy::ScopeRangeIterator::new(ops, line);
    cuts.map(|(range, op)| (range.start, range.end, op.clone())).collect()
}

/// [`syntect::parsing::ScopeStack::new`]: a stack that holds nothing.
#[verifier::external_body]
fn new_stack() -> (r: syntect::parsing::ScopeStack)
    ensures
        stack_held(r) == bare_stack(),
{
    syntect::parsing::ScopeStack::new()
}

/// [`syntect::parsing::ScopeStack::apply`]. Its only error, that there is
/// nothing to bring back, leaves the stack as it is.
#[verifier::external_body]
fn change_stack(stack: &mut syntect::parsing::ScopeStack, op: &syntect::parsing::ScopeStackOp)
    ensures
        stack_held(*final(stack)) == changed(stack_held(*old(stack)), op_done(*op)),
{
    let _ = stack.apply(op);
}

/// [`syntect::parsing::ScopeStack::as_slice`], each scope written out with
/// [`syntect::parsing::Scope::build_string`].
#[verifier::external_body]
fn scopes_on(stack: &syntect::parsing::ScopeStack) -> (r: Vec<String>)
    ensures
        string_models(r@) == stack_held(*stack).scopes,
{
    stack.as_slice().iter().map(|scope| scope.build_string()).collect()
}

/// Where stretch `i` of a line starts.
pub open spec fn cut_start(ops: Seq<(int, OpModel)>, i: int) -> int {
    if i <= 0 {
        0
    } else {
        ops[i - 1].0
    }
}

/// Where stretch `i` of a line of `len` bytes ends.
pub open spec fn cut_end(ops: Seq<(int, OpModel)>, len: int, i: int) -> int {
    if i < ops.len() {
        ops[i].0
    } else {
        len
    }
}

/// The change that stretch `i` of a line comes with.
pub open spec fn op_before(ops: Seq<(int, OpModel)>, i: int) -> OpModel {
    if i <= 0 {
        OpModel::Noop
    } else {
        ops[i - 1].1
    }
}

/// The scope stack that stretch `i` of a line is read under: the changes of the
/// stretches before it have taken place, its own has not.
pub open spec fn stack_at(before: StackModel, ops: Seq<(int, OpModel)>, i: int) -> StackModel
    decreases i,
{
    if i <= 0 {
        before
    } else {
        changed(stack_at(before, ops, i - 1), op_before(ops, i - 1))
    }
}

/// The spans of a line of `len` bytes.
pub open spec fn line_spans(before: StackModel, ops: Seq<(int, OpModel)>, len: int) -> Seq<
    SpanModel,
> {
    Seq::new(
        ops.len() + 1,
        |i: int|
            SpanModel {
                start: cut_start(ops, i),
                end: cut_end(ops, len, i),
                scopes: stack_at(before, ops, i).scopes,
            },
    )
}

/// What is known of the first lines of a file: the scope stack after them, and
/// their spans.
#[verifier::ext_equal]
pub struct ReadModel {
    pub stack: StackModel,
    pub spans: Seq<Seq<SpanModel>>,
}

/// What a syntax makes of the first `n` lines of a file. `None` where one of
/// them cannot be parsed.
pub open spec fn read_upto(syntax: nat, lines: Seq<Seq<char>>, n: int) -> Option<ReadModel>
    decreases n,
{
    if n <= 0 {
        Some(ReadModel { stack: bare_stack(), spans: Seq::empty() })
    } else {
        match (
            read_upto(syntax, lines, n - 1),
            line_ops(syntax, lines.take(n - 1), lines[n - 1]),
        ) {
            (Some(read), Some(ops)) => Some(
                ReadModel {
                    stack: stack_at(read.stack, ops, (ops.len() + 1) as int),
                    spans: read.spans.push(
                        line_spans(read.stack, ops, encode_utf8(lines[n - 1]).len() as int),
                    ),
                },
            ),
            _ => None,
        }
    }
}

/// The scope spans of the lines of a file. `None` where a line cannot be parsed.
pub open spec fn scoped_lines(syntax: nat, lines: Seq<Seq<char>>) -> Option<Seq<Seq<SpanModel>>> {
    match read_upto(syntax, lines, lines.len() as int) {
        Some(read) => Some(read.spans),
        None => None,
    }
}

/// The spans of a line, and the scope stack after it.
pub fn spans_of_line(
    stack: &mut syntect::parsing::ScopeStack,
    ops: &Vec<(usize, syntect::parsing::ScopeStackOp)>,
    line: &str,
) -> (r: Vec<ScopeSpan>)
    requires
        forall|k: int|
            0 <= k < ops@.len() ==> (#[trigger] ops@[k]).0 <= encode_utf8(line@).len(),
    ensures
        span_models(r@) == line_spans(
            stack_held(*old(stack)),
            op_models(ops@),
            encode_utf8(line@).len() as int,
        ),
        stack_held(*final(stack)) == stack_at(
            stack_held(*old(stack)),
            op_models(ops@),
            (ops@.len() + 1) as int,
        ),
        line_fits(line@, span_models(r@)),
{
    let ghost before = stack_held(*stack);
    let ghost marks = op_models(ops@);
    let ghost whole = line_spans(before, marks, encode_utf8(line@).len() as int);
    let cuts: Vec<(usize, usize, syntect::parsing::ScopeStackOp)> = cut_line(ops, line);
    let mut out: Vec<ScopeSpan> = Vec::new();
    let mut i: usize = 0;
    while i < cuts.len()
        invariant
            i <= cuts.len(),
            out@.len() == i,
            cuts@.len() == marks.len() + 1,
            whole == line_spans(before, marks, encode_utf8(line@).len() as int),
            stack_held(*stack) == stack_at(before, marks, i as int),
            forall|k: int|
                0 <= k < cuts@.len() ==> {
                    &&& (#[trigger] cuts@[k]).0 == cut_start(marks, k)
                    &&& cuts@[k].1 == cut_end(marks, encode_utf8(line@).len() as int, k)
                    &&& op_done(cuts@[k].2) == op_before(marks, k)
                },
            forall|k: int| 0 <= k < i ==> (#[trigger] out@[k])@ == whole[k],
        decreases cuts.len() - i,
    {
        let scopes: Vec<String> = scopes_on(stack);
        let span = ScopeSpan { start: cuts[i].0, end: cuts[i].1, scopes };
        assert(span@ =~= whole[i as int]);
        out.push(span);
        change_stack(stack, &cuts[i].2);
        i += 1;
    }
    proof {
        assert(span_models(out@) =~= whole);
        assert forall|k: int| 0 <= k < whole.len() implies (#[trigger] whole[k]).end
            <= encode_utf8(line@).len() by {
            if k < marks.len() {
                assert(marks[k].0 == ops@[k].0);
            }
        }
    }
    out
}

/// The scope spans of the lines of a file, read with a bundled syntax. There
/// are none where a line cannot be parsed.
fn read_scopes(
    set: &syntect::parsing::SyntaxSet,
    syntax: &syntect::parsing::SyntaxReference,
    lines: &Vec<String>,
) -> (r: Option<Vec<Vec<ScopeSpan>>>)
    requires
        bundled(*set),
        syntax_place(*syntax) is Some,
    ensures
        match r {
            Some(spans) => {
                &&& scoped_lines(syntax_place(*syntax)->0, string_models(lines@)) == Some(
                    line_models(spans@),
                )
                &&& spans_fit(string_models(lines@), line_models(spans@))
            },
            None => scoped_lines(syntax_place(*syntax)->0, string_models(lines@)) is None,
        },
{
    let ghost place = syntax_place(*syntax)->0;
    let ghost all = string_models(lines@);
    let mut state: syntect::parsing::ParseState = new_parser(syntax);
    let mut stack: syntect::parsing::ScopeStack = new_stack();
    let mut out: Vec<Vec<ScopeSpan>> = Vec::new();
    let mut i: usize = 0;
    proof {
        assert(all.take(0) =~= Seq::empty());
        assert(line_models(out@) =~= Seq::empty());
    }
    while i < lines.len()
        invariant
            i <= lines.len(),
            bundled(*set),
            place == syntax_place(*syntax)->0,
            all == string_models(lines@),
            lines_read(state) == (place, all.take(i as int)),
            read_upto(place, all, i as int) == Some(
                ReadModel { stack: stack_held(stack), spans: line_models(out@) },
            ),
            out@.len() == i,
            forall|k: int| 0 <= k < i ==> line_fits(all[k], #[trigger] line_models(out@)[k]),
        decreases lines.len() - i,
    {
        let line: &str = lines[i].as_str();
        assert(all[i as int] == line@);
        assert(all.take(i as int).push(line@) =~= all.take(i + 1));
        let ghost done = line_models(out@);
        match parse_line(&mut state, line, set) {
            Some(ops) => {
                let spans: Vec<ScopeSpan> = spans_of_line(&mut stack, &ops, line);
                let ghost here = span_models(spans@);
                out.push(spans);
                proof {
                    assert(line_models(out@) =~= done.push(here));
                    assert forall|k: int| 0 <= k < i + 1 implies line_fits(
                        all[k],
                        #[trigger] line_models(out@)[k],
                    ) by {
                        if k < i {
                            assert(line_models(out@)[k] == done[k]);
                        }
                    }
                }
            },
            None => {
                proof {
                    assert(read_upto(place, all, i + 1) is None);
                    lemma_unread(place, all, i + 1, all.len() as int);
                }
                return None;
            },
        }
        i += 1;
    }
    Some(out)
}

/// Where the first lines cannot be read, more lines cannot either.
proof fn lemma_unread(syntax: nat, lines: Seq<Seq<char>>, a: int, b: int)
    requires
        a <= b,
        read_upto(syntax, lines, a) is None,
    ensures
        read_upto(syntax, lines, b) is None,
    decreases b - a,
{
    if a < b {
        lemma_unread(syntax, lines, a, b - 1);
    }
}

/// The extension that a language hint is looked up by. A hint that is no
/// language name is taken for an extension.
pub open spec fn hint_extension(hint: Seq<char>) -> Seq<char> {
    if hint == "rust"@ {
        "rs"@
    } else if hint == "python"@ {
        "py"@
    } else if hint == "typescript"@ {
        "ts"@
    } else if hint == "javascript"@ {
        "js"@
    } else if hint == "markdown"@ {
        "md"@
    } else if hint == "yml"@ {
        "yaml"@
    } else if hint == "c++"@ {
        "cpp"@
    } else if hint == "shell"@ || hint == "bash"@ {
        "sh"@
    } else {
        hint
    }
}

/// The extension that a language hint is looked up by.
fn extension_for(hint: &str) -> (r: String)
    ensures
        r@ == hint_extension(hint@),
{
    let ext: &str = if same_text(hint, "rust") {
        "rs"
    } else if same_text(hint, "python") {
        "py"
    } else if same_text(hint, "typescript") {
        "ts"
    } else if same_text(hint, "javascript") {
        "js"
    } else if same_text(hint, "markdown") {
        "md"
    } else if same_text(hint, "yml") {
        "yaml"
    } else if same_text(hint, "c++") {
        "cpp"
    } else if same_text(hint, "shell") || same_text(hint, "bash") {
        "sh"
    } else {
        hint
    };
    ext.to_owned()
}

/// The place of the syntax for a source: by its language hint, or without a hint
/// by its first line.
pub open spec fn hint_syntax(source: Seq<char>, hint: Option<Seq<char>>) -> Option<nat> {
    match hint {
        Some(h) => extension_syntax(hint_extension(h)),
        None => first_line_syntax(before_first(source, '\n')),
    }
}

/// The syntax for a source.
fn syntax_for_hint<'a>(
    set: &'a syntect::parsing::SyntaxSet,
    source: &str,
    hint: Option<&str>,
) -> (r: Option<&'a syntect::parsing::SyntaxReference>)
    requires
        bundled(*set),
    ensures
        match r {
            Some(syntax) => syntax_place(*syntax) is Some && hint_syntax(source@, hint_text(hint))
                == syntax_place(*syntax),
            None => hint_syntax(source@, hint_text(hint)) is None,
        },
{
    match hint {
        Some(h) => syntax_for_extension(set, extension_for(h).as_str()),
        None => syntax_for_first_line(set, head(source, '\n')),
    }
}

/// The characters of an optional hint.
pub open spec fn hint_text(hint: Option<&str>) -> Option<Seq<char>> {
    match hint {
        Some(h) => Some(h@),
        None => None,
    }
}

/// How far a source is painted.
pub struct Painted {
    pub runs: Seq<HighlightedRun>,
    pub covered: int,
}

/// One more stretch is painted, as far as it lies behind what is painted
/// already. A gap before it is painted as default.
pub open spec fn paint(p: Painted, start: int, end: int, kind: Highlight) -> Painted {
    if start >= end || end <= p.covered {
        p
    } else {
        Painted {
            runs: with_run(
                with_run(p.runs, p.covered as usize, start as usize, Highlight::Default),
                if start < p.covered {
                    p.covered as usize
                } else {
                    start as usize
                },
                end as usize,
                kind,
            ),
            covered: end,
        }
    }
}

/// The spans of one line that starts at byte `at` are painted.
pub open spec fn line_painted(p: Painted, at: int, spans: Seq<SpanModel>) -> Painted
    decreases spans.len(),
{
    if spans.len() == 0 {
        p
    } else {
        let s = spans.last();
        paint(
            line_painted(p, at, spans.drop_last()),
            at + s.start,
            at + s.end,
            stack_kind(s.scopes),
        )
    }
}

/// The byte at which line `n` starts.
pub open spec fn line_offset(lines: Seq<Seq<char>>, n: int) -> int
    decreases n,
{
    if n <= 0 {
        0
    } else {
        line_offset(lines, n - 1) + encode_utf8(lines[n - 1]).len()
    }
}

/// The first `n` lines are painted.
pub open spec fn lines_painted(
    lines: Seq<Seq<char>>,
    spans: Seq<Seq<SpanModel>>,
    n: int,
) -> Painted
    decreases n,
{
    if n <= 0 {
        Painted { runs: Seq::empty(), covered: 0 }
    } else {
        line_painted(
            lines_painted(lines, spans, n - 1),
            line_offset(lines, n - 1),
            spans[n - 1],
        )
    }
}

/// The spans of every line lie within it.
pub open spec fn spans_fit(lines: Seq<Seq<char>>, spans: Seq<Seq<SpanModel>>) -> bool {
    &&& lines.len() == spans.len()
    &&& forall|i: int| 0 <= i < lines.len() ==> line_fits(lines[i], #[trigger] spans[i])
}

/// The spans of a line lie within it.
pub open spec fn line_fits(line: Seq<char>, spans: Seq<SpanModel>) -> bool {
    forall|k: int|
        0 <= k < spans.len() ==> 0 <= (#[trigger] spans[k]).start && spans[k].end <= encode_utf8(
            line,
        ).len()
}

/// The runs that syntect gives for a source, if it gives any: none where there
/// is no syntax, where a line cannot be parsed, or where nothing is painted.
pub open spec fn syntect_runs(source: Seq<char>, hint: Option<Seq<char>>) -> Option<
    Seq<HighlightedRun>,
> {
    let lines = full_lines(source);
    match hint_syntax(source, hint) {
        Some(syntax) => match scoped_lines(syntax, lines) {
            Some(spans) => scope_result(lines, spans),
            None => None,
        },
        None => None,
    }
}

/// The runs of lines with the given spans: what the spans leave uncovered at the
/// end is default. There are no runs where nothing is painted.
pub open spec fn scope_result(lines: Seq<Seq<char>>, spans: Seq<Seq<SpanModel>>) -> Option<
    Seq<HighlightedRun>,
> {
    let p = lines_painted(lines, spans, lines.len() as int);
    let runs = with_run(
        p.runs,
        p.covered as usize,
        line_offset(lines, lines.len() as int) as usize,
        Highlight::Default,
    );
    if runs.len() == 0 {
        None
    } else {
        Some(runs)
    }
}

/// Turns the scope spans of the lines of a source into runs.
pub fn runs_from_scopes(source: &str, lines: &Vec<String>, spans: &Vec<Vec<ScopeSpan>>) -> (r:
    Option<Vec<HighlightedRun>>)
    requires
        string_models(lines@) == full_lines(source@),
        spans_fit(string_models(lines@), line_models(spans@)),
    ensures
        match r {
            Some(runs) => scope_result(string_models(lines@), line_models(spans@)) == Some(runs@),
            None => scope_result(string_models(lines@), line_models(spans@)) is None,
        },
{
    let ghost texts_of = string_models(lines@);
    let ghost marks = line_models(spans@);
    proof {
        lemma_offset_total(source@);
    }
    let bytes: &[u8] = source.as_bytes();
    assert(encode_utf8(source@).len() <= usize::MAX) by {
        assert(bytes.len() == bytes@.len());
    }
    let mut runs: Vec<HighlightedRun> = Vec::new();
    let mut covered: usize = 0;
    let mut at: usize = 0;
    let mut i: usize = 0;
    while i < lines.len()
        invariant
            i <= lines.len(),
            texts_of == string_models(lines@),
            marks == line_models(spans@),
            spans_fit(texts_of, marks),
            at == line_offset(texts_of, i as int),
            line_offset(texts_of, lines@.len() as int) <= usize::MAX,
            lines_painted(texts_of, marks, i as int) == (Painted {
                runs: runs@,
                covered: covered as int,
            }),
        decreases lines.len() - i,
    {
        let line: &str = lines[i].as_str();
        assert(texts_of[i as int] == line@);
        proof {
            lemma_offset_grows(texts_of, i + 1, lines@.len() as int);
        }
        let line_bytes: &[u8] = line.as_bytes();
        let len: usize = line_bytes.len();
        assert(len == encode_utf8(line@).len());
        assert(marks[i as int] == span_models(spans@[i as int]@));
        covered = append_line(&mut runs, covered, at, len, &spans[i]);
        at += len;
        i += 1;
    }
    push_run(&mut runs, covered, at, Highlight::Default);
    if runs.len() == 0 {
        None
    } else {
        Some(runs)
    }
}

/// Appends the runs of one line that starts at byte `at` and has `len` bytes,
/// where the source is painted up to `covered`. Returns how far it is painted
/// then.
fn append_line(
    runs: &mut Vec<HighlightedRun>,
    covered: usize,
    at: usize,
    len: usize,
    spans: &Vec<ScopeSpan>,
) -> (r: usize)
    requires
        at + len <= usize::MAX,
        forall|k: int|
            0 <= k < span_models(spans@).len() ==> (#[trigger] span_models(spans@)[k]).end <= len,
    ensures
        line_painted(
            Painted { runs: old(runs)@, covered: covered as int },
            at as int,
            span_models(spans@),
        ) == (Painted { runs: final(runs)@, covered: r as int }),
{
    let ghost models = span_models(spans@);
    let ghost before = Painted { runs: runs@, covered: covered as int };
    let mut reached: usize = covered;
    let mut k: usize = 0;
    while k < spans.len()
        invariant
            k <= spans.len(),
            at + len <= usize::MAX,
            models == span_models(spans@),
            line_painted(before, at as int, models.take(k as int)) == (Painted {
                runs: runs@,
                covered: reached as int,
            }),
            forall|j: int| 0 <= j < models.len() ==> (#[trigger] models[j]).end <= len,
        decreases spans.len() - k,
    {
        let span = &spans[k];
        assert(models[k as int] == span@);
        proof {
            assert(models.take(k + 1).drop_last() =~= models.take(k as int));
            assert(models.take(k + 1).last() == span@);
        }
        if span.start < span.end && at + span.end > reached {
            let start: usize = at + span.start;
            let from: usize = if start < reached {
                reached
            } else {
                start
            };
            push_run(runs, reached, start, Highlight::Default);
            push_run(runs, from, at + span.end, classify_scope_stack(&span.scopes));
            reached = at + span.end;
        }
        k += 1;
    }
    assert(models.take(k as int) =~= models);
    reached
}

/// A line starts no earlier than the lines before it.
proof fn lemma_offset_grows(lines: Seq<Seq<char>>, a: int, b: int)
    requires
        0 <= a <= b,
    ensures
        line_offset(lines, a) <= line_offset(lines, b),
    decreases b - a,
{
    if a < b {
        lemma_offset_grows(lines, a, b - 1);
    }
}

/// The lines of a source have as many bytes as the source.
proof fn lemma_offset_total(source: Seq<char>)
    ensures
        line_offset(full_lines(source), full_lines(source).len() as int) == encode_utf8(
            source,
        ).len(),
    decreases source.len(),
{
    let lines = full_lines(source);
    if source.len() > 0 {
        let before = full_lines(source.drop_last());
        lemma_offset_total(source.drop_last());
        lemma_encode_concat(source.drop_last(), seq![source.last()]);
        assert(source.drop_last() + seq![source.last()] =~= source);
        let n = before.len() as int;
        if before.len() == 0 || source[source.len() - 2] == '\n' {
            lemma_offset_agree(lines, before, n);
        } else {
            lemma_offset_agree(lines, before, n - 1);
            lemma_encode_concat(before.last(), seq![source.last()]);
            assert(before.last() + seq![source.last()] =~= lines.last());
        }
    } else {
        assert(encode_utf8(source).len() == 0);
    }
}

/// Where the first `n` lines agree, line `n` starts at the same byte.
proof fn lemma_offset_agree(a: Seq<Seq<char>>, b: Seq<Seq<char>>, n: int)
    requires
        forall|k: int| 0 <= k < n ==> a[k] == b[k],
    ensures
        line_offset(a, n) == line_offset(b, n),
    decreases n,
{
    if n > 0 {
        lemma_offset_agree(a, b, n - 1);
    }
}

/// Painting one more stretch leaves no gap and no two touching runs in one
/// bucket.
proof fn lemma_paint(p: Painted, start: int, end: int, kind: Highlight)
    requires
        0 <= p.covered <= usize::MAX,
        0 <= start,
        end <= usize::MAX,
        runs_cover(p.runs, p.covered),
        runs_coalesced(p.runs),
    ensures
        ({
            let q = paint(p, start, end, kind);
            &&& p.covered <= q.covered
            &&& q.covered <= p.covered || q.covered <= end
            &&& runs_cover(q.runs, q.covered)
            &&& runs_coalesced(q.runs)
        }),
{
    if start < end && end > p.covered {
        let from = if start < p.covered {
            p.covered
        } else {
            start
        };
        lemma_run_covers(p.runs, p.covered as usize, start as usize, Highlight::Default);
        lemma_run_coalesces(p.runs, p.covered as usize, start as usize, Highlight::Default);
        let mid = with_run(p.runs, p.covered as usize, start as usize, Highlight::Default);
        lemma_run_covers(mid, from as usize, end as usize, kind);
        lemma_run_coalesces(mid, from as usize, end as usize, kind);
    }
}

/// Painting a line leaves no gap and no two touching runs in one bucket, and
/// ends within the line.
proof fn lemma_line_painted(p: Painted, at: int, spans: Seq<SpanModel>, len: int)
    requires
        0 <= at,
        0 <= len,
        at + len <= usize::MAX,
        0 <= p.covered <= at + len,
        runs_cover(p.runs, p.covered),
        runs_coalesced(p.runs),
        forall|k: int|
            0 <= k < spans.len() ==> 0 <= (#[trigger] spans[k]).start && spans[k].end <= len,
    ensures
        ({
            let q = line_painted(p, at, spans);
            &&& 0 <= q.covered <= at + len
            &&& runs_cover(q.runs, q.covered)
            &&& runs_coalesced(q.runs)
        }),
    decreases spans.len(),
{
    if spans.len() > 0 {
        let before = spans.drop_last();
        assert(forall|k: int| 0 <= k < before.len() ==> before[k] == spans[k]);
        lemma_line_painted(p, at, before, len);
        let s = spans[spans.len() - 1];
        lemma_paint(
            line_painted(p, at, before),
            at + s.start,
            at + s.end,
            stack_kind(s.scopes),
        );
    }
}

/// Painting the first `n` lines leaves no gap and no two touching runs in one
/// bucket, and ends within them.
proof fn lemma_lines_painted(lines: Seq<Seq<char>>, spans: Seq<Seq<SpanModel>>, n: int)
    requires
        spans_fit(lines, spans),
        line_offset(lines, lines.len() as int) <= usize::MAX,
        0 <= n <= lines.len(),
    ensures
        ({
            let p = lines_painted(lines, spans, n);
            &&& 0 <= p.covered <= line_offset(lines, n)
            &&& runs_cover(p.runs, p.covered)
            &&& runs_coalesced(p.runs)
        }),
    decreases n,
{
    if n > 0 {
        lemma_lines_painted(lines, spans, n - 1);
        lemma_offset_grows(lines, n, lines.len() as int);
        lemma_offset_grows(lines, 0, n - 1);
        assert(line_fits(lines[n - 1], spans[n - 1]));
        lemma_line_painted(
            lines_painted(lines, spans, n - 1),
            line_offset(lines, n - 1),
            spans[n - 1],
            encode_utf8(lines[n - 1]).len() as int,
        );
    }
}

/// Whatever the spans of the lines of a source are, the runs are in order,
/// without gaps and without overlaps, they cover the whole source, and touching
/// runs differ in their buckets.
pub proof fn law_scope_runs_cover_source(source: Seq<char>, spans: Seq<Seq<SpanModel>>)
    requires
        spans_fit(full_lines(source), spans),
        source.len() > 0,
        encode_utf8(source).len() <= usize::MAX,
    ensures
        scope_result(full_lines(source), spans) matches Some(runs) && runs_cover(
            runs,
            encode_utf8(source).len() as int,
        ) && runs_coalesced(runs),
{
    let lines = full_lines(source);
    lemma_offset_total(source);
    lemma_some_bytes(source);
    lemma_lines_painted(lines, spans, lines.len() as int);
    let p = lines_painted(lines, spans, lines.len() as int);
    let total = encode_utf8(source).len() as usize;
    lemma_run_covers(p.runs, p.covered as usize, total, Highlight::Default);
    lemma_run_coalesces(p.runs, p.covered as usize, total, Highlight::Default);
}

/// Highlights a source with syntect.
fn highlight_with_syntect(source: &str, lang_hint: Option<&str>) -> (r: Option<
    Vec<HighlightedRun>,
>)
    ensures
        match r {
            Some(runs) => {
                &&& syntect_runs(source@, hint_text(lang_hint)) == Some(runs@)
                &&& source@.len() > 0 ==> runs_cover(runs@, encode_utf8(source@).len() as int)
                &&& source@.len() > 0 ==> runs_coalesced(runs@)
            },
            None => syntect_runs(source@, hint_text(lang_hint)) is None,
        },
{
    let lines: Vec<String> = lines_with_ends(source);
    let set: syntect::parsing::SyntaxSet = bundled_syntaxes();
    match syntax_for_hint(&set, source, lang_hint) {
        Some(syntax) => match read_scopes(&set, syntax, &lines) {
            Some(spans) => {
                let bytes: &[u8] = source.as_bytes();
                assert(encode_utf8(source@).len() <= usize::MAX) by {
                    assert(bytes.len() == bytes@.len());
                }
                proof {
                    if source@.len() > 0 {
                        law_scope_runs_cover_source(source@, line_models(spans@));
                    }
                }
                runs_from_scopes(source, &lines, &spans)
            },
            None => None,
        },
        None => None,
    }
}

// ---------------------------------------------------------------------------
// Entry points
// ---------------------------------------------------------------------------
/// The runs that tree-sitter gives for a source, where the hint names one of its
/// languages.
pub open spec fn runs_of_tree(source: Seq<char>, hint: Option<Seq<char>>) -> Option<
    Seq<HighlightedRun>,
> {
    match hint {
        Some(h) => match hint_grammar(h) {
            Some(grammar) => tree_sitter_runs(grammar, source),
            None => None,
        },
        None => None,
    }
}

/// The runs of a source: those of tree-sitter where the hint names one of its
/// languages and it paints anything, else those of syntect, else one default
/// run. An empty source has no runs.
pub open spec fn highlight_runs(source: Seq<char>, hint: Option<Seq<char>>) -> Seq<HighlightedRun> {
    if source.len() == 0 {
        Seq::empty()
    } else {
        match runs_of_tree(source, hint) {
            Some(runs) => runs,
            None => match syntect_runs(source, hint) {
                Some(runs) => runs,
                None => plain_runs(source),
            },
        }
    }
}

/// The highlighted byte ranges of a source. The hint is a language name or a
/// file extension; without one, the first line is tried.
pub fn highlight(source: &str, lang_hint: Option<&str>) -> (r: Vec<HighlightedRun>)
    ensures
        r@ == highlight_runs(source@, hint_text(lang_hint)),
        runs_cover(r@, encode_utf8(source@).len() as int),
        runs_coalesced(r@),
{
    if source.is_empty() {
        return Vec::new();
    }
    if let Some(hint) = lang_hint {
        if let Some(grammar) = grammar_for(hint) {
            if let Some(runs) = highlight_with_tree_sitter(source, grammar) {
                return runs;
            }
        }
    }
    if let Some(runs) = highlight_with_syntect(source, lang_hint) {
        return runs;
    }
    let bytes: &[u8] = source.as_bytes();
    assert(encode_utf8(source@).len() <= usize::MAX) by {
        assert(bytes.len() == bytes@.len());
    }
    proof {
        lemma_some_bytes(source@);
    }
    plain_text_fallback(source)
}

/// The language hint for an extension in small letters.
pub open spec fn extension_hint(ext: Seq<char>) -> Seq<char> {
    if ext == "rs"@ {
        "rust"@
    } else if ext == "py"@ || ext == "pyi"@ {
        "python"@
    } else if ext == "ts"@ || ext == "mts"@ || ext == "cts"@ {
        "typescript"@
    } else {
        ext
    }
}

/// The language hint for a path, by its extension. A path without an extension
/// has none.
pub fn lang_hint_for_path(path: &str) -> (r: Option<String>)
    ensures
        match r {
            Some(hint) => extension_of(path@) is Some && hint@ == extension_hint(
                lower(extension_of(path@)->0),
            ),
            None => extension_of(path@) is None,
        },
{
    match extension(path) {
        Some(raw) => {
            let ext: String = to_lower(raw.as_str());
            if same_text(ext.as_str(), "rs") {
                Some("rust".to_owned())
            } else if same_text(ext.as_str(), "py") || same_text(ext.as_str(), "pyi") {
                Some("python".to_owned())
            } else if same_text(ext.as_str(), "ts") || same_text(ext.as_str(), "mts") || same_text(
                ext.as_str(),
                "cts",
            ) {
                Some("typescript".to_owned())
            } else {
                Some(ext)
            }
        },
        None => None,
    }
}

// ---------------------------------------------------------------------------
// What is painted how
// ---------------------------------------------------------------------------
/// The letters that the families of captures begin with, and how long their
/// names are. None of them holds a dot.
proof fn lemma_families()
    ensures
        "keyword"@.len() == 7 && "keyword"@[0] == 'k' && !"keyword"@.contains('.'),
        "operator"@.len() == 8 && "operator"@[0] == 'o' && !"operator"@.contains('.'),
        "function"@.len() == 8 && "function"@[0] == 'f' && !"function"@.contains('.'),
        "constructor"@.len() == 11 && "constructor"@[0] == 'c' && !"constructor"@.contains('.'),
        "type"@.len() == 4 && "type"@[0] == 't' && !"type"@.contains('.'),
        "string"@.len() == 6 && "string"@[0] == 's' && !"string"@.contains('.'),
        "escape"@.len() == 6 && "escape"@[0] == 'e' && !"escape"@.contains('.'),
        "comment"@.len() == 7 && "comment"@[0] == 'c' && !"comment"@.contains('.'),
        "number"@.len() == 6 && "number"@[0] == 'n' && !"number"@.contains('.'),
        "punctuation"@.len() == 11 && "punctuation"@[0] == 'p' && !"punctuation"@.contains('.'),
        "tag"@.len() == 3 && "tag"@[0] == 't' && !"tag"@.contains('.'),
        "boolean"@.len() == 7 && "boolean"@[0] == 'b' && !"boolean"@.contains('.'),
        "constant"@.len() == 8 && "constant"@[0] == 'c' && !"constant"@.contains('.'),
        "attribute"@.len() == 9 && "attribute"@[0] == 'a' && !"attribute"@.contains('.'),
        "variable"@.len() == 8 && "variable"@[0] == 'v' && !"variable"@.contains('.'),
        "property"@.len() == 8 && "property"@[0] == 'p' && !"property"@.contains('.'),
        "label"@.len() == 5 && "label"@[0] == 'l' && !"label"@.contains('.'),
{
    reveal_strlit("keyword");
    reveal_strlit("operator");
    reveal_strlit("function");
    reveal_strlit("constructor");
    reveal_strlit("type");
    reveal_strlit("string");
    reveal_strlit("escape");
    reveal_strlit("comment");
    reveal_strlit("number");
    reveal_strlit("punctuation");
    reveal_strlit("tag");
    reveal_strlit("boolean");
    reveal_strlit("constant");
    reveal_strlit("attribute");
    reveal_strlit("variable");
    reveal_strlit("property");
    reveal_strlit("label");
}

/// What comes before the first dot of a name that is followed by nothing or by a
/// dot.
proof fn lemma_family(name: Seq<char>, rest: Seq<char>)
    requires
        !name.contains('.'),
        rest.len() == 0 || rest[0] == '.',
    ensures
        before_first(name + rest, '.') == name,
{
    let whole = name + rest;
    assert forall|k: int| 0 <= k < name.len() implies whole[k] != '.' by {
        assert(name.contains(name[k]));
    }
    lemma_before_first(whole, '.', name.len() as int);
    assert(whole.take(name.len() as int) =~= name);
}

/// A capture is painted by its family, whatever follows the first dot of its
/// name.
pub proof fn law_captures_are_painted_by_family(rest: Seq<char>)
    requires
        rest.len() == 0 || rest[0] == '.',
    ensures
        capture_kind("keyword"@ + rest) == Highlight::Keyword,
        capture_kind("operator"@ + rest) == Highlight::Keyword,
        capture_kind("function"@ + rest) == Highlight::Function,
        capture_kind("constructor"@ + rest) == Highlight::Function,
        capture_kind("type"@ + rest) == Highlight::Type,
        capture_kind("string"@ + rest) == Highlight::String,
        capture_kind("escape"@ + rest) == Highlight::String,
        capture_kind("comment"@ + rest) == Highlight::Comment,
        capture_kind("number"@ + rest) == Highlight::Number,
        capture_kind("punctuation"@ + rest) == Highlight::Punctuation,
        capture_kind("tag"@ + rest) == Highlight::Punctuation,
        capture_kind("boolean"@ + rest) == Highlight::Constant,
        capture_kind("constant"@ + rest) == Highlight::Constant,
        capture_kind("attribute"@ + rest) == Highlight::Attribute,
        capture_kind("variable"@ + rest) == Highlight::Variable,
        capture_kind("property"@ + rest) == Highlight::Variable,
        capture_kind("label"@ + rest) == Highlight::Variable,
{
    lemma_families();
    lemma_family("keyword"@, rest);
    lemma_family("operator"@, rest);
    lemma_family("function"@, rest);
    lemma_family("constructor"@, rest);
    lemma_family("type"@, rest);
    lemma_family("string"@, rest);
    lemma_family("escape"@, rest);
    lemma_family("comment"@, rest);
    lemma_family("number"@, rest);
    lemma_family("punctuation"@, rest);
    lemma_family("tag"@, rest);
    lemma_family("boolean"@, rest);
    lemma_family("constant"@, rest);
    lemma_family("attribute"@, rest);
    lemma_family("variable"@, rest);
    lemma_family("property"@, rest);
    lemma_family("label"@, rest);
}

/// A capture of any other family is painted as default.
pub proof fn law_other_captures_are_default(name: Seq<char>)
    requires
        forall|family: Seq<char>, rest: Seq<char>|
            #![trigger family + rest]
            name == family + rest && (rest.len() == 0 || rest[0] == '.') && !family.contains('.') ==> {
                &&& family != "keyword"@
                &&& family != "operator"@
                &&& family != "function"@
                &&& family != "constructor"@
                &&& family != "type"@
                &&& family != "string"@
                &&& family != "escape"@
                &&& family != "comment"@
                &&& family != "number"@
                &&& family != "punctuation"@
                &&& family != "tag"@
                &&& family != "boolean"@
                &&& family != "constant"@
                &&& family != "attribute"@
                &&& family != "variable"@
                &&& family != "property"@
                &&& family != "label"@
            },
    ensures
        capture_kind(name) == Highlight::Default,
{
    let n = lemma_dot(name, 0);
    lemma_before_first(name, '.', n);
    let family = name.take(n);
    let rest = name.skip(n);
    assert(family + rest =~= name);
    assert(!family.contains('.')) by {
        if family.contains('.') {
            let k = choose|k: int| 0 <= k < family.len() && family[k] == '.';
            assert(name[k] == '.');
        }
    }
}

/// Where the first dot at or behind `from` stands, or the end.
proof fn lemma_dot(s: Seq<char>, from: int) -> (n: int)
    requires
        0 <= from <= s.len(),
        forall|k: int| 0 <= k < from ==> s[k] != '.',
    ensures
        0 <= n <= s.len(),
        forall|k: int| 0 <= k < n ==> s[k] != '.',
        n < s.len() ==> s[n] == '.',
    decreases s.len() - from,
{
    if from == s.len() || s[from] == '.' {
        from
    } else {
        lemma_dot(s, from + 1)
    }
}

/// The highlighter is asked for these captures and no others.
pub proof fn law_recognized_captures()
    ensures
        capture_names().len() == 32,
        capture_names().contains("string"@),
        capture_names().contains("string.special"@),
        capture_names().contains("string.regexp"@),
        capture_names().contains("string.escape"@),
        capture_names().contains("escape"@),
        capture_names().contains("number"@),
        capture_names().contains("boolean"@),
        capture_names().contains("constant"@),
        capture_names().contains("constant.builtin"@),
        capture_names().contains("constructor"@),
        capture_names().contains("function"@),
        capture_names().contains("function.builtin"@),
        capture_names().contains("function.method"@),
        capture_names().contains("function.macro"@),
        capture_names().contains("variable"@),
        capture_names().contains("variable.builtin"@),
        capture_names().contains("variable.parameter"@),
        capture_names().contains("variable.member"@),
        capture_names().contains("property"@),
        capture_names().contains("label"@),
        capture_names().contains("type"@),
        capture_names().contains("type.builtin"@),
        capture_names().contains("keyword"@),
        capture_names().contains("operator"@),
        capture_names().contains("punctuation"@),
        capture_names().contains("punctuation.bracket"@),
        capture_names().contains("punctuation.delimiter"@),
        capture_names().contains("punctuation.special"@),
        capture_names().contains("comment"@),
        capture_names().contains("comment.documentation"@),
        capture_names().contains("attribute"@),
        capture_names().contains("tag"@),
{
    assert(capture_names()[0] == "string"@);
    assert(capture_names()[1] == "string.special"@);
    assert(capture_names()[2] == "string.regexp"@);
    assert(capture_names()[3] == "string.escape"@);
    assert(capture_names()[4] == "escape"@);
    assert(capture_names()[5] == "number"@);
    assert(capture_names()[6] == "boolean"@);
    assert(capture_names()[7] == "constant"@);
    assert(capture_names()[8] == "constant.builtin"@);
    assert(capture_names()[9] == "constructor"@);
    assert(capture_names()[10] == "function"@);
    assert(capture_names()[11] == "function.builtin"@);
    assert(capture_names()[12] == "function.method"@);
    assert(capture_names()[13] == "function.macro"@);
    assert(capture_names()[14] == "variable"@);
    assert(capture_names()[15] == "variable.builtin"@);
    assert(capture_names()[16] == "variable.parameter"@);
    assert(capture_names()[17] == "variable.member"@);
    assert(capture_names()[18] == "property"@);
    assert(capture_names()[19] == "label"@);
    assert(capture_names()[20] == "type"@);
    assert(capture_names()[21] == "type.builtin"@);
    assert(capture_names()[22] == "keyword"@);
    assert(capture_names()[23] == "operator"@);
    assert(capture_names()[24] == "punctuation"@);
    assert(capture_names()[25] == "punctuation.bracket"@);
    assert(capture_names()[26] == "punctuation.delimiter"@);
    assert(capture_names()[27] == "punctuation.special"@);
    assert(capture_names()[28] == "comment"@);
    assert(capture_names()[29] == "comment.documentation"@);
    assert(capture_names()[30] == "attribute"@);
    assert(capture_names()[31] == "tag"@);
}

/// Literals, their escapes and constants are painted in their buckets.
pub proof fn law_literals_are_painted()
    ensures
        capture_kind("string"@) == Highlight::String,
        capture_kind("string.special"@) == Highlight::String,
        capture_kind("string.regexp"@) == Highlight::String,
        capture_kind("string.escape"@) == Highlight::String,
        capture_kind("escape"@) == Highlight::String,
        capture_kind("number"@) == Highlight::Number,
        capture_kind("boolean"@) == Highlight::Constant,
        capture_kind("constant"@) == Highlight::Constant,
        capture_kind("constant.builtin"@) == Highlight::Constant,
{
    assert(capture_kind("string"@) == Highlight::String) by {
        assert("string"@ + Seq::<char>::empty() =~= "string"@);
        law_captures_are_painted_by_family(Seq::empty());
    }
    assert(capture_kind("string.special"@) == Highlight::String) by {
        reveal_strlit("string.special");
        reveal_strlit("string");
        reveal_strlit(".special");
        assert("string.special"@ =~= "string"@ + ".special"@);
        law_captures_are_painted_by_family(".special"@);
    }
    assert(capture_kind("string.regexp"@) == Highlight::String) by {
        reveal_strlit("string.regexp");
        reveal_strlit("string");
        reveal_strlit(".regexp");
        assert("string.regexp"@ =~= "string"@ + ".regexp"@);
        law_captures_are_painted_by_family(".regexp"@);
    }
    assert(capture_kind("string.escape"@) == Highlight::String) by {
        reveal_strlit("string.escape");
        reveal_strlit("string");
        reveal_strlit(".escape");
        assert("string.escape"@ =~= "string"@ + ".escape"@);
        law_captures_are_painted_by_family(".escape"@);
    }
    assert(capture_kind("escape"@) == Highlight::String) by {
        assert("escape"@ + Seq::<char>::empty() =~= "escape"@);
        law_captures_are_painted_by_family(Seq::empty());
    }
    assert(capture_kind("number"@) == Highlight::Number) by {
        assert("number"@ + Seq::<char>::empty() =~= "number"@);
        law_captures_are_painted_by_family(Seq::empty());
    }
    assert(capture_kind("boolean"@) == Highlight::Constant) by {
        assert("boolean"@ + Seq::<char>::empty() =~= "boolean"@);
        law_captures_are_painted_by_family(Seq::empty());
    }
    assert(capture_kind("constant"@) == Highlight::Constant) by {
        assert("constant"@ + Seq::<char>::empty() =~= "constant"@);
        law_captures_are_painted_by_family(Seq::empty());
    }
    assert(capture_kind("constant.builtin"@) == Highlight::Constant) by {
        reveal_strlit("constant.builtin");
        reveal_strlit("constant");
        reveal_strlit(".builtin");
        assert("constant.builtin"@ =~= "constant"@ + ".builtin"@);
        law_captures_are_painted_by_family(".builtin"@);
    }
}

/// Functions, their calls and what makes a value are painted in their buckets.
pub proof fn law_calls_are_painted()
    ensures
        capture_kind("constructor"@) == Highlight::Function,
        capture_kind("function"@) == Highlight::Function,
        capture_kind("function.builtin"@) == Highlight::Function,
        capture_kind("function.method"@) == Highlight::Function,
        capture_kind("function.macro"@) == Highlight::Function,
{
    assert(capture_kind("constructor"@) == Highlight::Function) by {
        assert("constructor"@ + Seq::<char>::empty() =~= "constructor"@);
        law_captures_are_painted_by_family(Seq::empty());
    }
    assert(capture_kind("function"@) == Highlight::Function) by {
        assert("function"@ + Seq::<char>::empty() =~= "function"@);
        law_captures_are_painted_by_family(Seq::empty());
    }
    assert(capture_kind("function.builtin"@) == Highlight::Function) by {
        reveal_strlit("function.builtin");
        reveal_strlit("function");
        reveal_strlit(".builtin");
        assert("function.builtin"@ =~= "function"@ + ".builtin"@);
        law_captures_are_painted_by_family(".builtin"@);
    }
    assert(capture_kind("function.method"@) == Highlight::Function) by {
        reveal_strlit("function.method");
        reveal_strlit("function");
        reveal_strlit(".method");
        assert("function.method"@ =~= "function"@ + ".method"@);
        law_captures_are_painted_by_family(".method"@);
    }
    assert(capture_kind("function.macro"@) == Highlight::Function) by {
        reveal_strlit("function.macro");
        reveal_strlit("function");
        reveal_strlit(".macro");
        assert("function.macro"@ =~= "function"@ + ".macro"@);
        law_captures_are_painted_by_family(".macro"@);
    }
}

/// Variables, properties and labels are painted in their buckets.
pub proof fn law_names_are_painted()
    ensures
        capture_kind("variable"@) == Highlight::Variable,
        capture_kind("variable.builtin"@) == Highlight::Variable,
        capture_kind("variable.parameter"@) == Highlight::Variable,
        capture_kind("variable.member"@) == Highlight::Variable,
        capture_kind("property"@) == Highlight::Variable,
        capture_kind("label"@) == Highlight::Variable,
{
    assert(capture_kind("variable"@) == Highlight::Variable) by {
        assert("variable"@ + Seq::<char>::empty() =~= "variable"@);
        law_captures_are_painted_by_family(Seq::empty());
    }
    assert(capture_kind("variable.builtin"@) == Highlight::Variable) by {
        reveal_strlit("variable.builtin");
        reveal_strlit("variable");
        reveal_strlit(".builtin");
        assert("variable.builtin"@ =~= "variable"@ + ".builtin"@);
        law_captures_are_painted_by_family(".builtin"@);
    }
    assert(capture_kind("variable.parameter"@) == Highlight::Variable) by {
        reveal_strlit("variable.parameter");
        reveal_strlit("variable");
        reveal_strlit(".parameter");
        assert("variable.parameter"@ =~= "variable"@ + ".parameter"@);
        law_captures_are_painted_by_family(".parameter"@);
    }
    assert(capture_kind("variable.member"@) == Highlight::Variable) by {
        reveal_strlit("variable.member");
        reveal_strlit("variable");
        reveal_strlit(".member");
        assert("variable.member"@ =~= "variable"@ + ".member"@);
        law_captures_are_painted_by_family(".member"@);
    }
    assert(capture_kind("property"@) == Highlight::Variable) by {
        assert("property"@ + Seq::<char>::empty() =~= "property"@);
        law_captures_are_painted_by_family(Seq::empty());
    }
    assert(capture_kind("label"@) == Highlight::Variable) by {
        assert("label"@ + Seq::<char>::empty() =~= "label"@);
        law_captures_are_painted_by_family(Seq::empty());
    }
}

/// Types, keywords, operators, attributes and tags are painted in their buckets.
pub proof fn law_words_are_painted()
    ensures
        capture_kind("type"@) == Highlight::Type,
        capture_kind("type.builtin"@) == Highlight::Type,
        capture_kind("keyword"@) == Highlight::Keyword,
        capture_kind("operator"@) == Highlight::Keyword,
        capture_kind("attribute"@) == Highlight::Attribute,
        capture_kind("tag"@) == Highlight::Punctuation,
{
    assert(capture_kind("type"@) == Highlight::Type) by {
        assert("type"@ + Seq::<char>::empty() =~= "type"@);
        law_captures_are_painted_by_family(Seq::empty());
    }
    assert(capture_kind("type.builtin"@) == Highlight::Type) by {
        reveal_strlit("type.builtin");
        reveal_strlit("type");
        reveal_strlit(".builtin");
        assert("type.builtin"@ =~= "type"@ + ".builtin"@);
        law_captures_are_painted_by_family(".builtin"@);
    }
    assert(capture_kind("keyword"@) == Highlight::Keyword) by {
        assert("keyword"@ + Seq::<char>::empty() =~= "keyword"@);
        law_captures_are_painted_by_family(Seq::empty());
    }
    assert(capture_kind("operator"@) == Highlight::Keyword) by {
        assert("operator"@ + Seq::<char>::empty() =~= "operator"@);
        law_captures_are_painted_by_family(Seq::empty());
    }
    assert(capture_kind("attribute"@) == Highlight::Attribute) by {
        assert("attribute"@ + Seq::<char>::empty() =~= "attribute"@);
        law_captures_are_painted_by_family(Seq::empty());
    }
    assert(capture_kind("tag"@) == Highlight::Punctuation) by {
        assert("tag"@ + Seq::<char>::empty() =~= "tag"@);
        law_captures_are_painted_by_family(Seq::empty());
    }
}

/// Punctuation and comments are painted in their buckets.
pub proof fn law_marks_are_painted()
    ensures
        capture_kind("punctuation"@) == Highlight::Punctuation,
        capture_kind("punctuation.bracket"@) == Highlight::Punctuation,
        capture_kind("punctuation.delimiter"@) == Highlight::Punctuation,
        capture_kind("punctuation.special"@) == Highlight::Punctuation,
        capture_kind("comment"@) == Highlight::Comment,
        capture_kind("comment.documentation"@) == Highlight::Comment,
{
    assert(capture_kind("punctuation"@) == Highlight::Punctuation) by {
        assert("punctuation"@ + Seq::<char>::empty() =~= "punctuation"@);
        law_captures_are_painted_by_family(Seq::empty());
    }
    assert(capture_kind("punctuation.bracket"@) == Highlight::Punctuation) by {
        reveal_strlit("punctuation.bracket");
        reveal_strlit("punctuation");
        reveal_strlit(".bracket");
        assert("punctuation.bracket"@ =~= "punctuation"@ + ".bracket"@);
        law_captures_are_painted_by_family(".bracket"@);
    }
    assert(capture_kind("punctuation.delimiter"@) == Highlight::Punctuation) by {
        reveal_strlit("punctuation.delimiter");
        reveal_strlit("punctuation");
        reveal_strlit(".delimiter");
        assert("punctuation.delimiter"@ =~= "punctuation"@ + ".delimiter"@);
        law_captures_are_painted_by_family(".delimiter"@);
    }
    assert(capture_kind("punctuation.special"@) == Highlight::Punctuation) by {
        reveal_strlit("punctuation.special");
        reveal_strlit("punctuation");
        reveal_strlit(".special");
        assert("punctuation.special"@ =~= "punctuation"@ + ".special"@);
        law_captures_are_painted_by_family(".special"@);
    }
    assert(capture_kind("comment"@) == Highlight::Comment) by {
        assert("comment"@ + Seq::<char>::empty() =~= "comment"@);
        law_captures_are_painted_by_family(Seq::empty());
    }
    assert(capture_kind("comment.documentation"@) == Highlight::Comment) by {
        reveal_strlit("comment.documentation");
        reveal_strlit("comment");
        reveal_strlit(".documentation");
        assert("comment.documentation"@ =~= "comment"@ + ".documentation"@);
        law_captures_are_painted_by_family(".documentation"@);
    }
}

/// Every bucket has the color that the palette gives it.
pub proof fn law_palette()
    ensures
        Highlight::Keyword.rgb() == 0xc586c0,
        Highlight::Function.rgb() == 0xdcdcaa,
        Highlight::Type.rgb() == 0x4ec9b0,
        Highlight::String.rgb() == 0xce9178,
        Highlight::Comment.rgb() == 0x6a9955,
        Highlight::Number.rgb() == 0xb5cea8,
        Highlight::Punctuation.rgb() == 0x9a9aa2,
        Highlight::Variable.rgb() == 0x9cdcfe,
        Highlight::Constant.rgb() == 0x569cd6,
        Highlight::Attribute.rgb() == 0xd7ba7d,
        Highlight::Default.rgb() == 0xd4d4d4,
{
}

/// A scope that has another character at some place of a prefix does not have
/// that prefix.
proof fn lemma_other_prefix(prefix: Seq<char>, scope: Seq<char>, k: int)
    requires
        0 <= k < prefix.len(),
        k < scope.len(),
        scope[k] != prefix[k],
    ensures
        !is_scope_prefix(prefix, scope),
{
    if begins_with(scope, prefix) {
        assert(scope.take(prefix.len() as int)[k] == scope[k]);
    }
}

/// A scope is a prefix of itself, and of itself with a dot and more behind it.
proof fn lemma_own_prefix(prefix: Seq<char>, rest: Seq<char>)
    requires
        rest.len() == 0 || rest[0] == '.',
    ensures
        is_scope_prefix(prefix, prefix + rest),
{
    assert((prefix + rest).take(prefix.len() as int) =~= prefix);
}

proof fn lemma_scope_comment(rest: Seq<char>)
    requires
        rest.len() == 0 || rest[0] == '.',
    ensures
        scope_kind("comment"@ + rest) == Some(Highlight::Comment),
{
    let scope = "comment"@ + rest;
    reveal_strlit("comment");
    lemma_own_prefix("comment"@, rest);
}

proof fn lemma_scope_string(rest: Seq<char>)
    requires
        rest.len() == 0 || rest[0] == '.',
    ensures
        scope_kind("string"@ + rest) == Some(Highlight::String),
{
    let scope = "string"@ + rest;
    reveal_strlit("string");
    lemma_own_prefix("string"@, rest);
    assert(!is_scope_prefix("comment"@, scope)) by {
        reveal_strlit("comment");
        lemma_other_prefix("comment"@, scope, 0);
    }
}

proof fn lemma_scope_constant_numeric(rest: Seq<char>)
    requires
        rest.len() == 0 || rest[0] == '.',
    ensures
        scope_kind("constant.numeric"@ + rest) == Some(Highlight::Number),
{
    let scope = "constant.numeric"@ + rest;
    reveal_strlit("constant.numeric");
    lemma_own_prefix("constant.numeric"@, rest);
    assert(!is_scope_prefix("comment"@, scope)) by {
        reveal_strlit("comment");
        lemma_other_prefix("comment"@, scope, 2);
    }
    assert(!is_scope_prefix("string"@, scope)) by {
        reveal_strlit("string");
        lemma_other_prefix("string"@, scope, 0);
    }
}

proof fn lemma_scope_meta_attribute(rest: Seq<char>)
    requires
        rest.len() == 0 || rest[0] == '.',
    ensures
        scope_kind("meta.attribute"@ + rest) == Some(Highlight::Attribute),
{
    let scope = "meta.attribute"@ + rest;
    reveal_strlit("meta.attribute");
    lemma_own_prefix("meta.attribute"@, rest);
    assert(!is_scope_prefix("comment"@, scope)) by {
        reveal_strlit("comment");
        lemma_other_prefix("comment"@, scope, 0);
    }
    assert(!is_scope_prefix("string"@, scope)) by {
        reveal_strlit("string");
        lemma_other_prefix("string"@, scope, 0);
    }
    assert(!is_scope_prefix("constant.numeric"@, scope)) by {
        reveal_strlit("constant.numeric");
        lemma_other_prefix("constant.numeric"@, scope, 0);
    }
}

proof fn lemma_scope_constant(rest: Seq<char>)
    requires
        rest.len() == 0 || rest[0] == '.',
        !is_scope_prefix("constant.numeric"@, "constant"@ + rest),
    ensures
        scope_kind("constant"@ + rest) == Some(Highlight::Constant),
{
    let scope = "constant"@ + rest;
    reveal_strlit("constant");
    lemma_own_prefix("constant"@, rest);
    assert(!is_scope_prefix("comment"@, scope)) by {
        reveal_strlit("comment");
        lemma_other_prefix("comment"@, scope, 2);
    }
    assert(!is_scope_prefix("string"@, scope)) by {
        reveal_strlit("string");
        lemma_other_prefix("string"@, scope, 0);
    }
    assert(!is_scope_prefix("meta.attribute"@, scope)) by {
        reveal_strlit("meta.attribute");
        lemma_other_prefix("meta.attribute"@, scope, 0);
    }
}

proof fn lemma_scope_keyword(rest: Seq<char>)
    requires
        rest.len() == 0 || rest[0] == '.',
    ensures
        scope_kind("keyword"@ + rest) == Some(Highlight::Keyword),
{
    let scope = "keyword"@ + rest;
    reveal_strlit("keyword");
    lemma_own_prefix("keyword"@, rest);
    assert(!is_scope_prefix("comment"@, scope)) by {
        reveal_strlit("comment");
        lemma_other_prefix("comment"@, scope, 0);
    }
    assert(!is_scope_prefix("string"@, scope)) by {
        reveal_strlit("string");
        lemma_other_prefix("string"@, scope, 0);
    }
    assert(!is_scope_prefix("constant.numeric"@, scope)) by {
        reveal_strlit("constant.numeric");
        lemma_other_prefix("constant.numeric"@, scope, 0);
    }
    assert(!is_scope_prefix("meta.attribute"@, scope)) by {
        reveal_strlit("meta.attribute");
        lemma_other_prefix("meta.attribute"@, scope, 0);
    }
    assert(!is_scope_prefix("constant"@, scope)) by {
        reveal_strlit("constant");
        lemma_other_prefix("constant"@, scope, 0);
    }
}

proof fn lemma_scope_storage_type(rest: Seq<char>)
    requires
        rest.len() == 0 || rest[0] == '.',
    ensures
        scope_kind("storage.type"@ + rest) == Some(Highlight::Keyword),
{
    let scope = "storage.type"@ + rest;
    reveal_strlit("storage.type");
    lemma_own_prefix("storage.type"@, rest);
    assert(!is_scope_prefix("comment"@, scope)) by {
        reveal_strlit("comment");
        lemma_other_prefix("comment"@, scope, 0);
    }
    assert(!is_scope_prefix("string"@, scope)) by {
        reveal_strlit("string");
        lemma_other_prefix("string"@, scope, 2);
    }
    assert(!is_scope_prefix("constant.numeric"@, scope)) by {
        reveal_strlit("constant.numeric");
        lemma_other_prefix("constant.numeric"@, scope, 0);
    }
    assert(!is_scope_prefix("meta.attribute"@, scope)) by {
        reveal_strlit("meta.attribute");
        lemma_other_prefix("meta.attribute"@, scope, 0);
    }
    assert(!is_scope_prefix("constant"@, scope)) by {
        reveal_strlit("constant");
        lemma_other_prefix("constant"@, scope, 0);
    }
    assert(!is_scope_prefix("keyword"@, scope)) by {
        reveal_strlit("keyword");
        lemma_other_prefix("keyword"@, scope, 0);
    }
}

proof fn lemma_scope_entity_name_function(rest: Seq<char>)
    requires
        rest.len() == 0 || rest[0] == '.',
    ensures
        scope_kind("entity.name.function"@ + rest) == Some(Highlight::Function),
{
    let scope = "entity.name.function"@ + rest;
    reveal_strlit("entity.name.function");
    lemma_own_prefix("entity.name.function"@, rest);
    assert(!is_scope_prefix("comment"@, scope)) by {
        reveal_strlit("comment");
        lemma_other_prefix("comment"@, scope, 0);
    }
    assert(!is_scope_prefix("string"@, scope)) by {
        reveal_strlit("string");
        lemma_other_prefix("string"@, scope, 0);
    }
    assert(!is_scope_prefix("constant.numeric"@, scope)) by {
        reveal_strlit("constant.numeric");
        lemma_other_prefix("constant.numeric"@, scope, 0);
    }
    assert(!is_scope_prefix("meta.attribute"@, scope)) by {
        reveal_strlit("meta.attribute");
        lemma_other_prefix("meta.attribute"@, scope, 0);
    }
    assert(!is_scope_prefix("constant"@, scope)) by {
        reveal_strlit("constant");
        lemma_other_prefix("constant"@, scope, 0);
    }
    assert(!is_scope_prefix("keyword"@, scope)) by {
        reveal_strlit("keyword");
        lemma_other_prefix("keyword"@, scope, 0);
    }
    assert(!is_scope_prefix("storage.type"@, scope)) by {
        reveal_strlit("storage.type");
        lemma_other_prefix("storage.type"@, scope, 0);
    }
}

proof fn lemma_scope_support_function(rest: Seq<char>)
    requires
        rest.len() == 0 || rest[0] == '.',
    ensures
        scope_kind("support.function"@ + rest) == Some(Highlight::Function),
{
    let scope = "support.function"@ + rest;
    reveal_strlit("support.function");
    lemma_own_prefix("support.function"@, rest);
    assert(!is_scope_prefix("comment"@, scope)) by {
        reveal_strlit("comment");
        lemma_other_prefix("comment"@, scope, 0);
    }
    assert(!is_scope_prefix("string"@, scope)) by {
        reveal_strlit("string");
        lemma_other_prefix("string"@, scope, 1);
    }
    assert(!is_scope_prefix("constant.numeric"@, scope)) by {
        reveal_strlit("constant.numeric");
        lemma_other_prefix("constant.numeric"@, scope, 0);
    }
    assert(!is_scope_prefix("meta.attribute"@, scope)) by {
        reveal_strlit("meta.attribute");
        lemma_other_prefix("meta.attribute"@, scope, 0);
    }
    assert(!is_scope_prefix("constant"@, scope)) by {
        reveal_strlit("constant");
        lemma_other_prefix("constant"@, scope, 0);
    }
    assert(!is_scope_prefix("keyword"@, scope)) by {
        reveal_strlit("keyword");
        lemma_other_prefix("keyword"@, scope, 0);
    }
    assert(!is_scope_prefix("storage.type"@, scope)) by {
        reveal_strlit("storage.type");
        lemma_other_prefix("storage.type"@, scope, 1);
    }
    assert(!is_scope_prefix("entity.name.function"@, scope)) by {
        reveal_strlit("entity.name.function");
        lemma_other_prefix("entity.name.function"@, scope, 0);
    }
}

proof fn lemma_scope_meta_function_call(rest: Seq<char>)
    requires
        rest.len() == 0 || rest[0] == '.',
    ensures
        scope_kind("meta.function-call"@ + rest) == Some(Highlight::Function),
{
    let scope = "meta.function-call"@ + rest;
    reveal_strlit("meta.function-call");
    lemma_own_prefix("meta.function-call"@, rest);
    assert(!is_scope_prefix("comment"@, scope)) by {
        reveal_strlit("comment");
        lemma_other_prefix("comment"@, scope, 0);
    }
    assert(!is_scope_prefix("string"@, scope)) by {
        reveal_strlit("string");
        lemma_other_prefix("string"@, scope, 0);
    }
    assert(!is_scope_prefix("constant.numeric"@, scope)) by {
        reveal_strlit("constant.numeric");
        lemma_other_prefix("constant.numeric"@, scope, 0);
    }
    assert(!is_scope_prefix("meta.attribute"@, scope)) by {
        reveal_strlit("meta.attribute");
        lemma_other_prefix("meta.attribute"@, scope, 5);
    }
    assert(!is_scope_prefix("constant"@, scope)) by {
        reveal_strlit("constant");
        lemma_other_prefix("constant"@, scope, 0);
    }
    assert(!is_scope_prefix("keyword"@, scope)) by {
        reveal_strlit("keyword");
        lemma_other_prefix("keyword"@, scope, 0);
    }
    assert(!is_scope_prefix("storage.type"@, scope)) by {
        reveal_strlit("storage.type");
        lemma_other_prefix("storage.type"@, scope, 0);
    }
    assert(!is_scope_prefix("entity.name.function"@, scope)) by {
        reveal_strlit("entity.name.function");
        lemma_other_prefix("entity.name.function"@, scope, 0);
    }
    assert(!is_scope_prefix("support.function"@, scope)) by {
        reveal_strlit("support.function");
        lemma_other_prefix("support.function"@, scope, 0);
    }
}

proof fn lemma_scope_variable_function(rest: Seq<char>)
    requires
        rest.len() == 0 || rest[0] == '.',
    ensures
        scope_kind("variable.function"@ + rest) == Some(Highlight::Function),
{
    let scope = "variable.function"@ + rest;
    reveal_strlit("variable.function");
    lemma_own_prefix("variable.function"@, rest);
    assert(!is_scope_prefix("comment"@, scope)) by {
        reveal_strlit("comment");
        lemma_other_prefix("comment"@, scope, 0);
    }
    assert(!is_scope_prefix("string"@, scope)) by {
        reveal_strlit("string");
        lemma_other_prefix("string"@, scope, 0);
    }
    assert(!is_scope_prefix("constant.numeric"@, scope)) by {
        reveal_strlit("constant.numeric");
        lemma_other_prefix("constant.numeric"@, scope, 0);
    }
    assert(!is_scope_prefix("meta.attribute"@, scope)) by {
        reveal_strlit("meta.attribute");
        lemma_other_prefix("meta.attribute"@, scope, 0);
    }
    assert(!is_scope_prefix("constant"@, scope)) by {
        reveal_strlit("constant");
        lemma_other_prefix("constant"@, scope, 0);
    }
    assert(!is_scope_prefix("keyword"@, scope)) by {
        reveal_strlit("keyword");
        lemma_other_prefix("keyword"@, scope, 0);
    }
    assert(!is_scope_prefix("storage.type"@, scope)) by {
        reveal_strlit("storage.type");
        lemma_other_prefix("storage.type"@, scope, 0);
    }
    assert(!is_scope_prefix("entity.name.function"@, scope)) by {
        reveal_strlit("entity.name.function");
        lemma_other_prefix("entity.name.function"@, scope, 0);
    }
    assert(!is_scope_prefix("support.function"@, scope)) by {
        reveal_strlit("support.function");
        lemma_other_prefix("support.function"@, scope, 0);
    }
    assert(!is_scope_prefix("meta.function-call"@, scope)) by {
        reveal_strlit("meta.function-call");
        lemma_other_prefix("meta.function-call"@, scope, 0);
    }
}

proof fn lemma_scope_entity_name_type(rest: Seq<char>)
    requires
        rest.len() == 0 || rest[0] == '.',
    ensures
        scope_kind("entity.name.type"@ + rest) == Some(Highlight::Type),
{
    let scope = "entity.name.type"@ + rest;
    reveal_strlit("entity.name.type");
    lemma_own_prefix("entity.name.type"@, rest);
    assert(!is_scope_prefix("comment"@, scope)) by {
        reveal_strlit("comment");
        lemma_other_prefix("comment"@, scope, 0);
    }
    assert(!is_scope_prefix("string"@, scope)) by {
        reveal_strlit("string");
        lemma_other_prefix("string"@, scope, 0);
    }
    assert(!is_scope_prefix("constant.numeric"@, scope)) by {
        reveal_strlit("constant.numeric");
        lemma_other_prefix("constant.numeric"@, scope, 0);
    }
    assert(!is_scope_prefix("meta.attribute"@, scope)) by {
        reveal_strlit("meta.attribute");
        lemma_other_prefix("meta.attribute"@, scope, 0);
    }
    assert(!is_scope_prefix("constant"@, scope)) by {
        reveal_strlit("constant");
        lemma_other_prefix("constant"@, scope, 0);
    }
    assert(!is_scope_prefix("keyword"@, scope)) by {
        reveal_strlit("keyword");
        lemma_other_prefix("keyword"@, scope, 0);
    }
    assert(!is_scope_prefix("storage.type"@, scope)) by {
        reveal_strlit("storage.type");
        lemma_other_prefix("storage.type"@, scope, 0);
    }
    assert(!is_scope_prefix("entity.name.function"@, scope)) by {
        reveal_strlit("entity.name.function");
        lemma_other_prefix("entity.name.function"@, scope, 12);
    }
    assert(!is_scope_prefix("support.function"@, scope)) by {
        reveal_strlit("support.function");
        lemma_other_prefix("support.function"@, scope, 0);
    }
    assert(!is_scope_prefix("meta.function-call"@, scope)) by {
        reveal_strlit("meta.function-call");
        lemma_other_prefix("meta.function-call"@, scope, 0);
    }
    assert(!is_scope_prefix("variable.function"@, scope)) by {
        reveal_strlit("variable.function");
        lemma_other_prefix("variable.function"@, scope, 0);
    }
}

proof fn lemma_scope_support_type(rest: Seq<char>)
    requires
        rest.len() == 0 || rest[0] == '.',
    ensures
        scope_kind("support.type"@ + rest) == Some(Highlight::Type),
{
    let scope = "support.type"@ + rest;
    reveal_strlit("support.type");
    lemma_own_prefix("support.type"@, rest);
    assert(!is_scope_prefix("comment"@, scope)) by {
        reveal_strlit("comment");
        lemma_other_prefix("comment"@, scope, 0);
    }
    assert(!is_scope_prefix("string"@, scope)) by {
        reveal_strlit("string");
        lemma_other_prefix("string"@, scope, 1);
    }
    assert(!is_scope_prefix("constant.numeric"@, scope)) by {
        reveal_strlit("constant.numeric");
        lemma_other_prefix("constant.numeric"@, scope, 0);
    }
    assert(!is_scope_prefix("meta.attribute"@, scope)) by {
        reveal_strlit("meta.attribute");
        lemma_other_prefix("meta.attribute"@, scope, 0);
    }
    assert(!is_scope_prefix("constant"@, scope)) by {
        reveal_strlit("constant");
        lemma_other_prefix("constant"@, scope, 0);
    }
    assert(!is_scope_prefix("keyword"@, scope)) by {
        reveal_strlit("keyword");
        lemma_other_prefix("keyword"@, scope, 0);
    }
    assert(!is_scope_prefix("storage.type"@, scope)) by {
        reveal_strlit("storage.type");
        lemma_other_prefix("storage.type"@, scope, 1);
    }
    assert(!is_scope_prefix("entity.name.function"@, scope)) by {
        reveal_strlit("entity.name.function");
        lemma_other_prefix("entity.name.function"@, scope, 0);
    }
    assert(!is_scope_prefix("support.function"@, scope)) by {
        reveal_strlit("support.function");
        lemma_other_prefix("support.function"@, scope, 8);
    }
    assert(!is_scope_prefix("meta.function-call"@, scope)) by {
        reveal_strlit("meta.function-call");
        lemma_other_prefix("meta.function-call"@, scope, 0);
    }
    assert(!is_scope_prefix("variable.function"@, scope)) by {
        reveal_strlit("variable.function");
        lemma_other_prefix("variable.function"@, scope, 0);
    }
    assert(!is_scope_prefix("entity.name.type"@, scope)) by {
        reveal_strlit("entity.name.type");
        lemma_other_prefix("entity.name.type"@, scope, 0);
    }
}

proof fn lemma_scope_entity_name(rest: Seq<char>)
    requires
        rest.len() == 0 || rest[0] == '.',
        !is_scope_prefix("entity.name.function"@, "entity.name"@ + rest),
        !is_scope_prefix("entity.name.type"@, "entity.name"@ + rest),
    ensures
        scope_kind("entity.name"@ + rest) == Some(Highlight::Function),
{
    let scope = "entity.name"@ + rest;
    reveal_strlit("entity.name");
    lemma_own_prefix("entity.name"@, rest);
    assert(!is_scope_prefix("comment"@, scope)) by {
        reveal_strlit("comment");
        lemma_other_prefix("comment"@, scope, 0);
    }
    assert(!is_scope_prefix("string"@, scope)) by {
        reveal_strlit("string");
        lemma_other_prefix("string"@, scope, 0);
    }
    assert(!is_scope_prefix("constant.numeric"@, scope)) by {
        reveal_strlit("constant.numeric");
        lemma_other_prefix("constant.numeric"@, scope, 0);
    }
    assert(!is_scope_prefix("meta.attribute"@, scope)) by {
        reveal_strlit("meta.attribute");
        lemma_other_prefix("meta.attribute"@, scope, 0);
    }
    assert(!is_scope_prefix("constant"@, scope)) by {
        reveal_strlit("constant");
        lemma_other_prefix("constant"@, scope, 0);
    }
    assert(!is_scope_prefix("keyword"@, scope)) by {
        reveal_strlit("keyword");
        lemma_other_prefix("keyword"@, scope, 0);
    }
    assert(!is_scope_prefix("storage.type"@, scope)) by {
        reveal_strlit("storage.type");
        lemma_other_prefix("storage.type"@, scope, 0);
    }
    assert(!is_scope_prefix("support.function"@, scope)) by {
        reveal_strlit("support.function");
        lemma_other_prefix("support.function"@, scope, 0);
    }
    assert(!is_scope_prefix("meta.function-call"@, scope)) by {
        reveal_strlit("meta.function-call");
        lemma_other_prefix("meta.function-call"@, scope, 0);
    }
    assert(!is_scope_prefix("variable.function"@, scope)) by {
        reveal_strlit("variable.function");
        lemma_other_prefix("variable.function"@, scope, 0);
    }
    assert(!is_scope_prefix("support.type"@, scope)) by {
        reveal_strlit("support.type");
        lemma_other_prefix("support.type"@, scope, 0);
    }
}

proof fn lemma_scope_variable(rest: Seq<char>)
    requires
        rest.len() == 0 || rest[0] == '.',
        !is_scope_prefix("variable.function"@, "variable"@ + rest),
    ensures
        scope_kind("variable"@ + rest) == Some(Highlight::Variable),
{
    let scope = "variable"@ + rest;
    reveal_strlit("variable");
    lemma_own_prefix("variable"@, rest);
    assert(!is_scope_prefix("comment"@, scope)) by {
        reveal_strlit("comment");
        lemma_other_prefix("comment"@, scope, 0);
    }
    assert(!is_scope_prefix("string"@, scope)) by {
        reveal_strlit("string");
        lemma_other_prefix("string"@, scope, 0);
    }
    assert(!is_scope_prefix("constant.numeric"@, scope)) by {
        reveal_strlit("constant.numeric");
        lemma_other_prefix("constant.numeric"@, scope, 0);
    }
    assert(!is_scope_prefix("meta.attribute"@, scope)) by {
        reveal_strlit("meta.attribute");
        lemma_other_prefix("meta.attribute"@, scope, 0);
    }
    assert(!is_scope_prefix("constant"@, scope)) by {
        reveal_strlit("constant");
        lemma_other_prefix("constant"@, scope, 0);
    }
    assert(!is_scope_prefix("keyword"@, scope)) by {
        reveal_strlit("keyword");
        lemma_other_prefix("keyword"@, scope, 0);
    }
    assert(!is_scope_prefix("storage.type"@, scope)) by {
        reveal_strlit("storage.type");
        lemma_other_prefix("storage.type"@, scope, 0);
    }
    assert(!is_scope_prefix("entity.name.function"@, scope)) by {
        reveal_strlit("entity.name.function");
        lemma_other_prefix("entity.name.function"@, scope, 0);
    }
    assert(!is_scope_prefix("support.function"@, scope)) by {
        reveal_strlit("support.function");
        lemma_other_prefix("support.function"@, scope, 0);
    }
    assert(!is_scope_prefix("meta.function-call"@, scope)) by {
        reveal_strlit("meta.function-call");
        lemma_other_prefix("meta.function-call"@, scope, 0);
    }
    assert(!is_scope_prefix("entity.name.type"@, scope)) by {
        reveal_strlit("entity.name.type");
        lemma_other_prefix("entity.name.type"@, scope, 0);
    }
    assert(!is_scope_prefix("support.type"@, scope)) by {
        reveal_strlit("support.type");
        lemma_other_prefix("support.type"@, scope, 0);
    }
    assert(!is_scope_prefix("entity.name"@, scope)) by {
        reveal_strlit("entity.name");
        lemma_other_prefix("entity.name"@, scope, 0);
    }
}

proof fn lemma_scope_punctuation(rest: Seq<char>)
    requires
        rest.len() == 0 || rest[0] == '.',
    ensures
        scope_kind("punctuation"@ + rest) == Some(Highlight::Punctuation),
{
    let scope = "punctuation"@ + rest;
    reveal_strlit("punctuation");
    lemma_own_prefix("punctuation"@, rest);
    assert(!is_scope_prefix("comment"@, scope)) by {
        reveal_strlit("comment");
        lemma_other_prefix("comment"@, scope, 0);
    }
    assert(!is_scope_prefix("string"@, scope)) by {
        reveal_strlit("string");
        lemma_other_prefix("string"@, scope, 0);
    }
    assert(!is_scope_prefix("constant.numeric"@, scope)) by {
        reveal_strlit("constant.numeric");
        lemma_other_prefix("constant.numeric"@, scope, 0);
    }
    assert(!is_scope_prefix("meta.attribute"@, scope)) by {
        reveal_strlit("meta.attribute");
        lemma_other_prefix("meta.attribute"@, scope, 0);
    }
    assert(!is_scope_prefix("constant"@, scope)) by {
        reveal_strlit("constant");
        lemma_other_prefix("constant"@, scope, 0);
    }
    assert(!is_scope_prefix("keyword"@, scope)) by {
        reveal_strlit("keyword");
        lemma_other_prefix("keyword"@, scope, 0);
    }
    assert(!is_scope_prefix("storage.type"@, scope)) by {
        reveal_strlit("storage.type");
        lemma_other_prefix("storage.type"@, scope, 0);
    }
    assert(!is_scope_prefix("entity.name.function"@, scope)) by {
        reveal_strlit("entity.name.function");
        lemma_other_prefix("entity.name.function"@, scope, 0);
    }
    assert(!is_scope_prefix("support.function"@, scope)) by {
        reveal_strlit("support.function");
        lemma_other_prefix("support.function"@, scope, 0);
    }
    assert(!is_scope_prefix("meta.function-call"@, scope)) by {
        reveal_strlit("meta.function-call");
        lemma_other_prefix("meta.function-call"@, scope, 0);
    }
    assert(!is_scope_prefix("variable.function"@, scope)) by {
        reveal_strlit("variable.function");
        lemma_other_prefix("variable.function"@, scope, 0);
    }
    assert(!is_scope_prefix("entity.name.type"@, scope)) by {
        reveal_strlit("entity.name.type");
        lemma_other_prefix("entity.name.type"@, scope, 0);
    }
    assert(!is_scope_prefix("support.type"@, scope)) by {
        reveal_strlit("support.type");
        lemma_other_prefix("support.type"@, scope, 0);
    }
    assert(!is_scope_prefix("entity.name"@, scope)) by {
        reveal_strlit("entity.name");
        lemma_other_prefix("entity.name"@, scope, 0);
    }
    assert(!is_scope_prefix("variable"@, scope)) by {
        reveal_strlit("variable");
        lemma_other_prefix("variable"@, scope, 0);
    }
}

/// A scope is painted by the rule that names it, whatever follows behind a dot.
pub proof fn law_scopes_are_painted(rest: Seq<char>)
    requires
        rest.len() == 0 || rest[0] == '.',
    ensures
        scope_kind("comment"@ + rest) == Some(Highlight::Comment),
        scope_kind("string"@ + rest) == Some(Highlight::String),
        scope_kind("constant.numeric"@ + rest) == Some(Highlight::Number),
        scope_kind("meta.attribute"@ + rest) == Some(Highlight::Attribute),
        scope_kind("keyword"@ + rest) == Some(Highlight::Keyword),
        scope_kind("storage.type"@ + rest) == Some(Highlight::Keyword),
        scope_kind("entity.name.function"@ + rest) == Some(Highlight::Function),
        scope_kind("support.function"@ + rest) == Some(Highlight::Function),
        scope_kind("meta.function-call"@ + rest) == Some(Highlight::Function),
        scope_kind("variable.function"@ + rest) == Some(Highlight::Function),
        scope_kind("entity.name.type"@ + rest) == Some(Highlight::Type),
        scope_kind("support.type"@ + rest) == Some(Highlight::Type),
        scope_kind("punctuation"@ + rest) == Some(Highlight::Punctuation),
{
    lemma_scope_comment(rest);
    lemma_scope_string(rest);
    lemma_scope_constant_numeric(rest);
    lemma_scope_meta_attribute(rest);
    lemma_scope_keyword(rest);
    lemma_scope_storage_type(rest);
    lemma_scope_entity_name_function(rest);
    lemma_scope_support_function(rest);
    lemma_scope_meta_function_call(rest);
    lemma_scope_variable_function(rest);
    lemma_scope_entity_name_type(rest);
    lemma_scope_support_type(rest);
    lemma_scope_punctuation(rest);
}

/// Constants that are no numbers are painted as constants.
pub proof fn law_constants_are_painted(rest: Seq<char>)
    requires
        rest.len() == 0 || rest[0] == '.',
        !is_scope_prefix("constant.numeric"@, "constant"@ + rest),
    ensures
        scope_kind("constant"@ + rest) == Some(Highlight::Constant),
{
    lemma_scope_constant(rest);
}

/// Names of entities that are no types are painted as functions.
pub proof fn law_entities_are_painted(rest: Seq<char>)
    requires
        rest.len() == 0 || rest[0] == '.',
        !is_scope_prefix("entity.name.type"@, "entity.name"@ + rest),
    ensures
        scope_kind("entity.name"@ + rest) == Some(Highlight::Function),
{
    let scope = "entity.name"@ + rest;
    if is_scope_prefix("entity.name.function"@, scope) {
        let n = "entity.name.function"@.len() as int;
        let more = scope.skip(n);
        assert(scope =~= "entity.name.function"@ + more);
        lemma_scope_entity_name_function(more);
    } else {
        lemma_scope_entity_name(rest);
    }
}

/// Variables that are no functions are painted as variables.
pub proof fn law_variables_are_painted(rest: Seq<char>)
    requires
        rest.len() == 0 || rest[0] == '.',
        !is_scope_prefix("variable.function"@, "variable"@ + rest),
    ensures
        scope_kind("variable"@ + rest) == Some(Highlight::Variable),
{
    lemma_scope_variable(rest);
}

/// Any other scope says nothing of the bucket.
pub proof fn law_other_scopes_say_nothing(scope: Seq<char>)
    requires
        !is_scope_prefix("comment"@, scope),
        !is_scope_prefix("string"@, scope),
        !is_scope_prefix("constant.numeric"@, scope),
        !is_scope_prefix("meta.attribute"@, scope),
        !is_scope_prefix("constant"@, scope),
        !is_scope_prefix("keyword"@, scope),
        !is_scope_prefix("storage.type"@, scope),
        !is_scope_prefix("entity.name.function"@, scope),
        !is_scope_prefix("support.function"@, scope),
        !is_scope_prefix("meta.function-call"@, scope),
        !is_scope_prefix("variable.function"@, scope),
        !is_scope_prefix("entity.name.type"@, scope),
        !is_scope_prefix("support.type"@, scope),
        !is_scope_prefix("entity.name"@, scope),
        !is_scope_prefix("variable"@, scope),
        !is_scope_prefix("punctuation"@, scope),
    ensures
        scope_kind(scope) is None,
{
}

/// A scope has a prefix exactly where it is that prefix, alone or with a dot and
/// more behind it.
pub proof fn law_scope_prefix(prefix: Seq<char>, scope: Seq<char>)
    ensures
        is_scope_prefix(prefix, scope) <==> scope == prefix || exists|more: Seq<char>|
            scope == #[trigger] (prefix + seq!['.'] + more),
{
    let n = prefix.len() as int;
    if is_scope_prefix(prefix, scope) {
        if scope.len() == n {
            assert(scope =~= scope.take(n));
        } else {
            assert(scope =~= prefix + seq!['.'] + scope.skip(n + 1));
        }
    }
    if scope == prefix {
        assert(scope.take(n) =~= prefix);
    }
    if exists|more: Seq<char>| scope == #[trigger] (prefix + seq!['.'] + more) {
        let more = choose|more: Seq<char>| scope == #[trigger] (prefix + seq!['.'] + more);
        assert(scope.take(n) =~= prefix);
        assert(scope[n] == '.');
    }
}

/// The innermost scope that says something of the bucket decides, and without
/// one the bucket is the default.
pub proof fn law_innermost_scope_decides(scopes: Seq<Seq<char>>, i: int, kind: Highlight)
    requires
        0 <= i < scopes.len(),
        scope_kind(scopes[i]) == Some(kind),
        forall|j: int| i < j < scopes.len() ==> scope_kind(#[trigger] scopes[j]) is None,
    ensures
        stack_kind(scopes) == kind,
    decreases scopes.len(),
{
    if i < scopes.len() - 1 {
        law_innermost_scope_decides(scopes.drop_last(), i, kind);
    }
}

/// A stack whose scopes all say nothing of the bucket is painted as default.
pub proof fn law_silent_scopes_are_default(scopes: Seq<Seq<char>>)
    requires
        forall|j: int| 0 <= j < scopes.len() ==> scope_kind(#[trigger] scopes[j]) is None,
    ensures
        stack_kind(scopes) == Highlight::Default,
    decreases scopes.len(),
{
    if scopes.len() > 0 {
        law_silent_scopes_are_default(scopes.drop_last());
    }
}

/// Each grammar goes by its name or its extension, and no other hint names a
/// grammar.
pub proof fn law_hints_name_grammars(hint: Seq<char>)
    ensures
        hint_grammar(hint) == Some(Grammar::Rust) <==> hint == "rust"@ || hint == "rs"@,
        hint_grammar(hint) == Some(Grammar::Python) <==> hint == "python"@ || hint == "py"@,
        hint_grammar(hint) == Some(Grammar::TypeScript) <==> hint == "typescript"@ || hint == "ts"@,
        hint_grammar(hint) == Some(Grammar::Tsx) <==> hint == "tsx"@,
{
    reveal_strlit("rust");
    assert("rust"@.len() == 4);
    reveal_strlit("rs");
    assert("rs"@.len() == 2);
    reveal_strlit("python");
    assert("python"@.len() == 6);
    reveal_strlit("py");
    assert("py"@.len() == 2);
    reveal_strlit("typescript");
    assert("typescript"@.len() == 10);
    reveal_strlit("ts");
    assert("ts"@.len() == 2);
    reveal_strlit("tsx");
    assert("tsx"@.len() == 3);
    assert("rs"@[0] != "py"@[0] && "rs"@[0] != "ts"@[0] && "py"@[0] != "ts"@[0]);
}

/// Language names are looked up by their extensions, and anything else is taken
/// for an extension as it stands.
pub proof fn law_hints_name_extensions(hint: Seq<char>)
    ensures
        hint == "rust"@ ==> hint_extension(hint) == "rs"@,
        hint == "python"@ ==> hint_extension(hint) == "py"@,
        hint == "typescript"@ ==> hint_extension(hint) == "ts"@,
        hint == "javascript"@ ==> hint_extension(hint) == "js"@,
        hint == "markdown"@ ==> hint_extension(hint) == "md"@,
        hint == "yml"@ ==> hint_extension(hint) == "yaml"@,
        hint == "c++"@ ==> hint_extension(hint) == "cpp"@,
        hint == "shell"@ || hint == "bash"@ ==> hint_extension(hint) == "sh"@,
        hint != "rust"@ && hint != "python"@ && hint != "typescript"@ && hint != "javascript"@
            && hint != "markdown"@ && hint != "yml"@ && hint != "c++"@ && hint != "shell"@ && hint
            != "bash"@ ==> hint_extension(hint) == hint,
{
    reveal_strlit("rust");
    assert("rust"@.len() == 4);
    reveal_strlit("python");
    assert("python"@.len() == 6);
    reveal_strlit("typescript");
    assert("typescript"@.len() == 10);
    reveal_strlit("javascript");
    assert("javascript"@.len() == 10);
    reveal_strlit("markdown");
    assert("markdown"@.len() == 8);
    reveal_strlit("yml");
    assert("yml"@.len() == 3);
    reveal_strlit("c++");
    assert("c++"@.len() == 3);
    reveal_strlit("shell");
    assert("shell"@.len() == 5);
    reveal_strlit("bash");
    assert("bash"@.len() == 4);
    assert("rust"@[0] != "bash"@[0]);
    assert("typescript"@[0] != "javascript"@[0]);
    assert("yml"@[0] != "c++"@[0]);
}

/// A file goes by the language of its extension, and by the extension itself
/// where tree-sitter does not know the language.
pub proof fn law_extensions_name_languages(ext: Seq<char>)
    ensures
        ext == "rs"@ ==> extension_hint(ext) == "rust"@,
        ext == "py"@ || ext == "pyi"@ ==> extension_hint(ext) == "python"@,
        ext == "ts"@ || ext == "mts"@ || ext == "cts"@ ==> extension_hint(ext) == "typescript"@,
        ext != "rs"@ && ext != "py"@ && ext != "pyi"@ && ext != "ts"@ && ext != "mts"@ && ext
            != "cts"@ ==> extension_hint(ext) == ext,
{
    reveal_strlit("rs");
    assert("rs"@.len() == 2);
    reveal_strlit("py");
    assert("py"@.len() == 2);
    reveal_strlit("pyi");
    assert("pyi"@.len() == 3);
    reveal_strlit("ts");
    assert("ts"@.len() == 2);
    reveal_strlit("mts");
    assert("mts"@.len() == 3);
    reveal_strlit("cts");
    assert("cts"@.len() == 3);
    assert("rs"@[0] != "py"@[0] && "rs"@[0] != "ts"@[0] && "py"@[0] != "ts"@[0]);
    assert("pyi"@[0] != "mts"@[0] && "pyi"@[0] != "cts"@[0]);
}

/// A byte that some run paints is painted still when more is appended.
proof fn lemma_paint_stays(
    runs: Seq<HighlightedRun>,
    start: usize,
    end: usize,
    kind: Highlight,
    byte: int,
    k: Highlight,
)
    requires
        paints(runs, byte, k),
    ensures
        paints(with_run(runs, start, end, kind), byte, k),
{
    let next = with_run(runs, start, end, kind);
    let i = choose|i: int|
        0 <= i < runs.len() && (#[trigger] runs[i]).start <= byte < runs[i].end && runs[i].kind
            == k;
    assert(next[i].start <= byte < next[i].end && next[i].kind == k);
}

/// An appended stretch paints its bytes.
proof fn lemma_appended_paints(
    runs: Seq<HighlightedRun>,
    start: usize,
    end: usize,
    kind: Highlight,
    byte: int,
)
    requires
        forall|i: int| 0 <= i < runs.len() ==> (#[trigger] runs[i]).start < runs[i].end,
        start <= byte < end,
    ensures
        paints(with_run(runs, start, end, kind), byte, kind),
{
    let next = with_run(runs, start, end, kind);
    let i = next.len() - 1;
    assert(next[i].start <= byte < next[i].end && next[i].kind == kind);
}

/// A byte that is painted after some steps is painted so after all of them.
proof fn lemma_steps_keep_paint(
    names: Seq<Seq<char>>,
    steps: Seq<Option<Step>>,
    n: int,
    byte: int,
    kind: Highlight,
)
    requires
        0 <= n <= steps.len(),
        paints(progress(names, steps.take(n)).runs, byte, kind),
    ensures
        paints(progress(names, steps).runs, byte, kind),
    decreases steps.len(),
{
    if n == steps.len() {
        assert(steps.take(n) =~= steps);
    } else {
        assert(steps.drop_last().take(n) =~= steps.take(n));
        lemma_steps_keep_paint(names, steps.drop_last(), n, byte, kind);
        let p = progress(names, steps.drop_last());
        if let Some(Step::Source { start, end }) = steps.last() {
            lemma_paint_stays(p.runs, p.covered, start, Highlight::Default, byte, kind);
            let mid = with_run(p.runs, p.covered, start, Highlight::Default);
            let top = if p.stack.len() > 0 {
                p.stack.last()
            } else {
                Highlight::Default
            };
            lemma_paint_stays(mid, start, end, top, byte, kind);
        }
    }
}

/// Runs that cover a source paint no byte twice.
proof fn lemma_painted_once(runs: Seq<HighlightedRun>, n: int, byte: int, a: Highlight, b: Highlight)
    requires
        runs_cover(runs, n),
        paints(runs, byte, a),
        paints(runs, byte, b),
    ensures
        a == b,
{
    let i = choose|i: int|
        0 <= i < runs.len() && (#[trigger] runs[i]).start <= byte < runs[i].end && runs[i].kind
            == a;
    let j = choose|j: int|
        0 <= j < runs.len() && (#[trigger] runs[j]).start <= byte < runs[j].end && runs[j].kind
            == b;
    if i < j {
        lemma_runs_ascend(runs, n, i, j);
    } else if j < i {
        lemma_runs_ascend(runs, n, j, i);
    }
}

/// A later run starts no earlier than an earlier one ends.
proof fn lemma_runs_ascend(runs: Seq<HighlightedRun>, n: int, i: int, j: int)
    requires
        runs_cover(runs, n),
        0 <= i < j < runs.len(),
    ensures
        runs[i].end <= runs[j].start,
    decreases j - i,
{
    if j == i + 1 {
        assert(runs[i].end == runs[j].start);
    } else {
        lemma_runs_ascend(runs, n, i, j - 1);
        assert(runs[j - 1].end == runs[j].start);
    }
}

/// The captures that are open at a step, where capture `k` is the innermost one
/// or those opened behind it are open too.
proof fn lemma_open_captures(names: Seq<Seq<char>>, steps: Seq<Option<Step>>, k: int, m: int)
    requires
        0 <= k < m <= steps.len(),
        forall|j: int| 0 <= j < steps.len() ==> #[trigger] steps[j] is Some,
        steps[k]->0 is Start,
        forall|j: int|
            #![trigger steps.subrange(k + 1, j)]
            k < j <= m ==> steps.subrange(k + 1, j).filter(
                |s: Option<Step>| s->0 is Start,
            ).len() >= steps.subrange(k + 1, j).filter(|s: Option<Step>| s->0 is End).len(),
    ensures
        ({
            let base = progress(names, steps.take(k)).stack.len() as int;
            let stack = progress(names, steps.take(m)).stack;
            let inner = steps.subrange(k + 1, m);
            &&& stack.len() == base + 1 + inner.filter(|s: Option<Step>| s->0 is Start).len()
                - inner.filter(|s: Option<Step>| s->0 is End).len()
            &&& stack[base] == index_kind(names, steps[k]->0->Start_0 as int)
        }),
    decreases m,
{
    reveal(Seq::filter);
    let now = steps.take(m);
    assert(now.drop_last() =~= steps.take(m - 1));
    assert(now.last() == steps[m - 1]);
    assert(!failed(steps.take(m - 1))) by {
        assert forall|j: int| 0 <= j < m - 1 implies !(#[trigger] steps.take(m - 1)[j] is None) by {
            assert(steps[j] is Some);
        }
    }
    assert(steps[m - 1] is Some);
    if m == k + 1 {
        assert(steps.subrange(k + 1, m) =~= Seq::empty());
    } else {
        lemma_open_captures(names, steps, k, m - 1);
        assert(steps.subrange(k + 1, m).drop_last() =~= steps.subrange(k + 1, m - 1));
        assert(steps.subrange(k + 1, m).last() == steps[m - 1]);
    }
}

/// A stretch is painted as the innermost capture that is open there, and not
/// otherwise: the last one before it behind which as many captures end as start,
/// and nowhere more.
pub proof fn law_innermost_capture_paints(
    names: Seq<Seq<char>>,
    steps: Seq<Option<Step>>,
    len: usize,
    k: int,
    i: int,
    byte: int,
)
    requires
        0 <= k < i < steps.len(),
        forall|j: int| 0 <= j < steps.len() ==> #[trigger] steps[j] is Some,
        stretches_join(steps, len),
        steps[k]->0 is Start && steps[k]->0->Start_0 < names.len(),
        forall|j: int|
            #![trigger steps.subrange(k + 1, j)]
            k < j <= i ==> steps.subrange(k + 1, j).filter(
                |s: Option<Step>| s->0 is Start,
            ).len() >= steps.subrange(k + 1, j).filter(|s: Option<Step>| s->0 is End).len(),
        steps.subrange(k + 1, i).filter(|s: Option<Step>| s->0 is Start).len() == steps.subrange(
            k + 1,
            i,
        ).filter(|s: Option<Step>| s->0 is End).len(),
        steps[i]->0 is Source,
        steps[i]->0->Source_start <= byte < steps[i]->0->Source_end,
    ensures
        step_runs(names, steps, len) matches Some(runs) && {
            &&& exists|r: int|
                0 <= r < runs.len() && (#[trigger] runs[r]).start <= byte < runs[r].end
            &&& forall|r: int|
                0 <= r < runs.len() && (#[trigger] runs[r]).start <= byte < runs[r].end
                    ==> runs[r].kind == capture_kind(names[steps[k]->0->Start_0 as int])
        },
{
    let kind = capture_kind(names[steps[k]->0->Start_0 as int]);
    lemma_open_captures(names, steps, k, i);
    lemma_stretch_painted(names, steps, len, i, byte, kind);
}

/// A stretch before which no capture starts is painted as default.
pub proof fn law_uncaptured_is_default(
    names: Seq<Seq<char>>,
    steps: Seq<Option<Step>>,
    len: usize,
    i: int,
    byte: int,
)
    requires
        0 <= i < steps.len(),
        forall|j: int| 0 <= j < steps.len() ==> #[trigger] steps[j] is Some,
        forall|j: int| 0 <= j < i ==> !((#[trigger] steps[j])->0 is Start),
        stretches_join(steps, len),
        steps[i]->0 is Source,
        steps[i]->0->Source_start <= byte < steps[i]->0->Source_end,
    ensures
        step_runs(names, steps, len) matches Some(runs) && {
            &&& exists|r: int|
                0 <= r < runs.len() && (#[trigger] runs[r]).start <= byte < runs[r].end
            &&& forall|r: int|
                0 <= r < runs.len() && (#[trigger] runs[r]).start <= byte < runs[r].end
                    ==> runs[r].kind == Highlight::Default
        },
{
    lemma_no_captures(names, steps, i);
    lemma_stretch_painted(names, steps, len, i, byte, Highlight::Default);
}

/// Where no capture has started none is open.
proof fn lemma_no_captures(names: Seq<Seq<char>>, steps: Seq<Option<Step>>, i: int)
    requires
        0 <= i <= steps.len(),
        forall|j: int| 0 <= j < i ==> !((#[trigger] steps[j])->0 is Start),
    ensures
        progress(names, steps.take(i)).stack.len() == 0,
    decreases i,
{
    if i > 0 {
        lemma_no_captures(names, steps, i - 1);
        assert(steps.take(i).drop_last() =~= steps.take(i - 1));
        assert(steps.take(i).last() == steps[i - 1]);
    }
}

/// What lies behind all stretches is painted as default.
pub proof fn law_rest_is_default(
    names: Seq<Seq<char>>,
    steps: Seq<Option<Step>>,
    len: usize,
    byte: int,
)
    requires
        stretches_join(steps, len),
        forall|j: int|
            0 <= j < steps.len() ==> match #[trigger] steps[j] {
                Some(Step::Source { end, .. }) => end <= byte,
                _ => true,
            },
        0 <= byte < len,
    ensures
        step_runs(names, steps, len) matches Some(runs) && {
            &&& exists|r: int|
                0 <= r < runs.len() && (#[trigger] runs[r]).start <= byte < runs[r].end
            &&& forall|r: int|
                0 <= r < runs.len() && (#[trigger] runs[r]).start <= byte < runs[r].end
                    ==> runs[r].kind == Highlight::Default
        },
{
    lemma_joined_stretches(names, steps, len);
    lemma_progress_covers(names, steps, len);
    law_runs_cover_source(names, steps, len);
    let p = progress(names, steps);
    lemma_covered(names, steps, len, steps.len() as int);
    assert(steps.take(steps.len() as int) =~= steps);
    lemma_reached_within(steps, steps.len() as int, byte);
    lemma_appended_paints(p.runs, p.covered, len, Highlight::Default, byte);
    let runs = step_runs(names, steps, len)->0;
    lemma_only_paint(runs, len as int, byte, Highlight::Default);
}

/// The last stretch ends where every stretch ends.
proof fn lemma_reached_within(steps: Seq<Option<Step>>, n: int, byte: int)
    requires
        0 <= n <= steps.len(),
        0 <= byte,
        forall|j: int|
            0 <= j < steps.len() ==> match #[trigger] steps[j] {
                Some(Step::Source { end, .. }) => end <= byte,
                _ => true,
            },
    ensures
        reached(steps, n) <= byte,
    decreases n,
{
    if n > 0 {
        lemma_reached_within(steps, n - 1, byte);
        let last = steps[n - 1];
    }
}

/// A byte that is painted in one bucket is painted in no other.
proof fn lemma_only_paint(runs: Seq<HighlightedRun>, len: int, byte: int, kind: Highlight)
    requires
        runs_cover(runs, len),
        paints(runs, byte, kind),
    ensures
        exists|r: int| 0 <= r < runs.len() && (#[trigger] runs[r]).start <= byte < runs[r].end,
        forall|r: int|
            0 <= r < runs.len() && (#[trigger] runs[r]).start <= byte < runs[r].end
                ==> runs[r].kind == kind,
{
    assert forall|r: int|
        0 <= r < runs.len() && (#[trigger] runs[r]).start <= byte < runs[r].end implies runs[r].kind
        == kind by {
        assert(paints(runs, byte, runs[r].kind));
        lemma_painted_once(runs, len, byte, kind, runs[r].kind);
    }
}

/// A stretch is painted as the top of the stack at its step.
proof fn lemma_stretch_painted(
    names: Seq<Seq<char>>,
    steps: Seq<Option<Step>>,
    len: usize,
    i: int,
    byte: int,
    kind: Highlight,
)
    requires
        0 <= i < steps.len(),
        forall|j: int| 0 <= j < steps.len() ==> #[trigger] steps[j] is Some,
        stretches_join(steps, len),
        steps[i]->0 is Source,
        steps[i]->0->Source_start <= byte < steps[i]->0->Source_end,
        kind == if progress(names, steps.take(i)).stack.len() > 0 {
            progress(names, steps.take(i)).stack.last()
        } else {
            Highlight::Default
        },
    ensures
        step_runs(names, steps, len) matches Some(runs) && {
            &&& exists|r: int|
                0 <= r < runs.len() && (#[trigger] runs[r]).start <= byte < runs[r].end
            &&& forall|r: int|
                0 <= r < runs.len() && (#[trigger] runs[r]).start <= byte < runs[r].end
                    ==> runs[r].kind == kind
        },
{
    let start = steps[i]->0->Source_start;
    let end = steps[i]->0->Source_end;
    let before = steps.take(i);
    let now = steps.take(i + 1);
    assert(now.drop_last() =~= before);
    assert(now.last() == steps[i]);
    assert(!failed(before)) by {
        assert forall|j: int| 0 <= j < i implies !(#[trigger] before[j] is None) by {
            assert(steps[j] is Some);
        }
    }
    assert(steps[i] is Some);
    lemma_joined_stretches(names, steps, len);
    assert(steps_ordered(names, before, len)) by {
        assert forall|j: int| 0 <= j < before.len() implies match #[trigger] before[j] {
            Some(Step::Source { start, end }) => end <= len && (start < end ==> progress(
                names,
                before.take(j),
            ).covered <= start),
            _ => true,
        } by {
            assert(before.take(j) =~= steps.take(j));
            assert(before[j] == steps[j]);
        }
    }
    lemma_progress_covers(names, before, len);
    let p = progress(names, before);
    lemma_run_covers(p.runs, p.covered, start, Highlight::Default);
    let mid = with_run(p.runs, p.covered, start, Highlight::Default);
    lemma_appended_paints(mid, start, end, kind, byte);
    lemma_steps_keep_paint(names, steps, i + 1, byte, kind);
    let q = progress(names, steps);
    lemma_paint_stays(q.runs, q.covered, len, Highlight::Default, byte, kind);
    law_runs_cover_source(names, steps, len);
    lemma_only_paint(step_runs(names, steps, len)->0, len as int, byte, kind);
}

/// A byte that is painted after some lines is painted so after all of them.
proof fn lemma_lines_keep_paint(
    lines: Seq<Seq<char>>,
    spans: Seq<Seq<SpanModel>>,
    n: int,
    m: int,
    byte: int,
    kind: Highlight,
)
    requires
        0 <= n <= m,
        paints(lines_painted(lines, spans, n).runs, byte, kind),
    ensures
        paints(lines_painted(lines, spans, m).runs, byte, kind),
    decreases m - n,
{
    if n < m {
        lemma_lines_keep_paint(lines, spans, n, m - 1, byte, kind);
        lemma_line_keeps_paint(
            lines_painted(lines, spans, m - 1),
            line_offset(lines, m - 1),
            spans[m - 1],
            0,
            byte,
            kind,
        );
    }
}

/// A byte that is painted after some spans of a line is painted so after all of
/// them.
proof fn lemma_line_keeps_paint(
    p: Painted,
    at: int,
    spans: Seq<SpanModel>,
    n: int,
    byte: int,
    kind: Highlight,
)
    requires
        0 <= n <= spans.len(),
        paints(line_painted(p, at, spans.take(n)).runs, byte, kind),
    ensures
        paints(line_painted(p, at, spans).runs, byte, kind),
    decreases spans.len(),
{
    if n == spans.len() {
        assert(spans.take(n) =~= spans);
    } else {
        assert(spans.drop_last().take(n) =~= spans.take(n));
        lemma_line_keeps_paint(p, at, spans.drop_last(), n, byte, kind);
        let q = line_painted(p, at, spans.drop_last());
        let s = spans.last();
        let start = at + s.start;
        lemma_paint_stays(
            q.runs,
            q.covered as usize,
            start as usize,
            Highlight::Default,
            byte,
            kind,
        );
        lemma_paint_stays(
            with_run(q.runs, q.covered as usize, start as usize, Highlight::Default),
            if start < q.covered {
                q.covered as usize
            } else {
                start as usize
            },
            (at + s.end) as usize,
            stack_kind(s.scopes),
            byte,
            kind,
        );
    }
}

/// Spans that end before some place of a line paint nothing from there on.
proof fn lemma_painted_within(p: Painted, at: int, spans: Seq<SpanModel>, limit: int)
    requires
        p.covered <= limit,
        forall|k: int|
            0 <= k < spans.len() ==> (#[trigger] spans[k]).start >= spans[k].end || at
                + spans[k].end <= limit,
    ensures
        line_painted(p, at, spans).covered <= limit,
    decreases spans.len(),
{
    if spans.len() > 0 {
        let before = spans.drop_last();
        assert forall|k: int| 0 <= k < before.len() implies (#[trigger] before[k]).start
            >= before[k].end || at + before[k].end <= limit by {
            assert(before[k] == spans[k]);
        }
        lemma_painted_within(p, at, before, limit);
        let last = spans[spans.len() - 1];
    }
}

/// A byte of a line is painted by the first span that ends behind it and is not
/// empty, as the innermost of its scopes says, and as default where that span
/// starts behind it.
pub proof fn law_spans_are_painted(
    source: Seq<char>,
    spans: Seq<Seq<SpanModel>>,
    n: int,
    k: int,
    byte: int,
)
    requires
        spans_fit(full_lines(source), spans),
        encode_utf8(source).len() <= usize::MAX,
        0 <= n < spans.len(),
        0 <= k < spans[n].len(),
        spans[n][k].start < spans[n][k].end,
        line_offset(full_lines(source), n) <= byte,
        forall|j: int|
            0 <= j < k ==> (#[trigger] spans[n][j]).start >= spans[n][j].end || line_offset(
                full_lines(source),
                n,
            ) + spans[n][j].end <= byte,
        byte < line_offset(full_lines(source), n) + spans[n][k].end,
    ensures
        scope_result(full_lines(source), spans) matches Some(runs) && {
            &&& exists|r: int|
                0 <= r < runs.len() && (#[trigger] runs[r]).start <= byte < runs[r].end
            &&& forall|r: int|
                0 <= r < runs.len() && (#[trigger] runs[r]).start <= byte < runs[r].end
                    ==> runs[r].kind == if line_offset(full_lines(source), n) + spans[n][k].start
                    <= byte {
                    stack_kind(spans[n][k].scopes)
                } else {
                    Highlight::Default
                }
        },
{
    let lines = full_lines(source);
    let total = lines.len() as int;
    lemma_offset_total(source);
    lemma_offset_grows(lines, n + 1, total);
    lemma_offset_grows(lines, 0, n);
    lemma_lines_painted(lines, spans, n);
    let at = line_offset(lines, n);
    let p = lines_painted(lines, spans, n);
    let here = spans[n];
    let s = here[k];
    let kind = if at + s.start <= byte {
        stack_kind(s.scopes)
    } else {
        Highlight::Default
    };
    let len = encode_utf8(lines[n]).len() as int;
    assert(line_fits(lines[n], spans[n]));
    let before = here.take(k);
    assert forall|j: int| 0 <= j < before.len() implies (#[trigger] before[j]).start
        >= before[j].end || at + before[j].end <= byte by {
        assert(before[j] == spans[n][j]);
    }
    lemma_painted_within(p, at, before, byte);
    assert forall|j: int| 0 <= j < before.len() implies 0 <= (#[trigger] before[j]).start
        && before[j].end <= len by {
        assert(before[j] == here[j]);
    }
    lemma_line_painted(p, at, before, len);
    let q = line_painted(p, at, before);
    assert(here.take(k + 1).drop_last() =~= before);
    assert(here.take(k + 1).last() == s);
    let start = (at + s.start) as usize;
    let end = (at + s.end) as usize;
    let low = if at + s.start < q.covered {
        q.covered as usize
    } else {
        start
    };
    lemma_run_covers(q.runs, q.covered as usize, start, Highlight::Default);
    let mid = with_run(q.runs, q.covered as usize, start, Highlight::Default);
    if at + s.start <= byte {
        lemma_appended_paints(mid, low, end, kind, byte);
    } else {
        lemma_appended_paints(q.runs, q.covered as usize, start, kind, byte);
        lemma_paint_stays(mid, low, end, stack_kind(s.scopes), byte, kind);
    }
    lemma_line_keeps_paint(p, at, here, k + 1, byte, kind);
    lemma_lines_keep_paint(lines, spans, n + 1, total, byte, kind);
    let done = lines_painted(lines, spans, total);
    lemma_paint_stays(
        done.runs,
        done.covered as usize,
        line_offset(lines, total) as usize,
        Highlight::Default,
        byte,
        kind,
    );
    assert(source.len() > 0) by {
        if source.len() == 0 {
            assert(full_lines(source).len() == 0);
        }
    }
    law_scope_runs_cover_source(source, spans);
    lemma_only_paint(
        scope_result(lines, spans)->0,
        encode_utf8(source).len() as int,
        byte,
        kind,
    );
}

/// Nothing that follows a failed step is painted.
pub proof fn law_failed_step_ends(
    names: Seq<Seq<char>>,
    steps: Seq<Option<Step>>,
    len: usize,
    k: int,
)
    requires
        0 <= k < steps.len(),
        steps[k] is None,
    ensures
        step_runs(names, steps, len) == step_runs(names, steps.take(k), len),
{
    lemma_failed_step(names, steps, k);
}

/// Steps behind a failed one change nothing.
proof fn lemma_failed_step(names: Seq<Seq<char>>, steps: Seq<Option<Step>>, k: int)
    requires
        0 <= k < steps.len(),
        steps[k] is None,
    ensures
        progress(names, steps) == progress(names, steps.take(k)),
    decreases steps.len(),
{
    let before = steps.drop_last();
    if k == steps.len() - 1 {
        assert(before =~= steps.take(k));
    } else {
        lemma_failed_step(names, before, k);
        assert(before.take(k) =~= steps.take(k));
        assert(before[k] is None);
    }
}

/// A line is cut where its changes are. A stretch is read under the scopes that
/// the changes before the one at its start have left.
pub proof fn law_lines_are_cut(before: StackModel, ops: Seq<(int, OpModel)>, len: int, i: int)
    requires
        0 <= i <= ops.len(),
    ensures
        line_spans(before, ops, len).len() == ops.len() + 1,
        line_spans(before, ops, len)[i].start == if i == 0 {
            0
        } else {
            ops[i - 1].0
        },
        line_spans(before, ops, len)[i].end == if i == ops.len() {
            len
        } else {
            ops[i].0
        },
        line_spans(before, ops, len)[i].scopes == if i == 0 {
            before.scopes
        } else {
            ops.take(i - 1).fold_left(
                before,
                |s: StackModel, o: (int, OpModel)| changed(s, o.1),
            ).scopes
        },
{
    lemma_stack_at(before, ops, i);
}

/// The stack of a stretch is what the changes before it leave.
proof fn lemma_stack_at(before: StackModel, ops: Seq<(int, OpModel)>, i: int)
    requires
        0 <= i <= ops.len() + 1,
    ensures
        stack_at(before, ops, i) == if i == 0 {
            before
        } else {
            ops.take(i - 1).fold_left(before, |s: StackModel, o: (int, OpModel)| changed(s, o.1))
        },
    decreases i,
{
    let f = |s: StackModel, o: (int, OpModel)| changed(s, o.1);
    if i > 0 {
        lemma_stack_at(before, ops, i - 1);
        if i == 1 {
            assert(ops.take(0) =~= Seq::empty());
            reveal_with_fuel(stack_at, 2);
        } else {
            assert(ops.take(i - 1).drop_last() =~= ops.take(i - 2));
            assert(ops.take(i - 1).last() == ops[i - 2]);
        }
    }
}

/// Lines are read one behind the other: each under the scopes that all changes of
/// the lines before it have left, and none where one cannot be parsed.
pub proof fn law_lines_are_read_in_turn(syntax: nat, lines: Seq<Seq<char>>, n: int)
    requires
        0 <= n < lines.len(),
    ensures
        read_upto(syntax, lines, 0) == Some(
            ReadModel {
                stack: StackModel { scopes: Seq::empty(), cleared: Seq::empty() },
                spans: Seq::empty(),
            },
        ),
        match (read_upto(syntax, lines, n), line_ops(syntax, lines.take(n), lines[n])) {
            (Some(read), Some(ops)) => read_upto(syntax, lines, n + 1) == Some(
                ReadModel {
                    stack: ops.fold_left(
                        read.stack,
                        |s: StackModel, o: (int, OpModel)| changed(s, o.1),
                    ),
                    spans: read.spans.push(
                        line_spans(read.stack, ops, encode_utf8(lines[n]).len() as int),
                    ),
                },
            ),
            _ => read_upto(syntax, lines, n + 1) is None,
        },
{
    match (read_upto(syntax, lines, n), line_ops(syntax, lines.take(n), lines[n])) {
        (Some(read), Some(ops)) => {
            lemma_stack_at(read.stack, ops, (ops.len() + 1) as int);
            assert(ops.take(ops.len() as int) =~= ops);
        },
        _ => {},
    }
}

/// The syntax for a source is the one for the extension that the hint names, and
/// without a hint the one for its first line.
pub proof fn law_syntax_of_source(source: Seq<char>, hint: Seq<char>, first: Seq<char>, n: int)
    requires
        0 <= n <= source.len(),
        forall|k: int| 0 <= k < n ==> source[k] != '\n',
        n < source.len() ==> source[n] == '\n',
        first == source.take(n),
    ensures
        hint_syntax(source, Some(hint)) == extension_syntax(hint_extension(hint)),
        hint_syntax(source, None) == first_line_syntax(first),
{
    lemma_before_first(source, '\n', n);
}

/// The runs that a syntax gives are those of the spans of its lines, where it
/// reads all of them.
pub proof fn law_runs_of_syntax(source: Seq<char>, hint: Option<Seq<char>>)
    ensures
        hint_syntax(source, hint) is None ==> syntect_runs(source, hint) is None,
        hint_syntax(source, hint) is Some ==> {
            let lines = full_lines(source);
            match read_upto(hint_syntax(source, hint)->0, lines, lines.len() as int) {
                Some(read) => syntect_runs(source, hint) == scope_result(lines, read.spans),
                None => syntect_runs(source, hint) is None,
            }
        },
{
}

/// Where the hint names a grammar and this paints anything, the runs of a source
/// are what its steps paint.
pub proof fn law_grammar_comes_first(
    source: Seq<char>,
    hint: Seq<char>,
    steps: Seq<Option<Step>>,
    runs: Seq<HighlightedRun>,
)
    requires
        source.len() > 0,
        hint_grammar(hint) is Some,
        highlighter_steps(hint_grammar(hint)->0, capture_names(), source) == Some(steps),
        step_runs(capture_names(), steps, encode_utf8(source).len() as usize) == Some(runs),
    ensures
        highlight_runs(source, Some(hint)) == runs,
{
}

/// Without a grammar, or where it paints nothing, the runs are those of the
/// syntax, and where there are none of these either, all is one run in the
/// default bucket. An empty source has no runs.
pub proof fn law_syntax_comes_second(source: Seq<char>, hint: Option<Seq<char>>)
    requires
        hint is None || hint_grammar(hint->0) is None || highlighter_steps(
            hint_grammar(hint->0)->0,
            capture_names(),
            source,
        ) is None,
    ensures
        source.len() == 0 ==> highlight_runs(source, hint).len() == 0,
        source.len() > 0 && syntect_runs(source, hint) is Some ==> highlight_runs(source, hint)
            == syntect_runs(source, hint)->0,
        source.len() > 0 && syntect_runs(source, hint) is None ==> highlight_runs(source, hint)
            == seq![
            HighlightedRun {
                start: 0,
                end: encode_utf8(source).len() as usize,
                kind: Highlight::Default,
            },
        ],
{
}

} // verus!
