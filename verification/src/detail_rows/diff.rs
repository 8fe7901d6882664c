//! Which lines of an occurrence differ from the other occurrences of its group.
use crate::app_state::OccurrenceView;
use crate::detail::{
    extract_with_context, focus_first, focus_last, lemma_bounds, line_range, smaller, total_lines,
    window, ContextualSlice,
};
use std::ops::Range;
use vstd::prelude::*;
use vstd::string::*;
use vstd::utf8::*;

verus! {

/// The bytes of the lines of an occurrence that differ from another one.
pub type DiffFlags = Vec<Range<usize>>;

/// The ends of a list of ranges.
pub open spec fn range_ends(list: Seq<Range<usize>>) -> Seq<(int, int)> {
    Seq::new(list.len(), |i: int| (list[i].start as int, list[i].end as int))
}

/// The number of a line as the detail pane counts it: at least one, and no more
/// than the largest line number.
pub open spec fn pane_line(l: i64) -> int {
    if l < 1 {
        1
    } else {
        smaller(l as int, u32::MAX as int)
    }
}

/// The number of a line as the detail pane counts it.
pub fn line_for_pane(l: i64) -> (r: u32)
    ensures
        r == pane_line(l),
{
    if l < 1 {
        1
    } else if l > u32::MAX as i64 {
        u32::MAX
    } else {
        l as u32
    }
}

/// How many lines of its own an occurrence has in a source.
pub open spec fn own_lines(o: OccurrenceView, bytes: Seq<u8>) -> int {
    focus_last(bytes, pane_line(o.start_line), pane_line(o.end_line)) - focus_first(
        bytes,
        pane_line(o.start_line),
        pane_line(o.end_line),
    ) + 1
}

/// The bytes of line `k` of an occurrence, counted from zero.
pub open spec fn own_range(o: OccurrenceView, bytes: Seq<u8>, k: int) -> (int, int) {
    line_range(
        bytes,
        focus_first(bytes, pane_line(o.start_line), pane_line(o.end_line)) + k,
    )
}

/// Line `k` of an occurrence. Behind the last line come empty ones.
pub open spec fn own_text(o: OccurrenceView, bytes: Seq<u8>, k: int) -> Seq<u8> {
    if 0 <= k < own_lines(o, bytes) {
        bytes.subrange(own_range(o, bytes, k).0, own_range(o, bytes, k).1)
    } else {
        Seq::empty()
    }
}

/// The bytes of a source that could be read.
pub open spec fn source_bytes(sources: Seq<Option<String>>, i: int) -> Seq<u8> {
    encode_utf8(sources[i]->0@)
}

/// Line `k` of occurrence `i` is not line `k` of occurrence `j`, whose source
/// could be read.
pub open spec fn differs_from(
    occurrences: Seq<OccurrenceView>,
    sources: Seq<Option<String>>,
    i: int,
    j: int,
    k: int,
) -> bool {
    &&& j != i
    &&& sources[j] is Some
    &&& own_text(occurrences[i], source_bytes(sources, i), k) != own_text(
        occurrences[j],
        source_bytes(sources, j),
        k,
    )
}

/// Line `k` of occurrence `i` differs from that of some other occurrence.
pub open spec fn stands_out(
    occurrences: Seq<OccurrenceView>,
    sources: Seq<Option<String>>,
    i: int,
    k: int,
) -> bool {
    exists|j: int|
        0 <= j < occurrences.len() && #[trigger] differs_from(occurrences, sources, i, j, k)
}

/// The bytes of those of the first `n` lines of occurrence `i` that differ from
/// another occurrence.
pub open spec fn flags_upto(
    occurrences: Seq<OccurrenceView>,
    sources: Seq<Option<String>>,
    i: int,
    n: int,
) -> Seq<(int, int)>
    decreases n,
{
    if n <= 0 {
        Seq::empty()
    } else {
        let before = flags_upto(occurrences, sources, i, n - 1);
        if stands_out(occurrences, sources, i, n - 1) {
            before.push(own_range(occurrences[i], source_bytes(sources, i), n - 1))
        } else {
            before
        }
    }
}

/// The bytes of the lines of occurrence `i` that differ from another
/// occurrence. Where its source could not be read there are none.
pub open spec fn flags_of(
    occurrences: Seq<OccurrenceView>,
    sources: Seq<Option<String>>,
    i: int,
) -> Seq<(int, int)> {
    match sources[i] {
        Some(s) => flags_upto(
            occurrences,
            sources,
            i,
            own_lines(occurrences[i], encode_utf8(s@)),
        ),
        None => Seq::empty(),
    }
}

/// The lines of an occurrence, as `window` gives them.
pub open spec fn is_slice_of(
    o: OccurrenceView,
    bytes: Seq<u8>,
    context: usize,
    slice: ContextualSlice,
) -> bool {
    slice@ == window(bytes, pane_line(o.start_line), pane_line(o.end_line), context as int)
}

/// The bytes of line `k` of an occurrence.
fn own_line(
    o: &OccurrenceView,
    source: &String,
    context: usize,
    slice: &ContextualSlice,
    k: usize,
) -> (r: Option<(usize, usize)>)
    requires
        is_slice_of(*o, encode_utf8(source@), context, *slice),
    ensures
        match r {
            Some((from, to)) => {
                &&& k < own_lines(*o, encode_utf8(source@))
                &&& (from as int, to as int) == own_range(*o, encode_utf8(source@), k as int)
                &&& from <= to <= encode_utf8(source@).len()
            },
            None => k >= own_lines(*o, encode_utf8(source@)),
        },
{
    let ghost bytes = encode_utf8(source@);
    let ghost a = pane_line(o.start_line);
    let ghost b = pane_line(o.end_line);
    proof {
        lemma_bounds(bytes);
        crate::detail::law_window_holds_focus(bytes, a, b, context as int);
    }
    let count: u32 = slice.focus_end - slice.focus_start;
    if k > count as usize {
        return None;
    }
    let at: usize = (slice.focus_start - slice.first_line) as usize + k;
    let ghost whole = window(bytes, a, b, context as int);
    assert(slice@.lines.len() == slice.lines@.len());
    assert(slice@.lines[at as int] == slice.lines@[at as int]@);
    assert(whole.lines[at as int].start == own_range(*o, bytes, k as int).0);
    let line = &slice.lines[at];
    proof {
        let n = focus_first(bytes, a, b) + k;
        assert(crate::detail::line_bounds(bytes)[n - 1] <= crate::detail::line_bounds(bytes)[n]);
    }
    Some((line.byte_range.start, line.byte_range.end))
}

/// Whether two parts of two texts have the same bytes.
fn same_part(a: &[u8], a0: usize, a1: usize, b: &[u8], b0: usize, b1: usize) -> (r: bool)
    requires
        a0 <= a1 <= a@.len(),
        b0 <= b1 <= b@.len(),
    ensures
        r == (a@.subrange(a0 as int, a1 as int) == b@.subrange(b0 as int, b1 as int)),
{
    let ghost x = a@.subrange(a0 as int, a1 as int);
    let ghost y = b@.subrange(b0 as int, b1 as int);
    if a1 - a0 != b1 - b0 {
        assert(x.len() != y.len());
        return false;
    }
    let mut i: usize = 0;
    while i < a1 - a0
        invariant
            i <= a1 - a0,
            a0 <= a1 <= a@.len(),
            b0 <= b1 <= b@.len(),
            a1 - a0 == b1 - b0,
            x == a@.subrange(a0 as int, a1 as int),
            y == b@.subrange(b0 as int, b1 as int),
            forall|k: int| 0 <= k < i ==> x[k] == y[k],
        decreases a1 - a0 - i,
    {
        assert(x[i as int] == a@[a0 + i]);
        assert(y[i as int] == b@[b0 + i]);
        if a[a0 + i] != b[b0 + i] {
            return false;
        }
        i += 1;
    }
    assert(x =~= y);
    true
}

/// The windows of all occurrences whose sources could be read.
fn slices_of(
    occurrences: &Vec<OccurrenceView>,
    sources: &Vec<Option<String>>,
    context_lines: usize,
) -> (r: Vec<Option<ContextualSlice>>)
    requires
        occurrences@.len() == sources@.len(),
    ensures
        are_slices(occurrences@, sources@, context_lines, r@),
{
    let mut slices: Vec<Option<ContextualSlice>> = Vec::new();
    let mut i: usize = 0;
    while i < sources.len()
        invariant
            i <= sources.len(),
            occurrences@.len() == sources@.len(),
            slices@.len() == i,
            forall|k: int|
                0 <= k < i ==> is_slice_at(
                    occurrences@,
                    sources@,
                    context_lines,
                    k,
                    #[trigger] slices@[k],
                ),
        decreases sources.len() - i,
    {
        let slice: Option<ContextualSlice> = match &sources[i] {
            Some(source) => {
                assert(sources@[i as int] is Some);
                Some(
                    extract_with_context(
                        source.as_str(),
                        line_for_pane(occurrences[i].start_line),
                        line_for_pane(occurrences[i].end_line),
                        context_lines,
                    ),
                )
            },
            None => None,
        };
        slices.push(slice);
        i += 1;
    }
    slices
}

/// `slice` is the window of occurrence `i`, if its source could be read.
spec fn is_slice_at(
    occurrences: Seq<OccurrenceView>,
    sources: Seq<Option<String>>,
    context: usize,
    i: int,
    slice: Option<ContextualSlice>,
) -> bool {
    match (sources[i], slice) {
        (Some(s), Some(w)) => is_slice_of(occurrences[i], encode_utf8(s@), context, w),
        (None, None) => true,
        _ => false,
    }
}

/// `slices` are the windows of all occurrences.
spec fn are_slices(
    occurrences: Seq<OccurrenceView>,
    sources: Seq<Option<String>>,
    context: usize,
    slices: Seq<Option<ContextualSlice>>,
) -> bool {
    &&& slices.len() == sources.len()
    &&& forall|i: int|
        0 <= i < slices.len() ==> is_slice_at(
            occurrences,
            sources,
            context,
            i,
            #[trigger] slices[i],
        )
}

/// Whether line `k` of occurrence `i`, which lies at `from..to`, differs from
/// that of some other occurrence.
fn line_stands_out(
    occurrences: &Vec<OccurrenceView>,
    sources: &Vec<Option<String>>,
    context_lines: usize,
    slices: &Vec<Option<ContextualSlice>>,
    i: usize,
    k: usize,
    from: usize,
    to: usize,
) -> (r: bool)
    requires
        occurrences@.len() == sources@.len(),
        i < sources@.len(),
        sources@[i as int] is Some,
        are_slices(occurrences@, sources@, context_lines, slices@),
        k < own_lines(occurrences@[i as int], source_bytes(sources@, i as int)),
        (from as int, to as int) == own_range(
            occurrences@[i as int],
            source_bytes(sources@, i as int),
            k as int,
        ),
        from <= to <= source_bytes(sources@, i as int).len(),
    ensures
        r == stands_out(occurrences@, sources@, i as int, k as int),
{
    let mine: &[u8] = match &sources[i] {
        Some(s) => s.as_str().as_bytes(),
        None => {
            return false;
        },
    };
    let ghost my_text = own_text(
        occurrences@[i as int],
        source_bytes(sources@, i as int),
        k as int,
    );
    assert(mine@ == source_bytes(sources@, i as int));
    let mut j: usize = 0;
    while j < sources.len()
        invariant
            j <= sources.len(),
            occurrences@.len() == sources@.len(),
            i < sources@.len(),
            are_slices(occurrences@, sources@, context_lines, slices@),
            my_text == own_text(
                occurrences@[i as int],
                source_bytes(sources@, i as int),
                k as int,
            ),
            my_text == mine@.subrange(from as int, to as int),
            from <= to <= mine@.len(),
            forall|p: int|
                0 <= p < j ==> !#[trigger] differs_from(
                    occurrences@,
                    sources@,
                    i as int,
                    p,
                    k as int,
                ),
        decreases sources.len() - j,
    {
        if j != i {
            assert(is_slice_at(occurrences@, sources@, context_lines, j as int, slices@[j as int]));
            if let Some(other) = &sources[j] {
                assert(sources@[j as int] is Some);
                if let Some(slice) = &slices[j] {
                    let line: Option<(usize, usize)> = own_line(
                        &occurrences[j],
                        other,
                        context_lines,
                        slice,
                        k,
                    );
                    let same: bool = match line {
                        Some((p, q)) => {
                            let theirs: &[u8] = other.as_str().as_bytes();
                            same_part(mine, from, to, theirs, p, q)
                        },
                        None => {
                            assert(from == to ==> my_text =~= Seq::<u8>::empty());
                            assert(my_text.len() == to - from);
                            from == to
                        },
                    };
                    if !same {
                        assert(differs_from(
                            occurrences@,
                            sources@,
                            i as int,
                            j as int,
                            k as int,
                        ));
                        return true;
                    }
                }
            }
        }
        j += 1;
    }
    false
}

/// The bytes, for each occurrence of a group, of the lines that differ from
/// another occurrence. Lines are compared by their place in the occurrence, and
/// lines around an occurrence are not compared.
pub fn diff(
    occurrences: &Vec<OccurrenceView>,
    sources: &Vec<Option<String>>,
    context_lines: usize,
) -> (r: Vec<DiffFlags>)
    requires
        occurrences@.len() == sources@.len(),
    ensures
        r@.len() == occurrences@.len(),
        forall|i: int|
            0 <= i < r@.len() ==> range_ends((#[trigger] r@[i])@) == flags_of(
                occurrences@,
                sources@,
                i,
            ),
{
    let slices: Vec<Option<ContextualSlice>> = slices_of(occurrences, sources, context_lines);
    let mut out: Vec<DiffFlags> = Vec::new();
    let mut i: usize = 0;
    while i < sources.len()
        invariant
            i <= sources.len(),
            occurrences@.len() == sources@.len(),
            are_slices(occurrences@, sources@, context_lines, slices@),
            out@.len() == i,
            forall|k: int|
                0 <= k < i ==> range_ends((#[trigger] out@[k])@) == flags_of(
                    occurrences@,
                    sources@,
                    k,
                ),
        decreases sources.len() - i,
    {
        out.push(flags_for(occurrences, sources, context_lines, &slices, i));
        i += 1;
    }
    out
}

/// The bytes of the lines of occurrence `i` that differ from another one.
fn flags_for(
    occurrences: &Vec<OccurrenceView>,
    sources: &Vec<Option<String>>,
    context_lines: usize,
    slices: &Vec<Option<ContextualSlice>>,
    i: usize,
) -> (r: DiffFlags)
    requires
        occurrences@.len() == sources@.len(),
        i < sources@.len(),
        are_slices(occurrences@, sources@, context_lines, slices@),
    ensures
        range_ends(r@) == flags_of(occurrences@, sources@, i as int),
{
    let mut flags: DiffFlags = Vec::new();
    assert(range_ends(flags@) =~= Seq::empty());
    assert(is_slice_at(occurrences@, sources@, context_lines, i as int, slices@[i as int]));
    if let Some(source) = &sources[i] {
        assert(sources@[i as int] is Some);
        if let Some(slice) = &slices[i] {
            let ghost total = own_lines(occurrences@[i as int], encode_utf8(source@));
            let mut k: usize = 0;
            let mut line: Option<(usize, usize)> = own_line(
                &occurrences[i],
                source,
                context_lines,
                slice,
                0,
            );
            proof {
                lemma_bounds(encode_utf8(source@));
            }
            while line.is_some()
                invariant
                    occurrences@.len() == sources@.len(),
                    i < sources@.len(),
                    are_slices(occurrences@, sources@, context_lines, slices@),
                    sources@[i as int] == Some(*source),
                    is_slice_of(occurrences@[i as int], encode_utf8(source@), context_lines, *slice),
                    total == own_lines(occurrences@[i as int], encode_utf8(source@)),
                    total <= usize::MAX,
                    k <= total,
                    range_ends(flags@) == flags_upto(occurrences@, sources@, i as int, k as int),
                    match line {
                        Some((from, to)) => {
                            &&& k < total
                            &&& (from as int, to as int) == own_range(
                                occurrences@[i as int],
                                encode_utf8(source@),
                                k as int,
                            )
                            &&& from <= to <= encode_utf8(source@).len()
                        },
                        None => k >= total,
                    },
                decreases total - k,
            {
                let (from, to): (usize, usize) = line.unwrap();
                if line_stands_out(
                    occurrences,
                    sources,
                    context_lines,
                    slices,
                    i,
                    k,
                    from,
                    to,
                ) {
                    let ghost before = range_ends(flags@);
                    flags.push(from..to);
                    assert(range_ends(flags@) =~= before.push((from as int, to as int)));
                }
                k += 1;
                line = own_line(&occurrences[i], source, context_lines, slice, k);
            }
        }
    }
    flags
}

/// Occurrence `i` has the lines of every other one whose source could be read.
pub open spec fn agrees(
    occurrences: Seq<OccurrenceView>,
    sources: Seq<Option<String>>,
    i: int,
) -> bool {
    forall|j: int, k: int|
        0 <= j < occurrences.len() ==> !#[trigger] differs_from(occurrences, sources, i, j, k)
}

/// An occurrence that has the lines of every other one has no flags.
pub proof fn law_identical_have_no_flags(
    occurrences: Seq<OccurrenceView>,
    sources: Seq<Option<String>>,
    i: int,
)
    requires
        occurrences.len() == sources.len(),
        0 <= i < sources.len(),
        agrees(occurrences, sources, i),
    ensures
        flags_of(occurrences, sources, i).len() == 0,
{
    if sources[i] is Some {
        lemma_no_flags(
            occurrences,
            sources,
            i,
            own_lines(occurrences[i], source_bytes(sources, i)),
        );
    }
}

/// Where no line differs none is flagged.
proof fn lemma_no_flags(
    occurrences: Seq<OccurrenceView>,
    sources: Seq<Option<String>>,
    i: int,
    n: int,
)
    requires
        agrees(occurrences, sources, i),
    ensures
        flags_upto(occurrences, sources, i, n).len() == 0,
    decreases n,
{
    if n > 0 {
        lemma_no_flags(occurrences, sources, i, n - 1);
    }
}

/// The only occurrence of a group has no flags.
pub proof fn law_single_has_no_flags(
    occurrences: Seq<OccurrenceView>,
    sources: Seq<Option<String>>,
)
    requires
        occurrences.len() == 1,
        sources.len() == 1,
    ensures
        flags_of(occurrences, sources, 0).len() == 0,
{
    law_identical_have_no_flags(occurrences, sources, 0);
}

/// Where two occurrences differ in a line, both of them stand out there.
pub proof fn law_flags_are_mutual(
    occurrences: Seq<OccurrenceView>,
    sources: Seq<Option<String>>,
    i: int,
    j: int,
    k: int,
)
    requires
        occurrences.len() == sources.len(),
        0 <= i < sources.len(),
        0 <= j < sources.len(),
        sources[i] is Some,
        differs_from(occurrences, sources, i, j, k),
    ensures
        stands_out(occurrences, sources, i, k),
        stands_out(occurrences, sources, j, k),
{
    assert(differs_from(occurrences, sources, j, i, k));
}

/// The lines of an occurrence are those of the file from its first line to its
/// last, where the file has them.
pub proof fn law_own_lines(o: OccurrenceView, bytes: Seq<u8>)
    requires
        1 <= o.start_line <= o.end_line <= total_lines(bytes),
    ensures
        own_lines(o, bytes) == o.end_line - o.start_line + 1,
        forall|k: int|
            0 <= k < own_lines(o, bytes) ==> #[trigger] own_range(o, bytes, k) == line_range(
                bytes,
                o.start_line + k,
            ),
{
    lemma_bounds(bytes);
}

/// An occurrence has at least one line, wherever it is said to lie, and all its
/// lines are lines of the file, one behind the other.
pub proof fn law_own_lines_are_in_file(o: OccurrenceView, bytes: Seq<u8>)
    ensures
        own_lines(o, bytes) >= 1,
        exists|first: int|
            #![trigger line_range(bytes, first)]
            1 <= first && first + own_lines(o, bytes) - 1 <= total_lines(bytes) && forall|k: int|
                0 <= k < own_lines(o, bytes) ==> #[trigger] own_range(o, bytes, k) == line_range(
                    bytes,
                    first + k,
                ),
{
    lemma_bounds(bytes);
    let first = focus_first(bytes, pane_line(o.start_line), pane_line(o.end_line));
    let shown = line_range(bytes, first);
}

/// The lines that are flagged are, in their order, just those whose bytes differ
/// from what some other occurrence with a source has at the same place, which is
/// nothing where that occurrence has no line there.
pub proof fn law_differing_lines_are_flagged(
    occurrences: Seq<OccurrenceView>,
    sources: Seq<Option<String>>,
    i: int,
)
    requires
        occurrences.len() == sources.len(),
        0 <= i < sources.len(),
        sources[i] is Some,
    ensures
        ({
            let o = occurrences[i];
            let bytes = encode_utf8(sources[i]->0@);
            let places = Seq::new(own_lines(o, bytes) as nat, |k: int| k).filter(
                |k: int|
                    exists|j: int|
                        0 <= j < sources.len() && j != i && #[trigger] sources[j] is Some && {
                            let theirs = encode_utf8(sources[j]->0@);
                            bytes.subrange(own_range(o, bytes, k).0, own_range(o, bytes, k).1)
                                != if k < own_lines(occurrences[j], theirs) {
                                theirs.subrange(
                                    own_range(occurrences[j], theirs, k).0,
                                    own_range(occurrences[j], theirs, k).1,
                                )
                            } else {
                                Seq::empty()
                            }
                        },
            );
            flags_of(occurrences, sources, i) == places.map_values(
                |k: int| own_range(o, bytes, k),
            )
        }),
{
    let bytes = encode_utf8(sources[i]->0@);
    let n = own_lines(occurrences[i], bytes);
    lemma_bounds(bytes);
    lemma_flagged(occurrences, sources, i, n);
    let all = Seq::new(n as nat, |k: int| k);
    assert(all.take(n) =~= all);
}

/// The lines among the first `n` that are flagged.
proof fn lemma_flagged(
    occurrences: Seq<OccurrenceView>,
    sources: Seq<Option<String>>,
    i: int,
    n: int,
)
    requires
        occurrences.len() == sources.len(),
        0 <= i < sources.len(),
        sources[i] is Some,
        0 <= n <= own_lines(occurrences[i], encode_utf8(sources[i]->0@)),
    ensures
        ({
            let o = occurrences[i];
            let bytes = encode_utf8(sources[i]->0@);
            let places = Seq::new(own_lines(o, bytes) as nat, |k: int| k).take(n).filter(
                |k: int|
                    exists|j: int|
                        0 <= j < sources.len() && j != i && #[trigger] sources[j] is Some && {
                            let theirs = encode_utf8(sources[j]->0@);
                            bytes.subrange(own_range(o, bytes, k).0, own_range(o, bytes, k).1)
                                != if k < own_lines(occurrences[j], theirs) {
                                theirs.subrange(
                                    own_range(occurrences[j], theirs, k).0,
                                    own_range(occurrences[j], theirs, k).1,
                                )
                            } else {
                                Seq::empty()
                            }
                        },
            );
            flags_upto(occurrences, sources, i, n) == places.map_values(
                |k: int| own_range(o, bytes, k),
            )
        }),
    decreases n,
{
    reveal(Seq::filter);
    let o = occurrences[i];
    let bytes = encode_utf8(sources[i]->0@);
    let all = Seq::new(own_lines(o, bytes) as nat, |k: int| k);
    let pred = |k: int|
        exists|j: int|
            0 <= j < sources.len() && j != i && #[trigger] sources[j] is Some && {
                let theirs = encode_utf8(sources[j]->0@);
                bytes.subrange(own_range(o, bytes, k).0, own_range(o, bytes, k).1) != if k
                    < own_lines(occurrences[j], theirs) {
                    theirs.subrange(
                        own_range(occurrences[j], theirs, k).0,
                        own_range(occurrences[j], theirs, k).1,
                    )
                } else {
                    Seq::empty()
                }
            };
    if n > 0 {
        lemma_flagged(occurrences, sources, i, n - 1);
        let k = n - 1;
        let now = all.take(n);
        assert(now.drop_last() =~= all.take(n - 1));
        assert(now.last() == k);
        if stands_out(occurrences, sources, i, k) {
            let j = choose|j: int|
                0 <= j < occurrences.len() && #[trigger] differs_from(
                    occurrences,
                    sources,
                    i,
                    j,
                    k,
                );
            assert(sources[j] is Some);
            assert(pred(k));
        }
        if pred(k) {
            let j = choose|j: int|
                0 <= j < sources.len() && j != i && #[trigger] sources[j] is Some && {
                    let theirs = encode_utf8(sources[j]->0@);
                    bytes.subrange(own_range(o, bytes, k).0, own_range(o, bytes, k).1) != if k
                        < own_lines(occurrences[j], theirs) {
                        theirs.subrange(
                            own_range(occurrences[j], theirs, k).0,
                            own_range(occurrences[j], theirs, k).1,
                        )
                    } else {
                        Seq::empty()
                    }
                };
            assert(differs_from(occurrences, sources, i, j, k));
        }
        let before = now.drop_last().filter(pred);
        assert(now.filter(pred) == if pred(k) {
            before.push(k)
        } else {
            before
        });
        assert(flags_upto(occurrences, sources, i, n) =~= now.filter(pred).map_values(
            |k: int| own_range(o, bytes, k),
        ));
    } else {
        assert(all.take(0).filter(pred) =~= Seq::empty());
        assert(flags_upto(occurrences, sources, i, n) =~= all.take(0).filter(pred).map_values(
            |k: int| own_range(o, bytes, k),
        ));
    }
}

/// An occurrence whose source could not be read has no flags.
pub proof fn law_unread_has_no_flags(
    occurrences: Seq<OccurrenceView>,
    sources: Seq<Option<String>>,
    i: int,
)
    requires
        0 <= i < sources.len(),
        sources[i] is None,
    ensures
        flags_of(occurrences, sources, i).len() == 0,
{
}

/// A line of the pane is the line of the cache, the first one where that is less,
/// and the last that can be counted where it is more.
pub proof fn law_pane_lines(l: i64)
    ensures
        1 <= l <= u32::MAX ==> pane_line(l) == l,
        l < 1 ==> pane_line(l) == 1,
        l > u32::MAX ==> pane_line(l) == u32::MAX,
{
}

/// An occurrence whose lines the file does not have is moved to the nearest lines
/// of the file, and one that ends before it starts is taken from its end on.
pub proof fn law_own_lines_are_moved(o: OccurrenceView, bytes: Seq<u8>, s: int, e: int)
    requires
        s == if o.start_line < 1 {
            1
        } else if o.start_line > total_lines(bytes) {
            total_lines(bytes)
        } else {
            o.start_line as int
        },
        e == if o.end_line < 1 {
            1
        } else if o.end_line > total_lines(bytes) {
            total_lines(bytes)
        } else {
            o.end_line as int
        },
    ensures
        s <= e ==> own_lines(o, bytes) == e - s + 1,
        s > e ==> own_lines(o, bytes) == s - e + 1,
        forall|k: int|
            0 <= k < own_lines(o, bytes) ==> #[trigger] own_range(o, bytes, k) == line_range(
                bytes,
                if s <= e {
                    s + k
                } else {
                    e + k
                },
            ),
{
    lemma_bounds(bytes);
    crate::detail::law_lines_are_counted(bytes);
}

} // verus!
