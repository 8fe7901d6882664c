//! The rows of the detail pane, and the key under which they are kept.
use crate::app_state::{law_toggle_flips, other_than, toggled, OccurrenceView, Span};
use crate::paths::{plain_form, plain_path, same_way};
use std::collections::hash_map::DefaultHasher;
use std::hash::Hasher;
use std::rc::Rc;
use vstd::bytes::*;
use vstd::prelude::*;
use vstd::std_specs::hash::DefaultHasherAdditionalSpecFns;
use vstd::string::*;
use vstd::utf8::*;

pub mod diff;

verus! {

/// A part of a line of code that is drawn in one style.
#[derive(Debug, Clone)]
pub struct LineSegment {
    pub text: String,
    /// The color of the text.
    pub fg_color: u32,
    /// The tint of a renamed local.
    pub bg_color: Option<u32>,
    /// Whether the line differs from another occurrence.
    pub is_diff: bool,
}

/// What a [`LineSegment`] stands for.
#[verifier::ext_equal]
pub struct SegmentModel {
    pub text: Seq<char>,
    pub fg_color: u32,
    pub bg_color: Option<u32>,
    pub is_diff: bool,
}

impl View for LineSegment {
    type V = SegmentModel;

    open spec fn view(&self) -> SegmentModel {
        SegmentModel {
            text: self.text@,
            fg_color: self.fg_color,
            bg_color: self.bg_color,
            is_diff: self.is_diff,
        }
    }
}

/// What a list of segments stands for.
pub open spec fn segment_models(list: Seq<LineSegment>) -> Seq<SegmentModel> {
    Seq::new(list.len(), |i: int| list[i]@)
}

/// A row of the detail pane.
#[derive(Debug, Clone)]
pub enum DetailRow {
    /// How many occurrences there are.
    Summary(String),
    /// The head of an occurrence.
    OccurrenceHeader {
        group_id: i64,
        occ_idx: usize,
        label: String,
        checked: bool,
        path: String,
        /// Who last changed its first line.
        blame_overlay: Option<String>,
        /// What the last change says of itself.
        blame_tooltip: Option<String>,
    },
    /// An empty row between two occurrences.
    Gap,
    /// A line of code.
    CodeLine { line_number: u32, is_context: bool, segments: Vec<LineSegment> },
    /// Stands for the code of a file that could not be read.
    Unavailable,
}

/// What a [`DetailRow`] stands for.
#[verifier::ext_equal]
pub enum RowModel {
    Summary(Seq<char>),
    OccurrenceHeader {
        group_id: i64,
        occ_idx: int,
        label: Seq<char>,
        checked: bool,
        path: Seq<char>,
        blame_overlay: Option<Seq<char>>,
        blame_tooltip: Option<Seq<char>>,
    },
    Gap,
    CodeLine { line_number: int, is_context: bool, segments: Seq<SegmentModel> },
    Unavailable,
}

/// The characters of an optional string.
pub open spec fn opt_string(s: Option<String>) -> Option<Seq<char>> {
    match s {
        Some(t) => Some(t@),
        None => None,
    }
}

impl View for DetailRow {
    type V = RowModel;

    open spec fn view(&self) -> RowModel {
        match self {
            DetailRow::Summary(text) => RowModel::Summary(text@),
            DetailRow::OccurrenceHeader {
                group_id,
                occ_idx,
                label,
                checked,
                path,
                blame_overlay,
                blame_tooltip,
            } => RowModel::OccurrenceHeader {
                group_id: *group_id,
                occ_idx: *occ_idx as int,
                label: label@,
                checked: *checked,
                path: path@,
                blame_overlay: opt_string(*blame_overlay),
                blame_tooltip: opt_string(*blame_tooltip),
            },
            DetailRow::Gap => RowModel::Gap,
            DetailRow::CodeLine { line_number, is_context, segments } => RowModel::CodeLine {
                line_number: *line_number as int,
                is_context: *is_context,
                segments: segment_models(segments@),
            },
            DetailRow::Unavailable => RowModel::Unavailable,
        }
    }
}

/// What a list of rows stands for.
pub open spec fn row_models(list: Seq<DetailRow>) -> Seq<RowModel> {
    Seq::new(list.len(), |i: int| list[i]@)
}

/// What rows are kept under: the group, and a hash of all that they show.
#[derive(Debug, Clone, Copy, PartialEq, Eq, Structural)]
pub struct DetailRowsCacheKey {
    pub group_id: Option<i64>,
    pub fingerprint: u64,
}

/// Rows, and what they are kept under.
#[derive(Debug, Clone)]
pub struct DetailRowsCache {
    pub key: DetailRowsCacheKey,
    pub rows: Rc<Vec<DetailRow>>,
}

/// A number as the hash is fed with it.
pub open spec fn word(n: u64) -> Seq<u8> {
    spec_u64_to_le_bytes(n)
}

/// A path as the hash is fed with it: how many bytes its plain form has, then
/// these bytes.
pub open spec fn path_feed(path: Seq<char>) -> Seq<Seq<u8>> {
    let bytes = encode_utf8(plain_form(path));
    seq![word(bytes.len() as u64), bytes]
}

/// What the hash is fed with for one occurrence.
pub open spec fn occurrence_feed(o: OccurrenceView) -> Seq<Seq<u8>> {
    path_feed(o.path@) + seq![
        word(o.start_line as u64),
        word(o.end_line as u64),
        word(o.alpha_rename_spans@.len() as u64),
    ] + spans_feed(o.alpha_rename_spans@, o.alpha_rename_spans@.len() as int)
}

/// What the hash is fed with for the first `n` renamed locals.
pub open spec fn spans_feed(spans: Seq<Span>, n: int) -> Seq<Seq<u8>>
    decreases n,
{
    if n <= 0 {
        Seq::empty()
    } else {
        spans_feed(spans, n - 1) + seq![
            word(spans[n - 1].0 as u64),
            word(spans[n - 1].1 as u64),
            word(spans[n - 1].2 as u64),
        ]
    }
}

/// What the hash is fed with for the first `n` occurrences.
pub open spec fn occurrences_feed(list: Seq<OccurrenceView>, n: int) -> Seq<Seq<u8>>
    decreases n,
{
    if n <= 0 {
        Seq::empty()
    } else {
        occurrences_feed(list, n - 1) + occurrence_feed(list[n - 1])
    }
}

/// The hash of the number of an occurrence.
pub open spec fn index_hash(idx: usize) -> u64 {
    DefaultHasher::spec_finish(seq![word(idx as u64)])
}

/// What an entry of a set of occurrences adds to the hash of those of a group.
pub open spec fn index_part(entry: (i64, usize), group: i64) -> u64 {
    if entry.0 == group {
        index_hash(entry.1)
    } else {
        0
    }
}

/// The hash of the occurrences of a group in a set. The order of the set makes
/// no difference to it.
pub open spec fn index_fold(set: Seq<(i64, usize)>, group: i64) -> u64 {
    set.fold_left(0u64, |acc: u64, entry: (i64, usize)| acc ^ index_part(entry, group))
}

/// The hash of a dismissed occurrence: a group and a path.
pub open spec fn dismissal_hash(entry: (u64, String)) -> u64 {
    DefaultHasher::spec_finish(seq![word(entry.0)] + path_feed(entry.1@))
}

/// The hash of a set of dismissed occurrences. The order of the set makes no
/// difference to it.
pub open spec fn dismissal_fold(set: Seq<(u64, String)>) -> u64 {
    set.fold_left(0u64, |acc: u64, entry: (u64, String)| acc ^ dismissal_hash(entry))
}

/// What the hash is fed with.
pub open spec fn key_feed(
    group_id: Option<i64>,
    occurrences: Seq<OccurrenceView>,
    collapsed: Seq<(i64, usize)>,
    selected: Seq<(i64, usize)>,
    dismissed: Seq<(u64, String)>,
    context_lines: usize,
) -> Seq<Seq<u8>> {
    let group = match group_id {
        Some(id) => seq![word(1), word(id as u64)],
        None => seq![word(0), word(0)],
    };
    let flags = match group_id {
        Some(id) => seq![word(index_fold(collapsed, id)), word(index_fold(selected, id))],
        None => Seq::empty(),
    };
    group + seq![word(context_lines as u64), word(occurrences.len() as u64)] + occurrences_feed(
        occurrences,
        occurrences.len() as int,
    ) + flags + seq![word(dismissal_fold(dismissed))]
}

/// Feeds the hash with a number.
fn feed_word(h: &mut DefaultHasher, n: u64)
    ensures
        final(h)@ == old(h)@.push(word(n)),
{
    let bytes: Vec<u8> = u64_to_le_bytes(n);
    h.write(bytes.as_slice());
}

/// Feeds the hash with a path.
fn feed_path(h: &mut DefaultHasher, path: &str)
    ensures
        final(h)@ == old(h)@ + path_feed(path@),
{
    let ghost before = h@;
    let plain: String = plain_path(path);
    let bytes: &[u8] = plain.as_str().as_bytes();
    let len: u64 = bytes.len() as u64;
    assert(bytes@.len() == bytes.len());
    feed_word(h, len);
    h.write(bytes);
    assert(h@ =~= before + path_feed(path@));
}

/// Feeds the hash with one occurrence.
fn feed_occurrence(h: &mut DefaultHasher, o: &OccurrenceView)
    ensures
        final(h)@ == old(h)@ + occurrence_feed(*o),
{
    let ghost before = h@;
    feed_path(h, o.path.as_str());
    feed_word(h, o.start_line as u64);
    feed_word(h, o.end_line as u64);
    feed_word(h, o.alpha_rename_spans.len() as u64);
    let ghost head = path_feed(o.path@) + seq![
        word(o.start_line as u64),
        word(o.end_line as u64),
        word(o.alpha_rename_spans@.len() as u64),
    ];
    assert(h@ =~= before + head);
    let mut i: usize = 0;
    assert(h@ =~= before + head + spans_feed(o.alpha_rename_spans@, 0));
    while i < o.alpha_rename_spans.len()
        invariant
            i <= o.alpha_rename_spans.len(),
            h@ == before + head + spans_feed(o.alpha_rename_spans@, i as int),
        decreases o.alpha_rename_spans.len() - i,
    {
        let span: Span = o.alpha_rename_spans[i];
        feed_word(h, span.0 as u64);
        feed_word(h, span.1 as u64);
        feed_word(h, span.2 as u64);
        assert(h@ =~= before + head + spans_feed(o.alpha_rename_spans@, i + 1));
        i += 1;
    }
    assert(h@ =~= before + occurrence_feed(*o));
}

/// The hash of the occurrences of a group in a set.
fn fold_indices(set: &Vec<(i64, usize)>, group: i64) -> (r: u64)
    ensures
        r == index_fold(set@, group),
{
    let mut acc: u64 = 0;
    let mut i: usize = 0;
    let ghost f = |a: u64, entry: (i64, usize)| a ^ index_part(entry, group);
    while i < set.len()
        invariant
            i <= set.len(),
            f == (|a: u64, entry: (i64, usize)| a ^ index_part(entry, group)),
            acc == set@.take(i as int).fold_left(0u64, f),
        decreases set.len() - i,
    {
        let entry: (i64, usize) = set[i];
        assert(set@.take(i + 1).drop_last() =~= set@.take(i as int));
        let mut part: u64 = 0;
        if entry.0 == group {
            let mut h: DefaultHasher = DefaultHasher::new();
            feed_word(&mut h, entry.1 as u64);
            assert(h@ =~= seq![word(entry.1 as u64)]);
            part = h.finish();
        }
        acc = acc ^ part;
        i += 1;
    }
    assert(set@.take(i as int) =~= set@);
    acc
}

/// The hash of a set of dismissed occurrences.
fn fold_dismissals(set: &Vec<(u64, String)>) -> (r: u64)
    ensures
        r == dismissal_fold(set@),
{
    let mut acc: u64 = 0;
    let mut i: usize = 0;
    let ghost f = |a: u64, entry: (u64, String)| a ^ dismissal_hash(entry);
    while i < set.len()
        invariant
            i <= set.len(),
            f == (|a: u64, entry: (u64, String)| a ^ dismissal_hash(entry)),
            acc == set@.take(i as int).fold_left(0u64, f),
        decreases set.len() - i,
    {
        let entry: &(u64, String) = &set[i];
        assert(set@.take(i + 1).drop_last() =~= set@.take(i as int));
        let mut h: DefaultHasher = DefaultHasher::new();
        feed_word(&mut h, entry.0);
        feed_path(&mut h, entry.1.as_str());
        assert(h@ =~= seq![word(entry.0)] + path_feed(entry.1@));
        acc = acc ^ h.finish();
        i += 1;
    }
    assert(set@.take(i as int) =~= set@);
    acc
}

/// What the rows of a group are kept under. The sets hold the occurrences that
/// are collapsed and those that are selected, by group and number, and those
/// that were dismissed, by group and path.
pub fn compute_cache_key(
    group_id: Option<i64>,
    occurrences: &Vec<OccurrenceView>,
    collapsed_occurrences: &Vec<(i64, usize)>,
    selected_occurrence_indices: &Vec<(i64, usize)>,
    session_occurrence_dismissed: &Vec<(u64, String)>,
    context_lines: usize,
) -> (r: DetailRowsCacheKey)
    ensures
        r.group_id == group_id,
        r.fingerprint == DefaultHasher::spec_finish(
            key_feed(
                group_id,
                occurrences@,
                collapsed_occurrences@,
                selected_occurrence_indices@,
                session_occurrence_dismissed@,
                context_lines,
            ),
        ),
{
    let mut h: DefaultHasher = DefaultHasher::new();
    match group_id {
        Some(id) => {
            feed_word(&mut h, 1);
            feed_word(&mut h, id as u64);
        },
        None => {
            feed_word(&mut h, 0);
            feed_word(&mut h, 0);
        },
    }
    feed_word(&mut h, context_lines as u64);
    feed_word(&mut h, occurrences.len() as u64);
    let ghost head = h@;
    let mut i: usize = 0;
    assert(h@ =~= head + occurrences_feed(occurrences@, 0));
    while i < occurrences.len()
        invariant
            i <= occurrences.len(),
            h@ == head + occurrences_feed(occurrences@, i as int),
        decreases occurrences.len() - i,
    {
        feed_occurrence(&mut h, &occurrences[i]);
        assert(h@ =~= head + occurrences_feed(occurrences@, i + 1));
        i += 1;
    }
    if let Some(id) = group_id {
        let collapsed: u64 = fold_indices(collapsed_occurrences, id);
        feed_word(&mut h, collapsed);
        let selected: u64 = fold_indices(selected_occurrence_indices, id);
        feed_word(&mut h, selected);
    }
    let dismissed: u64 = fold_dismissals(session_occurrence_dismissed);
    feed_word(&mut h, dismissed);
    assert(h@ =~= key_feed(
        group_id,
        occurrences@,
        collapsed_occurrences@,
        selected_occurrence_indices@,
        session_occurrence_dismissed@,
        context_lines,
    ));
    DetailRowsCacheKey { group_id, fingerprint: h.finish() }
}

/// The order in which a set lists its occurrences makes no difference to the
/// key.
pub proof fn law_order_does_not_matter(
    group: i64,
    a: Seq<(i64, usize)>,
    b: Seq<(i64, usize)>,
    c: Seq<(u64, String)>,
    d: Seq<(u64, String)>,
)
    requires
        a.to_multiset() == b.to_multiset(),
        c.to_multiset() == d.to_multiset(),
    ensures
        index_fold(a, group) == index_fold(b, group),
        dismissal_fold(c) == dismissal_fold(d),
{
    let f = |acc: u64, entry: (i64, usize)| acc ^ index_part(entry, group);
    assert forall|x: (i64, usize), y: (i64, usize), v: u64| #[trigger] f(f(v, x), y) == f(
        f(v, y),
        x,
    ) by {
        lemma_xor_swaps(v, index_part(x, group), index_part(y, group));
    }
    vstd::seq_lib::lemma_fold_left_permutation(a, b, f, 0u64);
    let g = |acc: u64, entry: (u64, String)| acc ^ dismissal_hash(entry);
    assert forall|x: (u64, String), y: (u64, String), v: u64| #[trigger] g(g(v, x), y) == g(
        g(v, y),
        x,
    ) by {
        lemma_xor_swaps(v, dismissal_hash(x), dismissal_hash(y));
    }
    vstd::seq_lib::lemma_fold_left_permutation(c, d, g, 0u64);
}

/// Two numbers can be mixed in in either order.
proof fn lemma_xor_swaps(v: u64, x: u64, y: u64)
    ensures
        (v ^ x) ^ y == (v ^ y) ^ x,
{
    assert((v ^ x) ^ y == (v ^ y) ^ x) by (bit_vector);
}

/// What is collapsed or selected in another group makes no difference to the
/// key of a group.
pub proof fn law_other_groups_do_not_matter(
    group: i64,
    set: Seq<(i64, usize)>,
    entry: (i64, usize),
)
    requires
        entry.0 != group,
    ensures
        index_fold(set.push(entry), group) == index_fold(set, group),
{
    let f = |acc: u64, e: (i64, usize)| acc ^ index_part(e, group);
    assert(set.push(entry).drop_last() =~= set);
    let before = set.fold_left(0u64, f);
    assert(before ^ 0 == before) by (bit_vector);
}

/// An occurrence that is toggled twice leaves the key as it was.
pub proof fn law_toggling_twice_restores(
    group: i64,
    set: Seq<(i64, usize)>,
    entry: (i64, usize),
)
    requires
        set.no_duplicates(),
    ensures
        index_fold(toggled(toggled(set, entry), entry), group) == index_fold(set, group),
{
    let keep = other_than(entry);
    reveal(Seq::filter);
    let other: usize = if entry.1 == 0 {
        1
    } else {
        0
    };
    law_toggle_flips(set, entry, (entry.0, other));
    if set.contains(entry) {
        let left = set.filter(keep);
        lemma_fold_without(group, set, entry);
        assert(left.push(entry).drop_last() =~= left);
    } else {
        let more = set.push(entry);
        assert(more.drop_last() =~= set);
        lemma_filter_all(set, entry);
    }
}

/// A filter leaves a list without an entry as it is.
proof fn lemma_filter_all(set: Seq<(i64, usize)>, entry: (i64, usize))
    requires
        !set.contains(entry),
    ensures
        set.filter(other_than(entry)) == set,
    decreases set.len(),
{
    reveal(Seq::filter);
    if set.len() > 0 {
        let before = set.drop_last();
        assert(set.contains(set[set.len() - 1]));
        assert forall|i: int| 0 <= i < before.len() implies #[trigger] before[i] != entry by {
            assert(set.contains(set[i]));
        }
        lemma_filter_all(before, entry);
        assert(before.push(set.last()) =~= set);
    }
}

/// The hash of a set is that of the set without an entry, with the entry mixed
/// in.
proof fn lemma_fold_without(group: i64, set: Seq<(i64, usize)>, entry: (i64, usize))
    requires
        set.no_duplicates(),
        set.contains(entry),
    ensures
        index_fold(set, group) == index_fold(set.filter(other_than(entry)), group) ^ index_part(
            entry,
            group,
        ),
    decreases set.len(),
{
    reveal(Seq::filter);
    let before = set.drop_last();
    let last = set.last();
    if last == entry {
        assert forall|i: int| 0 <= i < before.len() implies #[trigger] before[i] != entry by {
            assert(set[i] != set[set.len() - 1]);
        }
        lemma_filter_all(before, entry);
    } else {
        let k = set.index_of(entry);
        assert(before[k] == entry);
        assert(before.no_duplicates()) by {
            assert forall|i: int, j: int|
                0 <= i < before.len() && 0 <= j < before.len() && i != j implies before[i]
                != before[j] by {
                assert(set[i] != set[j]);
            }
        }
        lemma_fold_without(group, before, entry);
        let left = before.filter(other_than(entry));
        assert(left.push(last).drop_last() =~= left);
        lemma_xor_swaps(
            index_fold(left, group),
            index_part(entry, group),
            index_part(last, group),
        );
    }
}

/// How a path is written makes no difference to the key, as long as it leads the
/// same way.
pub proof fn law_writing_of_paths_does_not_matter(
    a: OccurrenceView,
    b: OccurrenceView,
    x: (u64, String),
    y: (u64, String),
)
    requires
        same_way(a.path@, b.path@),
        a.start_line == b.start_line,
        a.end_line == b.end_line,
        a.alpha_rename_spans@ == b.alpha_rename_spans@,
        x.0 == y.0,
        same_way(x.1@, y.1@),
    ensures
        occurrence_feed(a) == occurrence_feed(b),
        dismissal_hash(x) == dismissal_hash(y),
{
}

/// All that the hash is fed with, as one stream of bytes.
pub open spec fn stream(feed: Seq<Seq<u8>>) -> Seq<u8>
    decreases feed.len(),
{
    if feed.len() == 0 {
        Seq::empty()
    } else {
        stream(feed.drop_last()) + feed.last()
    }
}

/// The stream of two feeds one after the other.
proof fn lemma_stream_joins(a: Seq<Seq<u8>>, b: Seq<Seq<u8>>)
    ensures
        stream(a + b) == stream(a) + stream(b),
    decreases b.len(),
{
    if b.len() == 0 {
        assert(a + b =~= a);
        assert(stream(a) + stream(b) =~= stream(a));
    } else {
        assert((a + b).drop_last() =~= a + b.drop_last());
        lemma_stream_joins(a, b.drop_last());
        assert(stream(a + b) =~= stream(a) + stream(b));
    }
}

/// The stream of one piece.
proof fn lemma_stream_one(a: Seq<u8>)
    ensures
        stream(seq![a]) == a,
{
    assert(seq![a].drop_last() =~= Seq::<Seq<u8>>::empty());
    assert(stream(seq![a].drop_last()) =~= Seq::<u8>::empty());
    assert(stream(seq![a]) =~= a);
}

/// The stream of two pieces.
proof fn lemma_stream_two(a: Seq<u8>, b: Seq<u8>)
    ensures
        stream(seq![a, b]) == a + b,
{
    assert(seq![a, b] =~= seq![a] + seq![b]);
    lemma_stream_joins(seq![a], seq![b]);
    lemma_stream_one(a);
    lemma_stream_one(b);
}

/// The stream of three pieces.
proof fn lemma_stream_three(a: Seq<u8>, b: Seq<u8>, c: Seq<u8>)
    ensures
        stream(seq![a, b, c]) == a + b + c,
{
    assert(seq![a, b, c] =~= seq![a, b] + seq![c]);
    lemma_stream_joins(seq![a, b], seq![c]);
    lemma_stream_two(a, b);
    lemma_stream_one(c);
}

/// Two streams that begin with parts of the same length agree in these parts and
/// in what follows.
proof fn lemma_split(a: Seq<u8>, r: Seq<u8>, b: Seq<u8>, s: Seq<u8>)
    requires
        a + r == b + s,
        a.len() == b.len(),
    ensures
        a == b,
        r == s,
{
    assert(a =~= (a + r).take(a.len() as int));
    assert(b =~= (b + s).take(b.len() as int));
    assert(r =~= (a + r).skip(a.len() as int));
    assert(s =~= (b + s).skip(b.len() as int));
}

/// Two streams that begin with a number agree in the number and in what follows.
proof fn lemma_split_word(m: u64, r: Seq<u8>, n: u64, s: Seq<u8>)
    requires
        word(m) + r == word(n) + s,
    ensures
        m == n,
        r == s,
{
    lemma_auto_spec_u64_to_from_le_bytes();
    lemma_split(word(m), r, word(n), s);
}

/// The numbers of renamed locals as one stream.
proof fn lemma_spans_stream(a: Seq<Span>, b: Seq<Span>, n: int)
    requires
        0 <= n <= a.len(),
        n <= b.len(),
    ensures
        stream(spans_feed(a, n)).len() == 24 * n,
        stream(spans_feed(a, n)) == stream(spans_feed(b, n)) ==> forall|i: int|
            0 <= i < n ==> #[trigger] a[i] == b[i],
    decreases n,
{
    lemma_auto_spec_u64_to_from_le_bytes();
    if n > 0 {
        let x = a[n - 1];
        let y = b[n - 1];
        let p = seq![word(x.0 as u64), word(x.1 as u64), word(x.2 as u64)];
        let q = seq![word(y.0 as u64), word(y.1 as u64), word(y.2 as u64)];
        lemma_spans_stream(a, b, n - 1);
        lemma_spans_stream(b, a, n - 1);
        lemma_stream_joins(spans_feed(a, n - 1), p);
        lemma_stream_joins(spans_feed(b, n - 1), q);
        lemma_stream_three(p[0], p[1], p[2]);
        lemma_stream_three(q[0], q[1], q[2]);
        if stream(spans_feed(a, n)) == stream(spans_feed(b, n)) {
            lemma_split(stream(spans_feed(a, n - 1)), stream(p), stream(spans_feed(b, n - 1)), stream(q));
            lemma_split(p[0] + p[1], p[2], q[0] + q[1], q[2]);
            lemma_split(p[0], p[1], q[0], q[1]);
            assert(x.0 as u64 == y.0 as u64 && x.1 as u64 == y.1 as u64 && x.2 as u64
                == y.2 as u64);
            assert(x == y);
        }
    }
}

/// What can be read back of an occurrence from the stream is the same: where the
/// path leads, the lines and the renamed locals.
pub open spec fn same_occurrence(a: OccurrenceView, b: OccurrenceView) -> bool {
    &&& plain_form(a.path@) == plain_form(b.path@)
    &&& a.start_line == b.start_line
    &&& a.end_line == b.end_line
    &&& a.alpha_rename_spans@ == b.alpha_rename_spans@
}

/// The bytes of a path can be counted.
pub open spec fn path_fits(o: OccurrenceView) -> bool {
    encode_utf8(plain_form(o.path@)).len() <= u64::MAX
}

/// Two streams that begin with an occurrence agree in it and in what follows.
proof fn lemma_split_occurrence(a: OccurrenceView, r: Seq<u8>, b: OccurrenceView, s: Seq<u8>)
    requires
        path_fits(a),
        path_fits(b),
        stream(occurrence_feed(a)) + r == stream(occurrence_feed(b)) + s,
    ensures
        same_occurrence(a, b),
        r == s,
{
    lemma_occurrence_stream(a, r);
    lemma_occurrence_stream(b, s);
    let x = encode_utf8(plain_form(a.path@));
    let y = encode_utf8(plain_form(b.path@));
    let (l, m) = (a.alpha_rename_spans@, b.alpha_rename_spans@);
    let (p, q) = (stream(spans_feed(l, l.len() as int)), stream(spans_feed(m, m.len() as int)));
    let a4 = word(l.len() as u64) + (p + r);
    let b4 = word(m.len() as u64) + (q + s);
    let a3 = word(a.end_line as u64) + a4;
    let b3 = word(b.end_line as u64) + b4;
    let a2 = word(a.start_line as u64) + a3;
    let b2 = word(b.start_line as u64) + b3;
    lemma_split_word(x.len() as u64, x + a2, y.len() as u64, y + b2);
    lemma_split(x, a2, y, b2);
    lemma_split_word(a.start_line as u64, a3, b.start_line as u64, b3);
    lemma_split_word(a.end_line as u64, a4, b.end_line as u64, b4);
    lemma_split_word(l.len() as u64, p + r, m.len() as u64, q + s);
    assert(a.alpha_rename_spans.len() == b.alpha_rename_spans.len());
    let n = l.len() as int;
    lemma_spans_stream(l, m, n);
    lemma_spans_stream(m, l, n);
    lemma_split(p, r, q, s);
    assert(l =~= m);
    encode_utf8_decode_utf8(plain_form(a.path@));
    encode_utf8_decode_utf8(plain_form(b.path@));
    lemma_lines_apart(a.start_line, b.start_line);
    lemma_lines_apart(a.end_line, b.end_line);
}

/// Different line numbers are fed as different numbers.
proof fn lemma_lines_apart(x: i64, y: i64)
    requires
        x as u64 == y as u64,
    ensures
        x == y,
{
    assert(x as u64 == y as u64 ==> x == y) by (bit_vector);
}

/// The stream of an occurrence, written out.
proof fn lemma_occurrence_stream(o: OccurrenceView, r: Seq<u8>)
    ensures
        ({
            let x = encode_utf8(plain_form(o.path@));
            let l = o.alpha_rename_spans@;
            stream(occurrence_feed(o)) + r == word(x.len() as u64) + (x + (word(o.start_line as u64)
                + (word(o.end_line as u64) + (word(l.len() as u64) + (stream(
                spans_feed(l, l.len() as int),
            ) + r)))))
        }),
{
    let x = encode_utf8(plain_form(o.path@));
    let l = o.alpha_rename_spans@;
    let lines = seq![
        word(o.start_line as u64),
        word(o.end_line as u64),
        word(l.len() as u64),
    ];
    let spans = spans_feed(l, l.len() as int);
    lemma_stream_joins(path_feed(o.path@) + lines, spans);
    lemma_stream_joins(path_feed(o.path@), lines);
    lemma_stream_two(word(x.len() as u64), x);
    lemma_stream_three(lines[0], lines[1], lines[2]);
    assert(stream(occurrence_feed(o)) + r =~= word(x.len() as u64) + (x + (word(o.start_line as u64)
        + (word(o.end_line as u64) + (word(l.len() as u64) + (stream(spans) + r))))));
}

/// Two streams that begin with equally many occurrences agree in them and in what
/// follows.
proof fn lemma_split_occurrences(
    a: Seq<OccurrenceView>,
    r: Seq<u8>,
    b: Seq<OccurrenceView>,
    s: Seq<u8>,
    n: int,
)
    requires
        0 <= n <= a.len(),
        n <= b.len(),
        forall|i: int| 0 <= i < a.len() ==> path_fits(#[trigger] a[i]),
        forall|i: int| 0 <= i < b.len() ==> path_fits(#[trigger] b[i]),
        stream(occurrences_feed(a, n)) + r == stream(occurrences_feed(b, n)) + s,
    ensures
        forall|i: int| 0 <= i < n ==> same_occurrence(#[trigger] a[i], b[i]),
        r == s,
    decreases n,
{
    if n == 0 {
        assert(stream(occurrences_feed(a, n)) + r =~= r);
        assert(stream(occurrences_feed(b, n)) + s =~= s);
    } else {
        let x = stream(occurrence_feed(a[n - 1]));
        let y = stream(occurrence_feed(b[n - 1]));
        lemma_stream_joins(occurrences_feed(a, n - 1), occurrence_feed(a[n - 1]));
        lemma_stream_joins(occurrences_feed(b, n - 1), occurrence_feed(b[n - 1]));
        assert(stream(occurrences_feed(a, n - 1)) + (x + r) =~= stream(occurrences_feed(a, n)) + r);
        assert(stream(occurrences_feed(b, n - 1)) + (y + s) =~= stream(occurrences_feed(b, n)) + s);
        lemma_split_occurrences(a, x + r, b, y + s, n - 1);
        lemma_split_occurrence(a[n - 1], r, b[n - 1], s);
    }
}

/// What follows the occurrences in the stream.
spec fn tail_of(
    group_id: Option<i64>,
    collapsed: Seq<(i64, usize)>,
    selected: Seq<(i64, usize)>,
    dismissed: Seq<(u64, String)>,
) -> Seq<u8> {
    match group_id {
        Some(id) => word(index_fold(collapsed, id)) + (word(index_fold(selected, id)) + word(
            dismissal_fold(dismissed),
        )),
        None => word(dismissal_fold(dismissed)),
    }
}

/// The stream of a key, written out.
proof fn lemma_key_stream(
    group_id: Option<i64>,
    occurrences: Seq<OccurrenceView>,
    collapsed: Seq<(i64, usize)>,
    selected: Seq<(i64, usize)>,
    dismissed: Seq<(u64, String)>,
    context_lines: usize,
)
    ensures
        stream(key_feed(group_id, occurrences, collapsed, selected, dismissed, context_lines))
            == word(
            if group_id is Some {
                1
            } else {
                0
            },
        ) + (word(
            match group_id {
                Some(id) => id as u64,
                None => 0,
            },
        ) + (word(context_lines as u64) + (word(occurrences.len() as u64) + (stream(
            occurrences_feed(occurrences, occurrences.len() as int),
        ) + tail_of(group_id, collapsed, selected, dismissed))))),
{
    let group = match group_id {
        Some(id) => seq![word(1), word(id as u64)],
        None => seq![word(0), word(0)],
    };
    let flags = match group_id {
        Some(id) => seq![word(index_fold(collapsed, id)), word(index_fold(selected, id))],
        None => Seq::empty(),
    };
    let counts = seq![word(context_lines as u64), word(occurrences.len() as u64)];
    let all = occurrences_feed(occurrences, occurrences.len() as int);
    let last = seq![word(dismissal_fold(dismissed))];
    lemma_stream_joins(group + counts + all + flags, last);
    lemma_stream_joins(group + counts + all, flags);
    lemma_stream_joins(group + counts, all);
    lemma_stream_joins(group, counts);
    lemma_stream_two(group[0], group[1]);
    lemma_stream_two(counts[0], counts[1]);
    lemma_stream_one(last[0]);
    if group_id is Some {
        lemma_stream_two(flags[0], flags[1]);
    }
    let whole = stream(
        key_feed(group_id, occurrences, collapsed, selected, dismissed, context_lines),
    );
    let tail = tail_of(group_id, collapsed, selected, dismissed);
    assert(stream(flags) + last[0] =~= tail);
    assert(whole =~= group[0] + (group[1] + (counts[0] + (counts[1] + (stream(all) + tail)))));
}

/// The bytes that the hash is fed with tell everything apart that the rows
/// depend on: from equal bytes follow the same group, the same number of lines
/// around an occurrence and the same occurrences, with their paths, lines and
/// renamed locals, and the same hashes of what is collapsed, selected and
/// dismissed.
pub proof fn law_feed_tells_apart(
    group_a: Option<i64>,
    occurrences_a: Seq<OccurrenceView>,
    collapsed_a: Seq<(i64, usize)>,
    selected_a: Seq<(i64, usize)>,
    dismissed_a: Seq<(u64, String)>,
    context_a: usize,
    group_b: Option<i64>,
    occurrences_b: Seq<OccurrenceView>,
    collapsed_b: Seq<(i64, usize)>,
    selected_b: Seq<(i64, usize)>,
    dismissed_b: Seq<(u64, String)>,
    context_b: usize,
)
    requires
        occurrences_a.len() <= u64::MAX,
        occurrences_b.len() <= u64::MAX,
        forall|i: int| 0 <= i < occurrences_a.len() ==> path_fits(#[trigger] occurrences_a[i]),
        forall|i: int| 0 <= i < occurrences_b.len() ==> path_fits(#[trigger] occurrences_b[i]),
        stream(
            key_feed(group_a, occurrences_a, collapsed_a, selected_a, dismissed_a, context_a),
        ) == stream(
            key_feed(group_b, occurrences_b, collapsed_b, selected_b, dismissed_b, context_b),
        ),
    ensures
        group_a == group_b,
        context_a == context_b,
        occurrences_a.len() == occurrences_b.len(),
        forall|i: int|
            0 <= i < occurrences_a.len() ==> same_occurrence(
                #[trigger] occurrences_a[i],
                occurrences_b[i],
            ),
        group_a matches Some(id) ==> index_fold(collapsed_a, id) == index_fold(collapsed_b, id)
            && index_fold(selected_a, id) == index_fold(selected_b, id),
        dismissal_fold(dismissed_a) == dismissal_fold(dismissed_b),
{
    lemma_key_stream(group_a, occurrences_a, collapsed_a, selected_a, dismissed_a, context_a);
    lemma_key_stream(group_b, occurrences_b, collapsed_b, selected_b, dismissed_b, context_b);
    let tag_a: u64 = if group_a is Some {
        1
    } else {
        0
    };
    let tag_b: u64 = if group_b is Some {
        1
    } else {
        0
    };
    let id_a: u64 = match group_a {
        Some(id) => id as u64,
        None => 0,
    };
    let id_b: u64 = match group_b {
        Some(id) => id as u64,
        None => 0,
    };
    let tail_a = tail_of(group_a, collapsed_a, selected_a, dismissed_a);
    let tail_b = tail_of(group_b, collapsed_b, selected_b, dismissed_b);
    let n = occurrences_a.len() as int;
    let m = occurrences_b.len() as int;
    let a4 = stream(occurrences_feed(occurrences_a, n)) + tail_a;
    let b4 = stream(occurrences_feed(occurrences_b, m)) + tail_b;
    let a3 = word(n as u64) + a4;
    let b3 = word(m as u64) + b4;
    let a2 = word(context_a as u64) + a3;
    let b2 = word(context_b as u64) + b3;
    lemma_split_word(tag_a, word(id_a) + a2, tag_b, word(id_b) + b2);
    lemma_split_word(id_a, a2, id_b, b2);
    if group_a is Some {
        lemma_lines_apart(group_a->0, group_b->0);
    }
    lemma_split_word(context_a as u64, a3, context_b as u64, b3);
    lemma_split_word(n as u64, a4, m as u64, b4);
    lemma_split_occurrences(occurrences_a, tail_a, occurrences_b, tail_b, n);
    lemma_auto_spec_u64_to_from_le_bytes();
    match group_a {
        Some(id) => {
            let (p, q) = (word(dismissal_fold(dismissed_a)), word(dismissal_fold(dismissed_b)));
            lemma_split_word(
                index_fold(collapsed_a, id),
                word(index_fold(selected_a, id)) + p,
                index_fold(collapsed_b, id),
                word(index_fold(selected_b, id)) + q,
            );
            lemma_split_word(index_fold(selected_a, id), p, index_fold(selected_b, id), q);
        },
        None => {},
    }
}

/// One more occurrence that is collapsed or selected in a group adds its hash to
/// that of the group, and one more dismissed occurrence its own to that of all.
pub proof fn law_sets_are_hashed(
    group: i64,
    set: Seq<(i64, usize)>,
    idx: usize,
    dismissed: Seq<(u64, String)>,
    hash: u64,
    path: String,
)
    ensures
        index_fold(Seq::empty(), group) == 0,
        index_fold(set.push((group, idx)), group) == index_fold(set, group)
            ^ DefaultHasher::spec_finish(seq![spec_u64_to_le_bytes(idx as u64)]),
        dismissal_fold(Seq::empty()) == 0,
        dismissal_fold(dismissed.push((hash, path))) == dismissal_fold(dismissed)
            ^ DefaultHasher::spec_finish(
            seq![
                spec_u64_to_le_bytes(hash),
                spec_u64_to_le_bytes(encode_utf8(plain_form(path@)).len() as u64),
                encode_utf8(plain_form(path@)),
            ],
        ),
{
    assert(set.push((group, idx)).drop_last() =~= set);
    assert(dismissed.push((hash, path)).drop_last() =~= dismissed);
    let bytes = encode_utf8(plain_form(path@));
    assert(seq![word(hash)] + path_feed(path@) =~= seq![word(hash), word(bytes.len() as u64), bytes]);
}

/// Occurrences that the stream does not tell apart have paths that are written
/// the same in their plain form, the same lines and the same renamed locals.
pub proof fn law_same_occurrences(a: OccurrenceView, b: OccurrenceView)
    requires
        same_occurrence(a, b),
    ensures
        plain_form(a.path@) == plain_form(b.path@),
        a.start_line == b.start_line,
        a.end_line == b.end_line,
        a.alpha_rename_spans@ == b.alpha_rename_spans@,
{
}

} // verus!
