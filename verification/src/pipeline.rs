//! The post-processing pipeline over recognized segments:
//! overlap merge, then gap grouping (word-level output) or gap splitting
//! (sentence-level output), then splitting of over-long segments.
//!
//! Every stage is stated as a spec function over segment views; the
//! executable functions are proved to compute exactly those.
use vstd::prelude::*;
use vstd::string::*;
use crate::schema::{
    lemma_segs_view_push, lemma_words_view_push, segs_view, transcripts_view, words_view,
    AsrSegment, SegmentView, TranscriptSegment, WordTimestamp, WordView,
};
use crate::text::{join_spaced, trim, trim_str};
use crate::convert::{asr_segments_to_transcript_segments, to_transcripts};

verus! {

// ---------------------------------------------------------------------------
// Text of a word list
// ---------------------------------------------------------------------------

/// The texts of a word list.
pub open spec fn word_texts(ws: Seq<WordView>) -> Seq<Seq<char>> {
    ws.map_values(|w: WordView| w.word)
}

/// The words joined by single spaces, then trimmed.
pub open spec fn joined_text(ws: Seq<WordView>) -> Seq<char> {
    trim(join_spaced(word_texts(ws)))
}

/// The words' texts joined by single spaces and trimmed.
pub fn join_words(words: &Vec<WordTimestamp>) -> (r: String)
    ensures
        r@ == joined_text(words_view(words@)),
{
    let mut acc = String::new();
    let mut i: usize = 0;
    while i < words.len()
        invariant
            i <= words.len(),
            acc@ == join_spaced(word_texts(words_view(words@.take(i as int)))),
        decreases words.len() - i,
    {
        let ghost before = word_texts(words_view(words@.take(i as int)));
        let ghost after = word_texts(words_view(words@.take(i + 1)));
        assert(after.drop_last() =~= before);
        assert(after.last() == words@[i as int].word@);
        if i > 0 {
            proof {
                reveal_strlit(" ");
            }
            acc.append(" ");
        }
        acc.append(words[i].word.as_str());
        i = i + 1;
    }
    assert(words@.take(words.len() as int) =~= words@);
    trim_str(acc.as_str())
}

// ---------------------------------------------------------------------------
// Stable sort by start time
// ---------------------------------------------------------------------------

/// `x` inserted into `s` after every element whose start is not later.
pub open spec fn insert_by_start(s: Seq<SegmentView>, x: SegmentView) -> Seq<SegmentView>
    decreases s.len(),
{
    if s.len() == 0 {
        seq![x]
    } else if s.last().start <= x.start {
        s.push(x)
    } else {
        insert_by_start(s.drop_last(), x).push(s.last())
    }
}

/// The stable sort of `s` by start time (equal starts keep their order).
pub open spec fn sort_by_start(s: Seq<SegmentView>) -> Seq<SegmentView>
    decreases s.len(),
{
    if s.len() == 0 {
        s
    } else {
        insert_by_start(sort_by_start(s.drop_last()), s.last())
    }
}

/// Starts never decrease along `s`.
pub open spec fn starts_sorted(s: Seq<SegmentView>) -> bool {
    forall|i: int, j: int| 0 <= i <= j < s.len() ==> s[i].start <= s[j].start
}

pub proof fn lemma_insert_by_start_at(s: Seq<SegmentView>, x: SegmentView, p: int)
    requires
        0 <= p <= s.len(),
        forall|k: int| p <= k < s.len() ==> (#[trigger] s[k]).start > x.start,
        p == 0 || s[p - 1].start <= x.start,
    ensures
        insert_by_start(s, x) == s.insert(p, x),
    decreases s.len(),
{
    if s.len() == 0 {
        assert(seq![x] =~= s.insert(p, x));
    } else if s.last().start <= x.start {
        assert(p == s.len());
        assert(s.push(x) =~= s.insert(p, x));
    } else {
        let d = s.drop_last();
        assert(p < s.len());
        lemma_insert_by_start_at(d, x, p);
        assert(d.insert(p, x).push(s.last()) =~= s.insert(p, x));
    }
}

proof fn lemma_insert_by_start_sorted(s: Seq<SegmentView>, x: SegmentView)
    requires
        starts_sorted(s),
    ensures
        starts_sorted(insert_by_start(s, x)),
        insert_by_start(s, x).to_multiset() == s.to_multiset().insert(x),
        insert_by_start(s, x).len() == s.len() + 1,
        forall|k: int|
            0 <= k < insert_by_start(s, x).len() ==> #[trigger] insert_by_start(s, x)[k] == x
                || s.contains(insert_by_start(s, x)[k]),
    decreases s.len(),
{
    broadcast use vstd::seq_lib::group_to_multiset_ensures;

    if s.len() == 0 {
        assert(seq![x] =~= Seq::<SegmentView>::empty().push(x));
    } else if s.last().start <= x.start {
    } else {
        let d = s.drop_last();
        lemma_insert_by_start_sorted(d, x);
        let r = insert_by_start(d, x);
        assert(s =~= d.push(s.last()));
        assert forall|k: int| 0 <= k < r.len() implies (#[trigger] r[k]).start <= s.last().start by {
            if r[k] == x {
            } else {
                assert(d.contains(r[k]));
                let m = choose|m: int| 0 <= m < d.len() && d[m] == r[k];
                assert(s[m] == d[m]);
            }
        }
        let rr = r.push(s.last());
        assert forall|k: int| 0 <= k < rr.len() implies #[trigger] rr[k] == x || s.contains(
            rr[k],
        ) by {
            if k == r.len() {
                assert(s[s.len() - 1] == rr[k]);
            } else if r[k] != x {
                assert(d.contains(r[k]));
                let m = choose|m: int| 0 <= m < d.len() && d[m] == r[k];
                assert(s[m] == d[m]);
            }
        }
    }
}

/// The stable sort by start time is ordered by start and is a permutation
/// of its input.
pub proof fn lemma_sort_by_start(s: Seq<SegmentView>)
    ensures
        starts_sorted(sort_by_start(s)),
        sort_by_start(s).to_multiset() == s.to_multiset(),
        sort_by_start(s).len() == s.len(),
    decreases s.len(),
{
    broadcast use vstd::seq_lib::group_to_multiset_ensures;

    if s.len() > 0 {
        lemma_sort_by_start(s.drop_last());
        lemma_insert_by_start_sorted(sort_by_start(s.drop_last()), s.last());
        assert(s =~= s.drop_last().push(s.last()));
    }
}

/// `segments` sorted by start time, stably.
pub fn sort_segments_by_start(segments: Vec<AsrSegment>) -> (r: Vec<AsrSegment>)
    ensures
        segs_view(r@) == sort_by_start(segs_view(segments@)),
{
    let ghost input = segments@;
    let mut r: Vec<AsrSegment> = Vec::new();
    for seg in it: segments
        invariant
            it.seq() == input,
            segs_view(r@) == sort_by_start(segs_view(input.take(it.index() as int))),
    {
        let ghost idx = it.index() as int;
        let ghost pre = input.take(idx);
        let ghost post = input.take(idx + 1);
        assert(segs_view(post).drop_last() =~= segs_view(pre));
        assert(segs_view(post).last() == seg@);
        let mut p = r.len();
        while p > 0 && r[p - 1].start > seg.start
            invariant
                p <= r.len(),
                forall|k: int| p <= k < r.len() ==> (#[trigger] r@[k]).start > seg.start,
            decreases p,
        {
            p = p - 1;
        }
        proof {
            let sv = segs_view(r@);
            assert forall|k: int| p <= k < sv.len() implies (#[trigger] sv[k]).start > seg@.start by {
                assert(sv[k] == r@[k]@);
            }
            if p > 0 {
                assert(sv[p - 1] == r@[p - 1]@);
            }
            lemma_insert_by_start_at(sv, seg@, p as int);
        }
        let ghost old_r = r@;
        r.insert(p, seg);
        assert(segs_view(r@) =~= segs_view(old_r).insert(p as int, seg@));
    }
    assert(input.take(input.len() as int) =~= input);
    r
}

// ---------------------------------------------------------------------------
// Overlap merge
// ---------------------------------------------------------------------------

/// Whether the pair has to be swapped so that the first comes from the
/// earlier chunk.
pub open spec fn swap_needed(a: SegmentView, b: SegmentView) -> bool {
    &&& a.chunk_start is Some
    &&& b.chunk_start is Some
    &&& a.chunk_start->0 > b.chunk_start->0
}

/// Twice the time at which the merged words switch from the first segment
/// to the second: the middle of the chunk overlap when both chunk starts
/// are known, else the middle of the segments' overlap.
pub open spec fn cut_threshold(a: SegmentView, b: SegmentView, overlap: int) -> int {
    if a.chunk_start is Some && b.chunk_start is Some {
        2 * b.chunk_start->0 + overlap
    } else {
        b.start + a.end
    }
}

/// The words starting strictly before half of `t`.
pub open spec fn words_before(ws: Seq<WordView>, t: int) -> Seq<WordView>
    decreases ws.len(),
{
    if ws.len() == 0 {
        ws
    } else if 2 * ws.last().start < t {
        words_before(ws.drop_last(), t).push(ws.last())
    } else {
        words_before(ws.drop_last(), t)
    }
}

/// The words starting at or after half of `t`.
pub open spec fn words_from(ws: Seq<WordView>, t: int) -> Seq<WordView>
    decreases ws.len(),
{
    if ws.len() == 0 {
        ws
    } else if 2 * ws.last().start >= t {
        words_from(ws.drop_last(), t).push(ws.last())
    } else {
        words_from(ws.drop_last(), t)
    }
}

pub open spec fn min_int(a: int, b: int) -> int {
    if a <= b {
        a
    } else {
        b
    }
}

pub open spec fn max_int(a: int, b: int) -> int {
    if a >= b {
        a
    } else {
        b
    }
}

/// The merge of `a` (earlier chunk) and `b` (later chunk).
pub open spec fn zip_ordered(a: SegmentView, b: SegmentView, overlap: int) -> SegmentView {
    let t = cut_threshold(a, b, overlap);
    let merged = words_before(a.words, t) + words_from(b.words, t);
    SegmentView {
        text: joined_text(merged),
        start: min_int(a.start, b.start),
        end: max_int(a.end, b.end),
        words: merged,
        chunk_start: None,
        speaker: None,
    }
}

/// The merge of two overlapping segments: words of the earlier chunk up to
/// the cut, words of the later chunk from the cut on.
pub open spec fn zip_overlapping(s1: SegmentView, s2: SegmentView, overlap: int) -> SegmentView {
    if swap_needed(s1, s2) {
        zip_ordered(s2, s1, overlap)
    } else {
        zip_ordered(s1, s2, overlap)
    }
}

/// Copies of the words of `ws` whose doubled start is below `t` (when
/// `before`) or not below it (otherwise), appended to `out`.
fn collect_words_by_cut(ws: &Vec<WordTimestamp>, t: i128, before: bool, out: &mut Vec<
    WordTimestamp,
>)
    ensures
        words_view(final(out)@) == words_view(old(out)@) + (if before {
            words_before(words_view(ws@), t as int)
        } else {
            words_from(words_view(ws@), t as int)
        }),
{
    let ghost base = words_view(out@);
    let mut i: usize = 0;
    while i < ws.len()
        invariant
            i <= ws.len(),
            words_view(out@) == base + (if before {
                words_before(words_view(ws@.take(i as int)), t as int)
            } else {
                words_from(words_view(ws@.take(i as int)), t as int)
            }),
        decreases ws.len() - i,
    {
        let ghost pre = words_view(ws@.take(i as int));
        let ghost post = words_view(ws@.take(i + 1));
        assert(post.drop_last() =~= pre);
        assert(post.last() == ws@[i as int]@);
        let s2: i128 = 2 * (ws[i].start as i128);
        if (before && s2 < t) || (!before && s2 >= t) {
            let ghost old_out = out@;
            out.push(ws[i].duplicate());
            proof {
                lemma_words_view_push(old_out, ws@[i as int]);
            }
        }
        i = i + 1;
    }
    assert(ws@.take(ws.len() as int) =~= ws@);
}

/// Merge two overlapping segments. Words from the earlier chunk are kept
/// before the middle of the overlap, words from the later chunk from the
/// middle on.
pub fn zip_words_in_overlapping_segments(
    seg1: AsrSegment,
    seg2: AsrSegment,
    chunk_size: i64,
    overlap: i64,
) -> (r: AsrSegment)
    ensures
        r@ == zip_overlapping(seg1@, seg2@, overlap as int),
{
    let swap = match (seg1.chunk_start, seg2.chunk_start) {
        (Some(c1), Some(c2)) => c1 > c2,
        _ => false,
    };
    let (a, b) = if swap {
        (seg2, seg1)
    } else {
        (seg1, seg2)
    };
    let t: i128 = match (a.chunk_start, b.chunk_start) {
        (Some(_), Some(c2)) => 2 * (c2 as i128) + (overlap as i128),
        _ => (b.start as i128) + (a.end as i128),
    };
    let mut merged: Vec<WordTimestamp> = Vec::new();
    collect_words_by_cut(&a.words, t, true, &mut merged);
    collect_words_by_cut(&b.words, t, false, &mut merged);
    assert(words_view(merged@) =~= words_before(a@.words, t as int) + words_from(
        b@.words,
        t as int,
    ));
    let text = join_words(&merged);
    let start = if a.start <= b.start {
        a.start
    } else {
        b.start
    };
    let end = if a.end >= b.end {
        a.end
    } else {
        b.end
    };
    AsrSegment { text, start, end, words: merged, chunk_start: None, speaker: None }
}

/// One step of the overlap merge: append `seg`, or merge it into the last
/// result when the two overlap in time.
pub open spec fn overlap_step(acc: Seq<SegmentView>, seg: SegmentView, overlap: int) -> Seq<
    SegmentView,
> {
    if acc.len() == 0 || acc.last().end <= seg.start {
        acc.push(seg)
    } else {
        acc.drop_last().push(zip_overlapping(acc.last(), seg, overlap))
    }
}

/// The overlap merge over segments taken in the given order.
pub open spec fn overlap_fold(s: Seq<SegmentView>, overlap: int) -> Seq<SegmentView>
    decreases s.len(),
{
    if s.len() == 0 {
        s
    } else {
        overlap_step(overlap_fold(s.drop_last(), overlap), s.last(), overlap)
    }
}

/// What `resolve_overlap_conflicts` returns.
pub open spec fn resolve_overlaps(segs: Seq<SegmentView>, overlap: int) -> Seq<SegmentView> {
    overlap_fold(sort_by_start(segs), overlap)
}

/// Resolve overlaps from chunked transcription: sort by start time, then
/// merge each segment that overlaps the previous result into it.
pub fn resolve_overlap_conflicts(segments: Vec<AsrSegment>, chunk_size: i64, overlap: i64) -> (r:
    Vec<AsrSegment>)
    ensures
        segs_view(r@) == resolve_overlaps(segs_view(segments@), overlap as int),
{
    let sorted = sort_segments_by_start(segments);
    let ghost input = sorted@;
    let mut result: Vec<AsrSegment> = Vec::new();
    for seg in it: sorted
        invariant
            it.seq() == input,
            segs_view(result@) == overlap_fold(segs_view(input.take(it.index() as int)), overlap as int),
    {
        let ghost idx = it.index() as int;
        let ghost pre = input.take(idx);
        let ghost post = input.take(idx + 1);
        assert(segs_view(post).drop_last() =~= segs_view(pre));
        assert(segs_view(post).last() == seg@);
        let ghost acc = segs_view(result@);
        let n = result.len();
        if n == 0 || result[n - 1].end <= seg.start {
            proof {
                if n > 0 {
                    assert(acc.last() == result@[n - 1]@);
                }
                lemma_segs_view_push(result@, seg);
            }
            result.push(seg);
        } else {
            assert(acc.last() == result@[n - 1]@);
            let ghost old_r = result@;
            let prev = result.pop().unwrap();
            assert(result@ =~= old_r.drop_last());
            assert(segs_view(result@) =~= acc.drop_last());
            let merged = zip_words_in_overlapping_segments(prev, seg, chunk_size, overlap);
            proof {
                lemma_segs_view_push(result@, merged);
            }
            result.push(merged);
        }
    }
    assert(input.take(input.len() as int) =~= input);
    result
}

// ---------------------------------------------------------------------------
// Pieces built from word runs
// ---------------------------------------------------------------------------

/// All words of a segment list, in order.
pub open spec fn all_words(s: Seq<SegmentView>) -> Seq<WordView>
    decreases s.len(),
{
    if s.len() == 0 {
        Seq::empty()
    } else {
        all_words(s.drop_last()) + s.last().words
    }
}

/// All words of a list of word runs, in order.
pub open spec fn flatten_runs(rs: Seq<Seq<WordView>>) -> Seq<WordView>
    decreases rs.len(),
{
    if rs.len() == 0 {
        Seq::empty()
    } else {
        flatten_runs(rs.drop_last()) + rs.last()
    }
}

/// The segment made of a non-empty run of words.
pub open spec fn piece_of(ws: Seq<WordView>) -> SegmentView {
    SegmentView {
        text: joined_text(ws),
        start: ws[0].start,
        end: ws.last().end,
        words: ws,
        chunk_start: None,
        speaker: None,
    }
}

/// The views of a list of word runs.
pub open spec fn runs_view(rs: Seq<Vec<WordTimestamp>>) -> Seq<Seq<WordView>> {
    rs.map_values(|r: Vec<WordTimestamp>| words_view(r@))
}

/// The segments made of each run.
pub open spec fn pieces_of(rs: Seq<Seq<WordView>>) -> Seq<SegmentView> {
    rs.map_values(|r: Seq<WordView>| piece_of(r))
}

/// The segment made of a non-empty run of words.
fn make_piece(ws: Vec<WordTimestamp>) -> (r: AsrSegment)
    requires
        ws.len() > 0,
    ensures
        r@ == piece_of(words_view(ws@)),
{
    let text = join_words(&ws);
    let start = ws[0].start;
    let end = ws[ws.len() - 1].end;
    AsrSegment { text, start, end, words: ws, chunk_start: None, speaker: None }
}

/// Appends the segment made of each run to `out`.
fn push_pieces(runs: Vec<Vec<WordTimestamp>>, out: &mut Vec<AsrSegment>)
    requires
        forall|k: int| 0 <= k < runs.len() ==> (#[trigger] runs@[k]).len() > 0,
    ensures
        segs_view(final(out)@) == segs_view(old(out)@) + pieces_of(runs_view(runs@)),
{
    let ghost input = runs@;
    let ghost base = segs_view(out@);
    for run in it: runs
        invariant
            it.seq() == input,
            forall|k: int| 0 <= k < input.len() ==> (#[trigger] input[k]).len() > 0,
            segs_view(out@) == base + pieces_of(runs_view(input.take(it.index() as int))),
    {
        let ghost idx = it.index() as int;
        assert(pieces_of(runs_view(input.take(idx + 1))) =~= pieces_of(
            runs_view(input.take(idx)),
        ).push(piece_of(words_view(run@))));
        assert(input[idx] == run);
        let piece = make_piece(run);
        proof {
            lemma_segs_view_push(out@, piece);
        }
        out.push(piece);
    }
    assert(input.take(input.len() as int) =~= input);
}

/// Appends copies of all words of `seg` to `out`.
fn append_word_copies(seg: &AsrSegment, out: &mut Vec<WordTimestamp>)
    ensures
        words_view(final(out)@) == words_view(old(out)@) + seg@.words,
{
    let ghost base = words_view(out@);
    let mut j: usize = 0;
    while j < seg.words.len()
        invariant
            j <= seg.words.len(),
            words_view(out@) == base + words_view(seg.words@.take(j as int)),
        decreases seg.words.len() - j,
    {
        let ghost old_out = out@;
        out.push(seg.words[j].duplicate());
        proof {
            lemma_words_view_push(old_out, seg.words@[j as int]);
            assert(words_view(seg.words@.take(j + 1)) =~= words_view(seg.words@.take(j as int)).push(
                seg.words@[j as int]@,
            ));
        }
        j = j + 1;
    }
    assert(seg.words@.take(seg.words.len() as int) =~= seg.words@);
}

// ---------------------------------------------------------------------------
// Gap grouping (word-level recognizers)
// ---------------------------------------------------------------------------

/// The segment made of a non-empty group of segments.
pub open spec fn flush_group_spec(g: Seq<SegmentView>) -> SegmentView {
    let ws = all_words(g);
    SegmentView {
        text: joined_text(ws),
        start: g[0].start,
        end: g.last().end,
        words: ws,
        chunk_start: None,
        speaker: None,
    }
}

/// A non-empty sequence of segments split into groups: a new group starts
/// wherever the gap from the previous segment's end exceeds `max_gap`.
pub open spec fn gap_groups(s: Seq<SegmentView>, max_gap: int) -> Seq<Seq<SegmentView>>
    decreases s.len(),
{
    if s.len() <= 1 {
        seq![s]
    } else {
        let g = gap_groups(s.drop_last(), max_gap);
        if s.last().start - s[s.len() - 2].end <= max_gap {
            g.drop_last().push(g.last().push(s.last()))
        } else {
            g.push(seq![s.last()])
        }
    }
}

/// What `group_segments_by_gap` returns.
pub open spec fn group_by_gap(segs: Seq<SegmentView>, max_gap: int) -> Seq<SegmentView> {
    if segs.len() == 0 {
        Seq::empty()
    } else {
        gap_groups(sort_by_start(segs), max_gap).map_values(|g: Seq<SegmentView>| flush_group_spec(g))
    }
}

pub proof fn lemma_gap_groups_shape(s: Seq<SegmentView>, max_gap: int)
    requires
        s.len() > 0,
    ensures
        gap_groups(s, max_gap).len() > 0,
        gap_groups(s, max_gap).last().len() > 0,
        gap_groups(s, max_gap).last().last() == s.last(),
        forall|k: int|
            0 <= k < gap_groups(s, max_gap).len() ==> (#[trigger] gap_groups(s, max_gap)[k]).len()
                > 0,
    decreases s.len(),
{
    if s.len() > 1 {
        lemma_gap_groups_shape(s.drop_last(), max_gap);
    }
}

/// The segment made of a non-empty group of segments.
fn flush_group(group: &Vec<AsrSegment>) -> (r: AsrSegment)
    requires
        group.len() > 0,
    ensures
        r@ == flush_group_spec(segs_view(group@)),
{
    let mut all: Vec<WordTimestamp> = Vec::new();
    let mut i: usize = 0;
    while i < group.len()
        invariant
            i <= group.len(),
            words_view(all@) == all_words(segs_view(group@.take(i as int))),
        decreases group.len() - i,
    {
        append_word_copies(&group[i], &mut all);
        assert(segs_view(group@.take(i + 1)).drop_last() =~= segs_view(group@.take(i as int)));
        i = i + 1;
    }
    assert(group@.take(group.len() as int) =~= group@);
    let text = join_words(&all);
    AsrSegment {
        text,
        start: group[0].start,
        end: group[group.len() - 1].end,
        words: all,
        chunk_start: None,
        speaker: None,
    }
}

/// Word-level output: rejoin adjacent segments (sorted by start) whose gap
/// is at most `max_gap_seconds` (in microseconds) into one segment.
pub fn group_segments_by_gap(segments: Vec<AsrSegment>, max_gap_seconds: i64) -> (r: Vec<
    AsrSegment,
>)
    ensures
        segs_view(r@) == group_by_gap(segs_view(segments@), max_gap_seconds as int),
{
    if segments.len() == 0 {
        return Vec::new();
    }
    let ghost sv = segs_view(segments@);
    let sorted = sort_segments_by_start(segments);
    proof {
        lemma_sort_by_start(sv);
    }
    let ghost ss = segs_view(sorted@);
    let ghost mg = max_gap_seconds as int;
    let mut result: Vec<AsrSegment> = Vec::new();
    let mut current: Vec<AsrSegment> = Vec::new();
    current.push(sorted[0].duplicate());
    assert(segs_view(current@) =~= seq![ss[0]]);
    assert(ss.take(1) =~= seq![ss[0]]);
    let mut i: usize = 1;
    while i < sorted.len()
        invariant
            1 <= i <= sorted.len(),
            ss == segs_view(sorted@),
            mg == max_gap_seconds as int,
            segs_view(result@) == gap_groups(ss.take(i as int), mg).drop_last().map_values(
                |g: Seq<SegmentView>| flush_group_spec(g),
            ),
            segs_view(current@) == gap_groups(ss.take(i as int), mg).last(),
        decreases sorted.len() - i,
    {
        let ghost pre = ss.take(i as int);
        let ghost post = ss.take(i + 1);
        let ghost g = gap_groups(pre, mg);
        assert(post.drop_last() =~= pre);
        assert(post.last() == ss[i as int]);
        assert(post[post.len() - 2] == ss[i - 1]);
        assert(ss[i as int] == sorted@[i as int]@);
        assert(ss[i - 1] == sorted@[i - 1]@);
        proof {
            lemma_gap_groups_shape(pre, mg);
        }
        let gap: i128 = (sorted[i].start as i128) - (sorted[i - 1].end as i128);
        if gap <= max_gap_seconds as i128 {
            let d = sorted[i].duplicate();
            proof {
                lemma_segs_view_push(current@, d);
            }
            current.push(d);
            assert(gap_groups(post, mg) == g.drop_last().push(g.last().push(ss[i as int])));
            assert(gap_groups(post, mg).drop_last() =~= g.drop_last());
        } else {
            let flushed = flush_group(&current);
            proof {
                lemma_segs_view_push(result@, flushed);
            }
            result.push(flushed);
            current = Vec::new();
            let d = sorted[i].duplicate();
            current.push(d);
            assert(segs_view(current@) =~= seq![ss[i as int]]);
            assert(gap_groups(post, mg) == g.push(seq![ss[i as int]]));
            assert(gap_groups(post, mg).drop_last() =~= g);
            assert(g =~= g.drop_last().push(g.last()));
            assert(g.map_values(|x: Seq<SegmentView>| flush_group_spec(x)) =~= g.drop_last().map_values(
                |x: Seq<SegmentView>| flush_group_spec(x),
            ).push(flush_group_spec(g.last())));
        }
        i = i + 1;
    }
    assert(ss.take(sorted.len() as int) =~= ss);
    proof {
        lemma_gap_groups_shape(ss, mg);
    }
    let flushed = flush_group(&current);
    proof {
        lemma_segs_view_push(result@, flushed);
        let g = gap_groups(ss, mg);
        assert(g =~= g.drop_last().push(g.last()));
        assert(g.map_values(|x: Seq<SegmentView>| flush_group_spec(x)) =~= g.drop_last().map_values(
            |x: Seq<SegmentView>| flush_group_spec(x),
        ).push(flush_group_spec(g.last())));
    }
    result.push(flushed);
    result
}

// ---------------------------------------------------------------------------
// Gap splitting (sentence-level recognizers)
// ---------------------------------------------------------------------------

/// A word list cut into runs wherever the gap from one word's end to the
/// next word's start exceeds `max_gap`.
pub open spec fn word_runs(ws: Seq<WordView>, max_gap: int) -> Seq<Seq<WordView>>
    decreases ws.len(),
{
    if ws.len() <= 1 {
        seq![ws]
    } else {
        let r = word_runs(ws.drop_last(), max_gap);
        if ws.last().start - ws[ws.len() - 2].end > max_gap {
            r.push(seq![ws.last()])
        } else {
            r.drop_last().push(r.last().push(ws.last()))
        }
    }
}

/// One segment split at its large word gaps; kept whole when it has at
/// most one word or no such gap.
pub open spec fn split_on_word_gaps(seg: SegmentView, max_gap: int) -> Seq<SegmentView> {
    if seg.words.len() <= 1 || word_runs(seg.words, max_gap).len() == 1 {
        seq![seg]
    } else {
        pieces_of(word_runs(seg.words, max_gap))
    }
}

/// What `split_segments_by_word_gap` returns.
pub open spec fn split_all_on_word_gaps(segs: Seq<SegmentView>, max_gap: int) -> Seq<SegmentView>
    decreases segs.len(),
{
    if segs.len() == 0 {
        Seq::empty()
    } else {
        split_all_on_word_gaps(segs.drop_last(), max_gap) + split_on_word_gaps(
            segs.last(),
            max_gap,
        )
    }
}

pub proof fn lemma_word_runs_shape(ws: Seq<WordView>, max_gap: int)
    requires
        ws.len() > 0,
    ensures
        word_runs(ws, max_gap).len() > 0,
        word_runs(ws, max_gap).last().len() > 0,
        word_runs(ws, max_gap).last().last() == ws.last(),
        forall|k: int|
            0 <= k < word_runs(ws, max_gap).len() ==> (#[trigger] word_runs(ws, max_gap)[k]).len()
                > 0,
    decreases ws.len(),
{
    if ws.len() > 1 {
        lemma_word_runs_shape(ws.drop_last(), max_gap);
    }
}

/// Appends `seg`, split at its large word gaps, to `out`.
fn split_one_on_word_gaps(segment: AsrSegment, max_gap: i64, out: &mut Vec<AsrSegment>)
    ensures
        segs_view(final(out)@) == segs_view(old(out)@) + split_on_word_gaps(
            segment@,
            max_gap as int,
        ),
{
    let ghost mg = max_gap as int;
    let ghost wv = segment@.words;
    let n = segment.words.len();
    if n <= 1 {
        proof {
            lemma_segs_view_push(out@, segment);
        }
        out.push(segment);
        return ;
    }
    let mut runs: Vec<Vec<WordTimestamp>> = Vec::new();
    let mut cur: Vec<WordTimestamp> = Vec::new();
    cur.push(segment.words[0].duplicate());
    assert(words_view(cur@) =~= seq![wv[0]]);
    assert(wv.take(1) =~= seq![wv[0]]);
    let mut i: usize = 1;
    while i < n
        invariant
            1 <= i <= n,
            n == segment.words.len(),
            wv == segment@.words,
            mg == max_gap as int,
            runs_view(runs@) == word_runs(wv.take(i as int), mg).drop_last(),
            words_view(cur@) == word_runs(wv.take(i as int), mg).last(),
        decreases n - i,
    {
        let ghost pre = wv.take(i as int);
        let ghost post = wv.take(i + 1);
        let ghost r = word_runs(pre, mg);
        assert(post.drop_last() =~= pre);
        assert(post.last() == wv[i as int]);
        assert(post[post.len() - 2] == wv[i - 1]);
        assert(wv[i as int] == segment.words@[i as int]@);
        assert(wv[i - 1] == segment.words@[i - 1]@);
        proof {
            lemma_word_runs_shape(pre, mg);
        }
        let gap: i128 = (segment.words[i].start as i128) - (segment.words[i - 1].end as i128);
        let w = segment.words[i].duplicate();
        if gap > max_gap as i128 {
            let ghost old_runs = runs@;
            let finished = cur;
            runs.push(finished);
            assert(runs_view(runs@) =~= runs_view(old_runs).push(words_view(finished@)));
            cur = Vec::new();
            cur.push(w);
            assert(words_view(cur@) =~= seq![wv[i as int]]);
            assert(word_runs(post, mg) == r.push(seq![wv[i as int]]));
            assert(word_runs(post, mg).drop_last() =~= r);
            assert(r =~= r.drop_last().push(r.last()));
        } else {
            proof {
                lemma_words_view_push(cur@, w);
            }
            cur.push(w);
            assert(word_runs(post, mg) == r.drop_last().push(r.last().push(wv[i as int])));
            assert(word_runs(post, mg).drop_last() =~= r.drop_last());
        }
        i = i + 1;
    }
    assert(wv.take(n as int) =~= wv);
    proof {
        lemma_word_runs_shape(wv, mg);
    }
    let ghost all_runs = word_runs(wv, mg);
    if runs.len() == 0 {
        assert(all_runs.len() == 1);
        proof {
            lemma_segs_view_push(out@, segment);
        }
        out.push(segment);
        return ;
    }
    let ghost old_runs = runs@;
    runs.push(cur);
    assert(runs_view(runs@) =~= runs_view(old_runs).push(all_runs.last()));
    assert(runs_view(runs@) =~= all_runs);
    assert forall|k: int| 0 <= k < runs.len() implies (#[trigger] runs@[k]).len() > 0 by {
        assert(runs_view(runs@)[k] == words_view(runs@[k]@));
    }
    push_pieces(runs, out);
}

/// Sentence-level output: split each segment wherever a word-to-word gap
/// exceeds `max_gap_seconds` (in microseconds).
pub fn split_segments_by_word_gap(segments: Vec<AsrSegment>, max_gap_seconds: i64) -> (r: Vec<
    AsrSegment,
>)
    ensures
        segs_view(r@) == split_all_on_word_gaps(segs_view(segments@), max_gap_seconds as int),
{
    let ghost input = segments@;
    let mut result: Vec<AsrSegment> = Vec::new();
    for segment in it: segments
        invariant
            it.seq() == input,
            segs_view(result@) == split_all_on_word_gaps(
                segs_view(input.take(it.index() as int)),
                max_gap_seconds as int,
            ),
    {
        let ghost idx = it.index() as int;
        assert(segs_view(input.take(idx + 1)).drop_last() =~= segs_view(input.take(idx)));
        assert(segs_view(input.take(idx + 1)).last() == segment@);
        split_one_on_word_gaps(segment, max_gap_seconds, &mut result);
    }
    assert(input.take(input.len() as int) =~= input);
    result
}

// ---------------------------------------------------------------------------
// Long-segment splitting
// ---------------------------------------------------------------------------

/// A word list cut greedily into runs: a word joins the current run while
/// its end stays within `max_duration` of the run's first start.
pub open spec fn long_runs(ws: Seq<WordView>, max_duration: int) -> Seq<Seq<WordView>>
    decreases ws.len(),
{
    if ws.len() == 0 {
        Seq::empty()
    } else {
        let r = long_runs(ws.drop_last(), max_duration);
        if r.len() == 0 {
            seq![seq![ws.last()]]
        } else if ws.last().end - r.last()[0].start > max_duration {
            r.push(seq![ws.last()])
        } else {
            r.drop_last().push(r.last().push(ws.last()))
        }
    }
}

/// One segment split greedily when it lasts longer than `max_duration`
/// and has more than one word; kept whole otherwise.
pub open spec fn split_if_long(seg: SegmentView, max_duration: int) -> Seq<SegmentView> {
    if seg.end - seg.start <= max_duration || seg.words.len() <= 1 {
        seq![seg]
    } else {
        pieces_of(long_runs(seg.words, max_duration))
    }
}

/// What `split_long_segments` returns.
pub open spec fn split_all_long(segs: Seq<SegmentView>, max_duration: int) -> Seq<SegmentView>
    decreases segs.len(),
{
    if segs.len() == 0 {
        Seq::empty()
    } else {
        split_all_long(segs.drop_last(), max_duration) + split_if_long(segs.last(), max_duration)
    }
}

pub proof fn lemma_long_runs_shape(ws: Seq<WordView>, max_duration: int)
    ensures
        long_runs(ws, max_duration).len() == 0 <==> ws.len() == 0,
        ws.len() > 0 ==> long_runs(ws, max_duration).last().last() == ws.last(),
        forall|k: int|
            0 <= k < long_runs(ws, max_duration).len() ==> (#[trigger] long_runs(
                ws,
                max_duration,
            )[k]).len() > 0,
    decreases ws.len(),
{
    if ws.len() > 0 {
        lemma_long_runs_shape(ws.drop_last(), max_duration);
    }
}

/// Appends `seg`, split greedily if it is too long, to `out`.
fn split_one_if_long(segment: AsrSegment, max_duration: i64, out: &mut Vec<AsrSegment>)
    ensures
        segs_view(final(out)@) == segs_view(old(out)@) + split_if_long(
            segment@,
            max_duration as int,
        ),
{
    let ghost md = max_duration as int;
    let ghost wv = segment@.words;
    let duration: i128 = (segment.end as i128) - (segment.start as i128);
    let n = segment.words.len();
    if duration <= max_duration as i128 || n <= 1 {
        proof {
            lemma_segs_view_push(out@, segment);
        }
        out.push(segment);
        return ;
    }
    let mut runs: Vec<Vec<WordTimestamp>> = Vec::new();
    let mut cur: Vec<WordTimestamp> = Vec::new();
    let mut i: usize = 0;
    while i < n
        invariant
            i <= n,
            n == segment.words.len(),
            wv == segment@.words,
            md == max_duration as int,
            i == 0 ==> runs@.len() == 0 && cur@.len() == 0,
            i > 0 ==> runs_view(runs@) == long_runs(wv.take(i as int), md).drop_last(),
            i > 0 ==> words_view(cur@) == long_runs(wv.take(i as int), md).last(),
            i > 0 ==> cur@.len() > 0,
        decreases n - i,
    {
        let ghost pre = wv.take(i as int);
        let ghost post = wv.take(i + 1);
        let ghost r = long_runs(pre, md);
        assert(post.drop_last() =~= pre);
        assert(post.last() == wv[i as int]);
        assert(wv[i as int] == segment.words@[i as int]@);
        proof {
            lemma_long_runs_shape(pre, md);
        }
        let w = segment.words[i].duplicate();
        if cur.len() > 0 {
            assert(words_view(cur@)[0] == cur@[0]@);
            let potential: i128 = (w.end as i128) - (cur[0].start as i128);
            if potential > max_duration as i128 {
                let ghost old_runs = runs@;
                let finished = cur;
                runs.push(finished);
                assert(runs_view(runs@) =~= runs_view(old_runs).push(words_view(finished@)));
                cur = Vec::new();
                cur.push(w);
                assert(words_view(cur@) =~= seq![wv[i as int]]);
                assert(long_runs(post, md) == r.push(seq![wv[i as int]]));
                assert(long_runs(post, md).drop_last() =~= r);
                assert(r =~= r.drop_last().push(r.last()));
            } else {
                proof {
                    lemma_words_view_push(cur@, w);
                }
                cur.push(w);
                assert(long_runs(post, md) == r.drop_last().push(r.last().push(wv[i as int])));
                assert(long_runs(post, md).drop_last() =~= r.drop_last());
            }
        } else {
            cur.push(w);
            assert(pre.len() == 0);
            assert(words_view(cur@) =~= seq![wv[i as int]]);
            assert(long_runs(post, md) == seq![seq![wv[i as int]]]);
            assert(runs_view(runs@) =~= long_runs(post, md).drop_last());
        }
        i = i + 1;
    }
    assert(wv.take(n as int) =~= wv);
    proof {
        lemma_long_runs_shape(wv, md);
    }
    let ghost all_runs = long_runs(wv, md);
    let ghost old_runs = runs@;
    runs.push(cur);
    assert(runs_view(runs@) =~= runs_view(old_runs).push(all_runs.last()));
    assert(all_runs =~= all_runs.drop_last().push(all_runs.last()));
    assert(runs_view(runs@) =~= all_runs);
    assert forall|k: int| 0 <= k < runs.len() implies (#[trigger] runs@[k]).len() > 0 by {
        assert(runs_view(runs@)[k] == words_view(runs@[k]@));
    }
    push_pieces(runs, out);
}

/// Split greedily every segment longer than `max_duration_seconds` (in
/// microseconds): a cut falls before the first word whose end would take
/// the current piece past the limit.
pub fn split_long_segments(segments: Vec<AsrSegment>, max_duration_seconds: i64) -> (r: Vec<
    AsrSegment,
>)
    ensures
        segs_view(r@) == split_all_long(segs_view(segments@), max_duration_seconds as int),
{
    let ghost input = segments@;
    let mut result: Vec<AsrSegment> = Vec::new();
    for segment in it: segments
        invariant
            it.seq() == input,
            segs_view(result@) == split_all_long(
                segs_view(input.take(it.index() as int)),
                max_duration_seconds as int,
            ),
    {
        let ghost idx = it.index() as int;
        assert(segs_view(input.take(idx + 1)).drop_last() =~= segs_view(input.take(idx)));
        assert(segs_view(input.take(idx + 1)).last() == segment@);
        split_one_if_long(segment, max_duration_seconds, &mut result);
    }
    assert(input.take(input.len() as int) =~= input);
    result
}

// ---------------------------------------------------------------------------
// The whole pipeline
// ---------------------------------------------------------------------------

/// What `post_process_raw_asr_segments` returns.
pub open spec fn post_process_raw(
    segs: Seq<SegmentView>,
    overlap: int,
    max_gap: int,
    max_duration: int,
    is_whisper: bool,
) -> Seq<SegmentView> {
    let merged = resolve_overlaps(segs, overlap);
    let regrouped = if is_whisper {
        group_by_gap(merged, max_gap)
    } else {
        split_all_on_word_gaps(merged, max_gap)
    };
    split_all_long(regrouped, max_duration)
}

/// Full pipeline: overlap merge, then gap grouping (word-level recognizer)
/// or gap splitting (sentence-level recognizer), then long-segment split.
pub fn post_process_raw_asr_segments(
    segments: Vec<AsrSegment>,
    chunk_size: i64,
    overlap: i64,
    max_intra_segment_gap_seconds: i64,
    max_segment_duration_seconds: i64,
    is_whisper: bool,
) -> (r: Vec<AsrSegment>)
    ensures
        segs_view(r@) == post_process_raw(
            segs_view(segments@),
            overlap as int,
            max_intra_segment_gap_seconds as int,
            max_segment_duration_seconds as int,
            is_whisper,
        ),
{
    let s = resolve_overlap_conflicts(segments, chunk_size, overlap);
    let s = if is_whisper {
        group_segments_by_gap(s, max_intra_segment_gap_seconds)
    } else {
        split_segments_by_word_gap(s, max_intra_segment_gap_seconds)
    };
    split_long_segments(s, max_segment_duration_seconds)
}

/// The full pipeline, then conversion to transcript segments (with no
/// model name).
pub fn post_process_asr_segments(
    segments: Vec<AsrSegment>,
    chunk_size: i64,
    overlap: i64,
    gap_threshold: i64,
    max_duration: i64,
    is_whisper: bool,
) -> (r: Vec<TranscriptSegment>)
    ensures
        transcripts_view(r@) == to_transcripts(
            post_process_raw(
                segs_view(segments@),
                overlap as int,
                gap_threshold as int,
                max_duration as int,
                is_whisper,
            ),
            None,
        ),
{
    let asr = post_process_raw_asr_segments(
        segments,
        chunk_size,
        overlap,
        gap_threshold,
        max_duration,
        is_whisper,
    );
    asr_segments_to_transcript_segments(asr, None)
}

} // verus!
