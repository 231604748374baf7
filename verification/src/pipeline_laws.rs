//! Properties that hold of every output of the post-processing stages.
use vstd::prelude::*;
use crate::schema::{SegmentView, WordView};
use crate::pipeline::{
    all_words, flatten_runs, flush_group_spec, gap_groups, group_by_gap, lemma_gap_groups_shape,
    lemma_long_runs_shape, lemma_sort_by_start, lemma_word_runs_shape, long_runs, max_int,
    min_int, overlap_fold, piece_of, pieces_of, resolve_overlaps, sort_by_start,
    split_all_long, split_all_on_word_gaps, split_if_long, split_on_word_gaps, starts_sorted,
    word_runs, zip_overlapping, post_process_raw, words_before, words_from,
};

verus! {

/// Each segment ends no later than the next one starts.
pub open spec fn chain_disjoint(s: Seq<SegmentView>) -> bool {
    forall|i: int, j: int| 0 <= i && j == i + 1 && j < s.len() ==> #[trigger] s[i].end <= #[trigger] s[j].start
}

/// Between consecutive segments the gap exceeds `max_gap`.
pub open spec fn gaps_exceed(s: Seq<SegmentView>, max_gap: int) -> bool {
    forall|i: int, j: int| 0 <= i && j == i + 1 && j < s.len() ==> #[trigger] s[j].start - #[trigger] s[i].end > max_gap
}

/// Between consecutive words the gap is at most `max_gap`.
pub open spec fn word_gaps_within(ws: Seq<WordView>, max_gap: int) -> bool {
    forall|i: int, j: int| 0 <= i && j == i + 1 && j < ws.len() ==> #[trigger] ws[j].start - #[trigger] ws[i].end <= max_gap
}

/// A segment lasts at most `max_duration`, or has at most one word.
pub open spec fn short_or_single(seg: SegmentView, max_duration: int) -> bool {
    seg.end - seg.start <= max_duration || seg.words.len() <= 1
}

proof fn lemma_zip_start(a: SegmentView, b: SegmentView, overlap: int)
    ensures
        zip_overlapping(a, b, overlap).start == min_int(a.start, b.start),
        zip_overlapping(a, b, overlap).end == max_int(a.end, b.end),
{
}

proof fn lemma_overlap_fold_disjoint(s: Seq<SegmentView>, overlap: int)
    requires
        starts_sorted(s),
    ensures
        chain_disjoint(overlap_fold(s, overlap)),
        s.len() == 0 <==> overlap_fold(s, overlap).len() == 0,
        s.len() > 0 ==> overlap_fold(s, overlap).last().start <= s.last().start,
    decreases s.len(),
{
    if s.len() > 0 {
        let d = s.drop_last();
        assert(starts_sorted(d));
        lemma_overlap_fold_disjoint(d, overlap);
        let r = overlap_fold(d, overlap);
        let x = s.last();
        if d.len() > 0 {
            assert(d.last() == s[s.len() - 2]);
            assert(s[s.len() - 2].start <= x.start);
        }
        if r.len() == 0 || r.last().end <= x.start {
            let r2 = r.push(x);
            assert forall|i: int, j: int| 0 <= i && j == i + 1 && j < r2.len() implies #[trigger] r2[i].end
                <= #[trigger] r2[j].start by {
                if j < r.len() {
                    assert(r2[i] == r[i] && r2[j] == r[j]);
                }
            }
        } else {
            let m = zip_overlapping(r.last(), x, overlap);
            lemma_zip_start(r.last(), x, overlap);
            let r2 = r.drop_last().push(m);
            assert(m.start == r.last().start);
            assert forall|i: int, j: int| 0 <= i && j == i + 1 && j < r2.len() implies #[trigger] r2[i].end
                <= #[trigger] r2[j].start by {
                if j < r.len() - 1 {
                    assert(r2[i] == r[i] && r2[j] == r[j]);
                } else {
                    assert(r2[i] == r[i]);
                    assert(r[j] == r.last());
                }
            }
        }
    }
}

/// After the overlap merge, the segments are in order and no two overlap:
/// each ends no later than the next starts.
pub proof fn law_resolve_overlaps_disjoint(segs: Seq<SegmentView>, overlap: int)
    ensures
        chain_disjoint(resolve_overlaps(segs, overlap)),
{
    lemma_sort_by_start(segs);
    lemma_overlap_fold_disjoint(sort_by_start(segs), overlap);
}

pub proof fn lemma_all_words_add(a: Seq<SegmentView>, b: Seq<SegmentView>)
    ensures
        all_words(a + b) == all_words(a) + all_words(b),
    decreases b.len(),
{
    if b.len() == 0 {
        assert(a + b =~= a);
        assert(all_words(a) + all_words(b) =~= all_words(a));
    } else {
        lemma_all_words_add(a, b.drop_last());
        assert((a + b).drop_last() =~= a + b.drop_last());
        assert((a + b).last() == b.last());
        assert(all_words(a) + all_words(b) =~= all_words(a) + all_words(b.drop_last()) + b.last().words);
    }
}

proof fn lemma_all_words_single(x: SegmentView)
    ensures
        all_words(seq![x]) == x.words,
{
    assert(seq![x].drop_last() =~= Seq::<SegmentView>::empty());
    assert(all_words(Seq::<SegmentView>::empty()) == Seq::<WordView>::empty());
    assert(Seq::<WordView>::empty() + x.words =~= x.words);
}

proof fn lemma_group_words(s: Seq<SegmentView>, max_gap: int)
    requires
        s.len() > 0,
    ensures
        all_words(gap_groups(s, max_gap).map_values(|g: Seq<SegmentView>| flush_group_spec(g)))
            == all_words(s),
    decreases s.len(),
{
    let f = |g: Seq<SegmentView>| flush_group_spec(g);
    if s.len() <= 1 {
        let m = gap_groups(s, max_gap).map_values(f);
        assert(m =~= seq![flush_group_spec(s)]);
        lemma_all_words_single(flush_group_spec(s));
    } else {
        let d = s.drop_last();
        let x = s.last();
        lemma_group_words(d, max_gap);
        lemma_gap_groups_shape(d, max_gap);
        let g = gap_groups(d, max_gap);
        let m = g.map_values(f);
        assert(m.drop_last() =~= g.drop_last().map_values(f));
        assert(m.last() == flush_group_spec(g.last()));
        assert(all_words(s) == all_words(d) + x.words);
        if x.start - s[s.len() - 2].end <= max_gap {
            let g2 = g.drop_last().push(g.last().push(x));
            let m2 = g2.map_values(f);
            assert(m2 =~= g.drop_last().map_values(f).push(flush_group_spec(g.last().push(x))));
            assert(g.last().push(x).drop_last() =~= g.last());
            assert(all_words(g.last().push(x)) == all_words(g.last()) + x.words);
            assert(m2.drop_last() =~= m.drop_last());
            assert(m2.last() == flush_group_spec(g.last().push(x)));
            assert(all_words(m2) == all_words(m.drop_last()) + all_words(g.last().push(x)));
            assert(all_words(m) == all_words(m.drop_last()) + all_words(g.last()));
            assert(all_words(m2) =~= all_words(m) + x.words);
        } else {
            let g2 = g.push(seq![x]);
            let m2 = g2.map_values(f);
            assert(m2 =~= m.push(flush_group_spec(seq![x])));
            lemma_all_words_single(x);
            assert(m2.drop_last() =~= m);
            assert(m2.last() == flush_group_spec(seq![x]));
            assert(all_words(seq![x]) == x.words);
            assert(all_words(m2) == all_words(m) + all_words(seq![x]));
            assert(all_words(m2) =~= all_words(m) + x.words);
        }
    }
}

proof fn lemma_gap_groups_separated(s: Seq<SegmentView>, max_gap: int)
    requires
        s.len() > 0,
    ensures
        forall|i: int, j: int|
            0 <= i && j == i + 1 && j < gap_groups(s, max_gap).len() ==> #[trigger] gap_groups(
                s,
                max_gap,
            )[j][0].start - #[trigger] gap_groups(s, max_gap)[i].last().end > max_gap,
    decreases s.len(),
{
    lemma_gap_groups_shape(s, max_gap);
    if s.len() > 1 {
        let d = s.drop_last();
        let x = s.last();
        lemma_gap_groups_separated(d, max_gap);
        lemma_gap_groups_shape(d, max_gap);
        let g = gap_groups(d, max_gap);
        let g2 = gap_groups(s, max_gap);
        assert(g.last().last() == s[s.len() - 2]);
        if x.start - s[s.len() - 2].end <= max_gap {
            assert forall|i: int, j: int| 0 <= i && j == i + 1 && j < g2.len() implies #[trigger] g2[j][0].start
                - #[trigger] g2[i].last().end > max_gap by {
                assert(g2[i] == g[i]);
                if j < g.len() - 1 {
                    assert(g2[j] == g[j]);
                } else {
                    assert(g2[j] == g.last().push(x));
                    assert(g2[j][0] == g[j][0]);
                }
            }
        } else {
            assert forall|i: int, j: int| 0 <= i && j == i + 1 && j < g2.len() implies #[trigger] g2[j][0].start
                - #[trigger] g2[i].last().end > max_gap by {
                assert(g2[i] == g[i]);
                if j < g.len() {
                    assert(g2[j] == g[j]);
                }
            }
        }
    }
}

/// Gap grouping keeps every word, in start order, and leaves more than
/// `max_gap` between consecutive output segments.
pub proof fn law_group_by_gap(segs: Seq<SegmentView>, max_gap: int)
    ensures
        all_words(group_by_gap(segs, max_gap)) == all_words(sort_by_start(segs)),
        gaps_exceed(group_by_gap(segs, max_gap), max_gap),
{
    if segs.len() > 0 {
        lemma_sort_by_start(segs);
        let s = sort_by_start(segs);
        lemma_group_words(s, max_gap);
        lemma_gap_groups_separated(s, max_gap);
        lemma_gap_groups_shape(s, max_gap);
        let g = gap_groups(s, max_gap);
        let m = group_by_gap(segs, max_gap);
        assert forall|i: int, j: int| 0 <= i && j == i + 1 && j < m.len() implies #[trigger] m[j].start
            - #[trigger] m[i].end > max_gap by {
            assert(m[i] == flush_group_spec(g[i]));
            assert(m[j] == flush_group_spec(g[j]));
            assert(g[j][0].start - g[i].last().end > max_gap);
        }
    } else {
        assert(sort_by_start(segs) =~= segs);
    }
}

pub proof fn lemma_flatten_runs_add(a: Seq<Seq<WordView>>, b: Seq<Seq<WordView>>)
    ensures
        flatten_runs(a + b) == flatten_runs(a) + flatten_runs(b),
    decreases b.len(),
{
    if b.len() == 0 {
        assert(a + b =~= a);
        assert(flatten_runs(a) + flatten_runs(b) =~= flatten_runs(a));
    } else {
        lemma_flatten_runs_add(a, b.drop_last());
        assert((a + b).drop_last() =~= a + b.drop_last());
        assert(flatten_runs(a) + flatten_runs(b) =~= flatten_runs(a) + flatten_runs(b.drop_last()) + b.last());
    }
}

proof fn lemma_pieces_words(rs: Seq<Seq<WordView>>)
    ensures
        all_words(pieces_of(rs)) == flatten_runs(rs),
    decreases rs.len(),
{
    if rs.len() > 0 {
        lemma_pieces_words(rs.drop_last());
        assert(pieces_of(rs).drop_last() =~= pieces_of(rs.drop_last()));
    } else {
        assert(pieces_of(rs) =~= Seq::<SegmentView>::empty());
    }
}

proof fn lemma_word_runs_flatten(ws: Seq<WordView>, max_gap: int)
    ensures
        flatten_runs(word_runs(ws, max_gap)) == ws,
        forall|k: int|
            0 <= k < word_runs(ws, max_gap).len() ==> word_gaps_within(
                #[trigger] word_runs(ws, max_gap)[k],
                max_gap,
            ),
    decreases ws.len(),
{
    if ws.len() <= 1 {
        let r = word_runs(ws, max_gap);
        assert(r.drop_last() =~= Seq::<Seq<WordView>>::empty());
        assert(flatten_runs(Seq::<Seq<WordView>>::empty()) == Seq::<WordView>::empty());
        assert(flatten_runs(r) == flatten_runs(r.drop_last()) + r.last());
        assert(flatten_runs(r) =~= ws);
    } else {
        let d = ws.drop_last();
        let w = ws.last();
        lemma_word_runs_flatten(d, max_gap);
        lemma_word_runs_shape(d, max_gap);
        let r = word_runs(d, max_gap);
        let r2 = word_runs(ws, max_gap);
        assert(r.last().last() == ws[ws.len() - 2]);
        assert(flatten_runs(r) == flatten_runs(r.drop_last()) + r.last());
        if w.start - ws[ws.len() - 2].end > max_gap {
            assert(r2.drop_last() =~= r);
            assert(flatten_runs(r2) == flatten_runs(r) + seq![w]);
            assert(flatten_runs(r2) =~= ws);
            assert forall|k: int| 0 <= k < r2.len() implies word_gaps_within(#[trigger] r2[k], max_gap) by {
                if k < r.len() {
                    assert(r2[k] == r[k]);
                } else {
                    assert(r2[k] =~= seq![w]);
                }
            }
        } else {
            assert(r2.drop_last() =~= r.drop_last());
            assert(flatten_runs(r2) == flatten_runs(r.drop_last()) + r.last().push(w));
            assert(ws =~= d.push(w));
            assert(flatten_runs(r.drop_last()) + r.last().push(w) =~= (flatten_runs(r.drop_last()) + r.last()).push(w));
            assert(flatten_runs(r2) =~= ws);
            assert forall|k: int| 0 <= k < r2.len() implies word_gaps_within(#[trigger] r2[k], max_gap) by {
                if k < r.len() - 1 {
                    assert(r2[k] == r[k]);
                } else {
                    let run = r.last().push(w);
                    assert(r2[k] == run);
                    assert(word_gaps_within(r[k], max_gap));
                    assert forall|i: int, j: int| 0 <= i && j == i + 1 && j < run.len() implies #[trigger] run[j].start
                        - #[trigger] run[i].end <= max_gap by {
                        if j < run.len() - 1 {
                            assert(run[i] == r.last()[i] && run[j] == r.last()[j]);
                        } else {
                            assert(run[i] == r.last().last());
                        }
                    }
                }
            }
        }
    }
}

/// Every segment of `s` has word gaps within `max_gap`.
pub open spec fn all_gaps_within(s: Seq<SegmentView>, max_gap: int) -> bool {
    forall|k: int| 0 <= k < s.len() ==> word_gaps_within(#[trigger] s[k].words, max_gap)
}

proof fn lemma_split_one(seg: SegmentView, max_gap: int)
    ensures
        all_words(split_on_word_gaps(seg, max_gap)) == seg.words,
        all_gaps_within(split_on_word_gaps(seg, max_gap), max_gap),
{
    lemma_word_runs_flatten(seg.words, max_gap);
    let r = word_runs(seg.words, max_gap);
    if seg.words.len() <= 1 || r.len() == 1 {
        lemma_all_words_single(seg);
        if r.len() == 1 {
            assert(r.drop_last() =~= Seq::<Seq<WordView>>::empty());
            assert(flatten_runs(Seq::<Seq<WordView>>::empty()) == Seq::<WordView>::empty());
            assert(flatten_runs(r) == flatten_runs(r.drop_last()) + r.last());
            assert(flatten_runs(r) =~= r[0]);
            assert(word_gaps_within(r[0], max_gap));
        }
        assert(split_on_word_gaps(seg, max_gap) == seq![seg]);
    } else {
        lemma_pieces_words(r);
        assert forall|k: int| 0 <= k < pieces_of(r).len() implies word_gaps_within(
            #[trigger] pieces_of(r)[k].words,
            max_gap,
        ) by {
            assert(pieces_of(r)[k] == piece_of(r[k]));
        }
    }
}

/// Gap splitting keeps every word, in order, and leaves no gap wider than
/// `max_gap` inside any output segment.
pub proof fn law_split_on_word_gaps(segs: Seq<SegmentView>, max_gap: int)
    ensures
        all_words(split_all_on_word_gaps(segs, max_gap)) == all_words(segs),
        all_gaps_within(split_all_on_word_gaps(segs, max_gap), max_gap),
    decreases segs.len(),
{
    if segs.len() > 0 {
        let d = segs.drop_last();
        law_split_on_word_gaps(d, max_gap);
        lemma_split_one(segs.last(), max_gap);
        let a = split_all_on_word_gaps(d, max_gap);
        let b = split_on_word_gaps(segs.last(), max_gap);
        lemma_all_words_add(a, b);
        assert forall|k: int| 0 <= k < (a + b).len() implies word_gaps_within(#[trigger] (a + b)[k].words, max_gap) by {
            if k < a.len() {
                assert((a + b)[k] == a[k]);
            } else {
                assert((a + b)[k] == b[k - a.len()]);
            }
        }
    }
}

proof fn lemma_long_runs(ws: Seq<WordView>, max_duration: int)
    ensures
        flatten_runs(long_runs(ws, max_duration)) == ws,
        forall|k: int|
            0 <= k < long_runs(ws, max_duration).len() ==> (#[trigger] long_runs(ws, max_duration)[k]).len()
                <= 1 || long_runs(ws, max_duration)[k].last().end - long_runs(ws, max_duration)[k][0].start
                <= max_duration,
    decreases ws.len(),
{
    if ws.len() == 0 {
        assert(flatten_runs(long_runs(ws, max_duration)) =~= ws);
    } else {
        let d = ws.drop_last();
        let w = ws.last();
        lemma_long_runs(d, max_duration);
        lemma_long_runs_shape(d, max_duration);
        let r = long_runs(d, max_duration);
        let r2 = long_runs(ws, max_duration);
        if r.len() == 0 {
            assert(d.len() == 0);
            assert(r2 =~= seq![seq![w]]);
            assert(r2.drop_last() =~= Seq::<Seq<WordView>>::empty());
            assert(flatten_runs(Seq::<Seq<WordView>>::empty()) == Seq::<WordView>::empty());
            assert(flatten_runs(r2) == flatten_runs(r2.drop_last()) + r2.last());
            assert(flatten_runs(r2) =~= ws);
        } else {
            assert(flatten_runs(r) == flatten_runs(r.drop_last()) + r.last());
            if w.end - r.last()[0].start > max_duration {
                assert(r2.drop_last() =~= r);
                assert(flatten_runs(r2) == flatten_runs(r) + seq![w]);
                assert(flatten_runs(r2) =~= ws);
                assert forall|k: int| 0 <= k < r2.len() implies (#[trigger] r2[k]).len() <= 1
                    || r2[k].last().end - r2[k][0].start <= max_duration by {
                    if k < r.len() {
                        assert(r2[k] == r[k]);
                    }
                }
            } else {
                assert(r2.drop_last() =~= r.drop_last());
                assert(flatten_runs(r2) == flatten_runs(r.drop_last()) + r.last().push(w));
                assert(ws =~= d.push(w));
                assert(flatten_runs(r.drop_last()) + r.last().push(w) =~= (flatten_runs(r.drop_last()) + r.last()).push(w));
                assert(flatten_runs(r2) =~= ws);
                assert forall|k: int| 0 <= k < r2.len() implies (#[trigger] r2[k]).len() <= 1
                    || r2[k].last().end - r2[k][0].start <= max_duration by {
                    if k < r.len() - 1 {
                        assert(r2[k] == r[k]);
                    } else {
                        assert(r2[k] == r.last().push(w));
                        assert(r.last().len() > 0);
                        assert(r2[k][0] == r.last()[0]);
                    }
                }
            }
        }
    }
}

/// Every segment of `s` is short or has at most one word.
pub open spec fn all_short_or_single(s: Seq<SegmentView>, max_duration: int) -> bool {
    forall|k: int| 0 <= k < s.len() ==> short_or_single(#[trigger] s[k], max_duration)
}

proof fn lemma_split_if_long(seg: SegmentView, max_duration: int)
    ensures
        all_words(split_if_long(seg, max_duration)) == seg.words,
        all_short_or_single(split_if_long(seg, max_duration), max_duration),
{
    if seg.end - seg.start <= max_duration || seg.words.len() <= 1 {
        lemma_all_words_single(seg);
    } else {
        let r = long_runs(seg.words, max_duration);
        lemma_long_runs(seg.words, max_duration);
        lemma_long_runs_shape(seg.words, max_duration);
        lemma_pieces_words(r);
        assert forall|k: int| 0 <= k < pieces_of(r).len() implies short_or_single(
            #[trigger] pieces_of(r)[k],
            max_duration,
        ) by {
            assert(pieces_of(r)[k] == piece_of(r[k]));
        }
    }
}

/// Long-segment splitting keeps every word, in order, and every output
/// segment lasts at most `max_duration` unless it is a single word.
pub proof fn law_split_long(segs: Seq<SegmentView>, max_duration: int)
    ensures
        all_words(split_all_long(segs, max_duration)) == all_words(segs),
        all_short_or_single(split_all_long(segs, max_duration), max_duration),
    decreases segs.len(),
{
    if segs.len() > 0 {
        let d = segs.drop_last();
        law_split_long(d, max_duration);
        lemma_split_if_long(segs.last(), max_duration);
        let a = split_all_long(d, max_duration);
        let b = split_if_long(segs.last(), max_duration);
        lemma_all_words_add(a, b);
        assert forall|k: int| 0 <= k < (a + b).len() implies short_or_single(#[trigger] (a + b)[k], max_duration) by {
            if k < a.len() {
                assert((a + b)[k] == a[k]);
            } else {
                assert((a + b)[k] == b[k - a.len()]);
            }
        }
    }
}

/// After the whole pipeline, every segment lasts at most `max_duration`
/// unless it is a single word; on the sentence-level path, no segment
/// keeps a word gap wider than `max_gap` and no word of the merged
/// segments is lost.
pub proof fn law_post_process(
    segs: Seq<SegmentView>,
    overlap: int,
    max_gap: int,
    max_duration: int,
    is_whisper: bool,
)
    ensures
        all_short_or_single(post_process_raw(segs, overlap, max_gap, max_duration, is_whisper), max_duration),
        all_words(post_process_raw(segs, overlap, max_gap, max_duration, is_whisper)) == all_words(
            if is_whisper {
                sort_by_start(resolve_overlaps(segs, overlap))
            } else {
                resolve_overlaps(segs, overlap)
            },
        ),
{
    let merged = resolve_overlaps(segs, overlap);
    let regrouped = if is_whisper {
        group_by_gap(merged, max_gap)
    } else {
        split_all_on_word_gaps(merged, max_gap)
    };
    law_split_long(regrouped, max_duration);
    if is_whisper {
        law_group_by_gap(merged, max_gap);
    } else {
        law_split_on_word_gaps(merged, max_gap);
    }
}


proof fn lemma_words_before_filter(ws: Seq<WordView>, t: int)
    ensures
        words_before(ws, t) == ws.filter(|w: WordView| 2 * w.start < t),
        words_from(ws, t) == ws.filter(|w: WordView| 2 * w.start >= t),
    decreases ws.len(),
{
    reveal(Seq::filter);
    if ws.len() > 0 {
        lemma_words_before_filter(ws.drop_last(), t);
    }
}

/// Merging two overlapping segments that both carry chunk starts keeps the
/// words of the earlier chunk that start before the middle of the overlap
/// window (which opens where the later chunk starts and lasts `overlap`),
/// followed by the words of the later chunk that start from that middle
/// on. So, for a non-negative overlap, no word of the earlier chunk that
/// starts before the later chunk begins is ever dropped.
pub proof fn law_zip_cut_at_overlap_middle(s1: SegmentView, s2: SegmentView, overlap: int)
    requires
        s1.chunk_start is Some,
        s2.chunk_start is Some,
    ensures
        ({
            let early = if s1.chunk_start->0 <= s2.chunk_start->0 {
                s1
            } else {
                s2
            };
            let late = if s1.chunk_start->0 <= s2.chunk_start->0 {
                s2
            } else {
                s1
            };
            let mid2 = 2 * late.chunk_start->0 + overlap;
            let r = zip_overlapping(s1, s2, overlap);
            &&& r.words == early.words.filter(|w: WordView| 2 * w.start < mid2) + late.words.filter(
                |w: WordView| 2 * w.start >= mid2,
            )
            &&& overlap >= 0 ==> forall|k: int|
                0 <= k < early.words.len() && early.words[k].start < late.chunk_start->0
                    ==> r.words.contains(#[trigger] early.words[k])
        }),
{
    let early = if s1.chunk_start->0 <= s2.chunk_start->0 { s1 } else { s2 };
    let late = if s1.chunk_start->0 <= s2.chunk_start->0 { s2 } else { s1 };
    let mid2 = 2 * late.chunk_start->0 + overlap;
    lemma_words_before_filter(early.words, mid2);
    lemma_words_before_filter(late.words, mid2);
    let r = zip_overlapping(s1, s2, overlap);
    let pred = |w: WordView| 2 * w.start < mid2;
    let kept = early.words.filter(pred);
    assert(r.words == kept + late.words.filter(|w: WordView| 2 * w.start >= mid2));
    if overlap >= 0 {
        assert forall|k: int|
            0 <= k < early.words.len() && early.words[k].start < late.chunk_start->0 implies r.words.contains(
            #[trigger] early.words[k],
        ) by {
            early.words.lemma_filter_contains(pred, k);
            let j = choose|j: int| 0 <= j < kept.len() && kept[j] == early.words[k];
            assert(r.words[j] == kept[j]);
        }
    }
}


/// Merging two overlapping segments spans from the earlier of their starts
/// to the later of their ends. When either lacks a chunk start, the cut
/// falls at the middle of the segments' own overlap (from the later
/// segment's start to the earlier one's end): the first segment's words
/// that start before it, then the second's from it on.
pub proof fn law_zip_span_and_fallback_cut(s1: SegmentView, s2: SegmentView, overlap: int)
    ensures
        zip_overlapping(s1, s2, overlap).start == (if s1.start <= s2.start {
            s1.start
        } else {
            s2.start
        }),
        zip_overlapping(s1, s2, overlap).end == (if s1.end >= s2.end {
            s1.end
        } else {
            s2.end
        }),
        s1.chunk_start is None || s2.chunk_start is None ==> zip_overlapping(s1, s2, overlap).words
            == s1.words.filter(|w: WordView| 2 * w.start < s2.start + s1.end) + s2.words.filter(
            |w: WordView| 2 * w.start >= s2.start + s1.end,
        ),
{
    lemma_words_before_filter(s1.words, s2.start + s1.end);
    lemma_words_before_filter(s2.words, s2.start + s1.end);
    let r = zip_overlapping(s1, s2, overlap);
    if s1.chunk_start is Some && s2.chunk_start is Some && s1.chunk_start->0 > s2.chunk_start->0 {
        assert(r.start == min_int(s2.start, s1.start));
        assert(r.end == max_int(s2.end, s1.end));
    }
}

} // verus!
