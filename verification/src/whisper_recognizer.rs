//! The decisions around the Whisper recognizer: grouping its sub-word
//! tokens into one-word segments, and where its model file comes from.
use vstd::prelude::*;
use vstd::string::*;
use crate::schema::{lemma_segs_view_push, segs_view, AsrSegment, SegmentView, WordTimestamp, WordView};
use crate::text::{chars_of, trim, trim_str};

verus! {

/// One decoded token: its text and its span in centiseconds from the start
/// of the chunk.
#[derive(Debug, Clone, PartialEq, Eq)]
pub struct WhisperToken {
    pub text: String,
    pub t0: i64,
    pub t1: i64,
}

/// A decoded token as a mathematical value.
pub struct WhisperTokenView {
    pub text: Seq<char>,
    pub t0: int,
    pub t1: int,
}

impl View for WhisperToken {
    type V = WhisperTokenView;

    open spec fn view(&self) -> WhisperTokenView {
        WhisperTokenView { text: self.text@, t0: self.t0 as int, t1: self.t1 as int }
    }
}

pub open spec fn whisper_tokens_view(ts: Seq<WhisperToken>) -> Seq<WhisperTokenView> {
    ts.map_values(|t: WhisperToken| t@)
}

pub open spec fn token_segments_view(ss: Seq<Vec<WhisperToken>>) -> Seq<Seq<WhisperTokenView>> {
    ss.map_values(|s: Vec<WhisperToken>| whisper_tokens_view(s@))
}

/// A special token: `<|...|>`-shaped, or `[_...]`-shaped.
pub open spec fn is_special_token(t: Seq<char>) -> bool {
    ||| (t.len() >= 1 && t[0] == '<' && t.last() == '>')
    ||| (t.len() >= 2 && t[0] == '[' && t[1] == '_' && t.last() == ']')
}

/// Microseconds of a centisecond time in a chunk starting at `chunk_start`.
pub open spec fn abs_time(chunk_start: int, cs: int) -> int {
    chunk_start + 10_000 * cs
}

/// The state of the grouping within one decoded segment.
pub struct WhisperState {
    pub out: Seq<SegmentView>,
    pub text: Seq<char>,
    pub start: int,
    pub end: int,
}

/// Emit the word being built as a one-word segment, unless it is blank.
pub open spec fn whisper_flush(out: Seq<SegmentView>, text: Seq<char>, start: int, end: int, chunk_start: int) -> Seq<SegmentView> {
    let t = trim(text);
    if t.len() == 0 {
        out
    } else {
        let s = abs_time(chunk_start, start);
        let e = abs_time(chunk_start, end);
        out.push(
            SegmentView {
                text: t,
                start: s,
                end: e,
                words: seq![WordView { word: t, start: s, end: e }],
                chunk_start: Some(chunk_start),
                speaker: None,
            },
        )
    }
}

pub open spec fn whisper_step(st: WhisperState, tok: WhisperTokenView, chunk_start: int) -> WhisperState {
    if is_special_token(tok.text) {
        st
    } else {
        let starts = (tok.text.len() > 0 && tok.text[0] == ' ') || st.text.len() == 0;
        let (out, text) = if starts && st.text.len() > 0 {
            (whisper_flush(st.out, st.text, st.start, st.end, chunk_start), Seq::<char>::empty())
        } else {
            (st.out, st.text)
        };
        let start = if text.len() == 0 {
            tok.t0
        } else {
            st.start
        };
        WhisperState { out, text: text + tok.text, start, end: tok.t1 }
    }
}

pub open spec fn whisper_fold(base: Seq<SegmentView>, ts: Seq<WhisperTokenView>, chunk_start: int) -> WhisperState
    decreases ts.len(),
{
    if ts.len() == 0 {
        WhisperState { out: base, text: Seq::empty(), start: 0, end: 0 }
    } else {
        whisper_step(whisper_fold(base, ts.drop_last(), chunk_start), ts.last(), chunk_start)
    }
}

/// The output after one decoded segment's tokens, appended to `base`.
pub open spec fn whisper_segment_words(base: Seq<SegmentView>, ts: Seq<WhisperTokenView>, chunk_start: int) -> Seq<SegmentView> {
    let st = whisper_fold(base, ts, chunk_start);
    if st.text.len() > 0 {
        whisper_flush(st.out, st.text, st.start, st.end, chunk_start)
    } else {
        st.out
    }
}

/// What `whisper_tokens_to_segments` returns.
pub open spec fn whisper_words(segments: Seq<Seq<WhisperTokenView>>, chunk_start: int) -> Seq<SegmentView>
    decreases segments.len(),
{
    if segments.len() == 0 {
        Seq::empty()
    } else {
        whisper_segment_words(whisper_words(segments.drop_last(), chunk_start), segments.last(), chunk_start)
    }
}

/// Every token time, as microseconds from the start of the audio, fits in
/// an `i64`.
pub open spec fn whisper_times_fit_spec(segments: Seq<Seq<WhisperTokenView>>, chunk_start: int) -> bool {
    forall|i: int, j: int|
        0 <= i < segments.len() && 0 <= j < segments[i].len() ==> {
            &&& i64::MIN <= abs_time(chunk_start, (#[trigger] segments[i][j]).t0) <= i64::MAX
            &&& i64::MIN <= abs_time(chunk_start, segments[i][j].t1) <= i64::MAX
        }
}

fn abs_time_exec(chunk_start: i64, cs: i64) -> (r: Option<i64>)
    ensures
        r matches Some(v) ==> v as int == abs_time(chunk_start as int, cs as int),
        r is None <==> !(i64::MIN <= abs_time(chunk_start as int, cs as int) <= i64::MAX),
{
    let t: i128 = (chunk_start as i128) + 10_000 * (cs as i128);
    if t < i64::MIN as i128 || t > i64::MAX as i128 {
        None
    } else {
        Some(t as i64)
    }
}

/// The sample rate that whisper.cpp decodes (16 kHz).
pub const WHISPER_SAMPLE_RATE: u32 = 16000;

/// Whether audio at `rate` Hz can be handed to whisper.cpp, which decodes
/// 16 kHz mono samples only.
pub fn whisper_sample_rate_ok(rate: u32) -> (b: bool)
    ensures
        b == (rate == 16000),
{
    rate == WHISPER_SAMPLE_RATE
}

/// Whether every token time of `segments`, offset by `chunk_start`, fits
/// in an `i64`.
pub fn whisper_times_fit(segments: &Vec<Vec<WhisperToken>>, chunk_start: i64) -> (b: bool)
    ensures
        b == whisper_times_fit_spec(token_segments_view(segments@), chunk_start as int),
{
    let ghost sv = token_segments_view(segments@);
    let mut i: usize = 0;
    while i < segments.len()
        invariant
            i <= segments.len(),
            sv == token_segments_view(segments@),
            forall|a: int, b: int|
                0 <= a < i && 0 <= b < sv[a].len() ==> {
                    &&& i64::MIN <= abs_time(chunk_start as int, (#[trigger] sv[a][b]).t0)
                        <= i64::MAX
                    &&& i64::MIN <= abs_time(chunk_start as int, sv[a][b].t1) <= i64::MAX
                },
        decreases segments.len() - i,
    {
        let toks = &segments[i];
        assert(sv[i as int] == whisper_tokens_view(toks@));
        let mut j: usize = 0;
        while j < toks.len()
            invariant
                j <= toks.len(),
                i < segments.len(),
                toks == &segments@[i as int],
                sv == token_segments_view(segments@),
                sv[i as int] == whisper_tokens_view(toks@),
                forall|a: int, b: int|
                    0 <= a < i && 0 <= b < sv[a].len() ==> {
                        &&& i64::MIN <= abs_time(chunk_start as int, (#[trigger] sv[a][b]).t0)
                            <= i64::MAX
                        &&& i64::MIN <= abs_time(chunk_start as int, sv[a][b].t1) <= i64::MAX
                    },
                forall|b: int|
                    0 <= b < j ==> {
                        &&& i64::MIN <= abs_time(chunk_start as int, (#[trigger] sv[i as int][b]).t0)
                            <= i64::MAX
                        &&& i64::MIN <= abs_time(chunk_start as int, sv[i as int][b].t1)
                            <= i64::MAX
                    },
            decreases toks.len() - j,
        {
            assert(sv[i as int][j as int] == toks@[j as int]@);
            if abs_time_exec(chunk_start, toks[j].t0).is_none() || abs_time_exec(chunk_start, toks[j].t1).is_none() {
                return false;
            }
            j = j + 1;
        }
        i = i + 1;
    }
    true
}

fn is_special_token_exec(t: &str) -> (b: bool)
    ensures
        b == is_special_token(t@),
{
    let v = chars_of(t);
    let n = v.len();
    (n >= 1 && v[0] == '<' && v[n - 1] == '>') || (n >= 2 && v[0] == '[' && v[1] == '_' && v[n - 1] == ']')
}

fn flush_whisper_word(out: &mut Vec<AsrSegment>, text: &String, start_cs: i64, end_cs: i64, chunk_start: i64)
    requires
        i64::MIN <= abs_time(chunk_start as int, start_cs as int) <= i64::MAX,
        i64::MIN <= abs_time(chunk_start as int, end_cs as int) <= i64::MAX,
    ensures
        segs_view(final(out)@) == whisper_flush(segs_view(old(out)@), text@, start_cs as int, end_cs as int, chunk_start as int),
{
    let trimmed = trim_str(text.as_str());
    if trimmed.unicode_len() == 0 {
        return ;
    }
    let s = abs_time_exec(chunk_start, start_cs).unwrap();
    let e = abs_time_exec(chunk_start, end_cs).unwrap();
    let w = WordTimestamp { word: trimmed.clone(), start: s, end: e };
    let mut words: Vec<WordTimestamp> = Vec::new();
    words.push(w);
    let seg = AsrSegment { text: trimmed, start: s, end: e, words, chunk_start: Some(chunk_start), speaker: None };
    assert(seg@.words =~= seq![w@]);
    proof {
        lemma_segs_view_push(out@, seg);
    }
    out.push(seg);
}

/// Group the decoded tokens of one chunk into one-word segments, segment
/// by segment: special tokens are skipped, a token starting with a space
/// starts a new word, and each word's span runs from its first token's
/// start to its last token's end, offset by `chunk_start` (microseconds).
pub fn whisper_tokens_to_segments(segments: &Vec<Vec<WhisperToken>>, chunk_start: i64) -> (r: Vec<AsrSegment>)
    requires
        whisper_times_fit_spec(token_segments_view(segments@), chunk_start as int),
    ensures
        segs_view(r@) == whisper_words(token_segments_view(segments@), chunk_start as int),
{
    let ghost sv = token_segments_view(segments@);
    let ghost cs = chunk_start as int;
    let mut out: Vec<AsrSegment> = Vec::new();
    let mut i: usize = 0;
    while i < segments.len()
        invariant
            i <= segments.len(),
            sv == token_segments_view(segments@),
            cs == chunk_start as int,
            whisper_times_fit_spec(sv, cs),
            segs_view(out@) == whisper_words(sv.take(i as int), cs),
        decreases segments.len() - i,
    {
        assert(sv.take(i + 1).drop_last() =~= sv.take(i as int));
        assert(sv.take(i + 1).last() == sv[i as int]);
        let toks = &segments[i];
        let ghost tv = whisper_tokens_view(toks@);
        assert(sv[i as int] == tv);
        let ghost base = segs_view(out@);
        let mut text = String::new();
        let mut start: i64 = 0;
        let mut end: i64 = 0;
        let mut j: usize = 0;
        assert(tv.take(0) =~= Seq::<WhisperTokenView>::empty());
        while j < toks.len()
            invariant
                j <= toks.len(),
                i < segments.len(),
                toks == &segments@[i as int],
                sv == token_segments_view(segments@),
                tv == whisper_tokens_view(toks@),
                sv[i as int] == tv,
                cs == chunk_start as int,
                whisper_times_fit_spec(sv, cs),
                segs_view(out@) == whisper_fold(base, tv.take(j as int), cs).out,
                text@ == whisper_fold(base, tv.take(j as int), cs).text,
                start as int == whisper_fold(base, tv.take(j as int), cs).start,
                end as int == whisper_fold(base, tv.take(j as int), cs).end,
                text@.len() > 0 ==> exists|a: int| 0 <= a < j && start == toks@[a].t0,
                text@.len() > 0 ==> exists|a: int| 0 <= a < j && end == toks@[a].t1,
            decreases toks.len() - j,
        {
            assert(tv.take(j + 1).drop_last() =~= tv.take(j as int));
            assert(tv.take(j + 1).last() == toks@[j as int]@);
            assert(tv[j as int] == toks@[j as int]@);
            let tok = &toks[j];
            if !is_special_token_exec(tok.text.as_str()) {
                let tchars = chars_of(tok.text.as_str());
                let starts = (tchars.len() > 0 && tchars[0] == ' ') || text.unicode_len() == 0;
                if starts && text.unicode_len() > 0 {
                    proof {
                        let a = choose|a: int| 0 <= a < j && start == toks@[a].t0;
                        let b = choose|b: int| 0 <= b < j && end == toks@[b].t1;
                        assert(sv[i as int][a] == toks@[a]@);
                        assert(sv[i as int][b] == toks@[b]@);
                    }
                    flush_whisper_word(&mut out, &text, start, end, chunk_start);
                    text = String::new();
                }
                if text.unicode_len() == 0 {
                    start = tok.t0;
                }
                end = tok.t1;
                text.append(tok.text.as_str());
            }
            j = j + 1;
        }
        assert(tv.take(toks.len() as int) =~= tv);
        if text.unicode_len() > 0 {
            proof {
                let a = choose|a: int| 0 <= a < j && start == toks@[a].t0;
                let b = choose|b: int| 0 <= b < j && end == toks@[b].t1;
                assert(sv[i as int][a] == toks@[a]@);
                assert(sv[i as int][b] == toks@[b]@);
            }
            flush_whisper_word(&mut out, &text, start, end, chunk_start);
        }
        i = i + 1;
    }
    assert(sv.take(segments.len() as int) =~= sv);
    out
}

/// Every segment has non-empty text and a single word with that text and
/// the segment's span.
pub open spec fn one_word_segments(s: Seq<SegmentView>) -> bool {
    forall|k: int|
        0 <= k < s.len() ==> {
            &&& (#[trigger] s[k]).text.len() > 0
            &&& s[k].words == seq![WordView { word: s[k].text, start: s[k].start, end: s[k].end }]
        }
}

proof fn lemma_flush_one_word(out: Seq<SegmentView>, text: Seq<char>, start: int, end: int, cs: int)
    requires
        one_word_segments(out),
    ensures
        one_word_segments(whisper_flush(out, text, start, end, cs)),
{
    let r = whisper_flush(out, text, start, end, cs);
    assert forall|k: int| 0 <= k < r.len() implies {
        &&& (#[trigger] r[k]).text.len() > 0
        &&& r[k].words == seq![WordView { word: r[k].text, start: r[k].start, end: r[k].end }]
    } by {
        if k < out.len() {
            assert(r[k] == out[k]);
        }
    }
}

proof fn lemma_whisper_fold_one_word(base: Seq<SegmentView>, ts: Seq<WhisperTokenView>, cs: int)
    requires
        one_word_segments(base),
    ensures
        one_word_segments(whisper_fold(base, ts, cs).out),
    decreases ts.len(),
{
    if ts.len() > 0 {
        lemma_whisper_fold_one_word(base, ts.drop_last(), cs);
        let st = whisper_fold(base, ts.drop_last(), cs);
        lemma_flush_one_word(st.out, st.text, st.start, st.end, cs);
    }
}

/// Every segment the token grouping yields is one non-blank word.
pub proof fn law_whisper_one_word(segments: Seq<Seq<WhisperTokenView>>, chunk_start: int)
    ensures
        one_word_segments(whisper_words(segments, chunk_start)),
    decreases segments.len(),
{
    if segments.len() > 0 {
        law_whisper_one_word(segments.drop_last(), chunk_start);
        let base = whisper_words(segments.drop_last(), chunk_start);
        lemma_whisper_fold_one_word(base, segments.last(), chunk_start);
        let st = whisper_fold(base, segments.last(), chunk_start);
        lemma_flush_one_word(st.out, st.text, st.start, st.end, chunk_start);
    } else {
        assert(whisper_words(segments, chunk_start) =~= Seq::<SegmentView>::empty());
    }
}

// ---------------------------------------------------------------------------
// Model source
// ---------------------------------------------------------------------------

/// Where a Whisper model file comes from.
#[derive(Debug, Clone, PartialEq, Eq)]
pub enum WhisperModelSource {
    /// The model id is a path to an existing file: use it as is.
    LocalFile(String),
    /// Download `filename` from the hub repository `repo`. When
    /// `fallback` holds, a failed download is reported as an unknown model
    /// id rather than with the download's own error.
    Download { repo: String, filename: String, fallback: bool },
}

/// A model source as a mathematical value.
pub enum WhisperModelSourceView {
    LocalFile(Seq<char>),
    Download { repo: Seq<char>, filename: Seq<char>, fallback: bool },
}

impl View for WhisperModelSource {
    type V = WhisperModelSourceView;

    open spec fn view(&self) -> WhisperModelSourceView {
        match self {
            WhisperModelSource::LocalFile(p) => WhisperModelSourceView::LocalFile(p@),
            WhisperModelSource::Download { repo, filename, fallback } => WhisperModelSourceView::Download {
                repo: repo@,
                filename: filename@,
                fallback: *fallback,
            },
        }
    }
}

pub open spec fn openai_prefix() -> Seq<char> {
    seq!['o', 'p', 'e', 'n', 'a', 'i', '/', 'w', 'h', 'i', 's', 'p', 'e', 'r', '-']
}

/// Where the model named `model_id` comes from, given whether `model_id`
/// is the path of an existing file: that file; else, for
/// `openai/whisper-<size>`, `ggml-<size>.bin` of `ggerganov/whisper.cpp`;
/// else `ggml-model.bin` of the repository `model_id`.
pub open spec fn whisper_model_source(model_id: Seq<char>, local_is_file: bool) -> WhisperModelSourceView {
    let p = openai_prefix();
    if local_is_file {
        WhisperModelSourceView::LocalFile(model_id)
    } else if model_id.len() >= p.len() && model_id.subrange(0, p.len() as int) == p {
        WhisperModelSourceView::Download {
            repo: seq!['g', 'g', 'e', 'r', 'g', 'a', 'n', 'o', 'v', '/', 'w', 'h', 'i', 's', 'p', 'e', 'r', '.', 'c', 'p', 'p'],
            filename: seq!['g', 'g', 'm', 'l', '-'] + model_id.subrange(p.len() as int, model_id.len() as int)
                + seq!['.', 'b', 'i', 'n'],
            fallback: false,
        }
    } else {
        WhisperModelSourceView::Download {
            repo: model_id,
            filename: seq!['g', 'g', 'm', 'l', '-', 'm', 'o', 'd', 'e', 'l', '.', 'b', 'i', 'n'],
            fallback: true,
        }
    }
}

/// Decide where the Whisper model `model_id` comes from; `local_is_file`
/// tells whether `model_id` is the path of an existing file.
pub fn resolve_whisper_model_path(model_id: &str, local_is_file: bool) -> (r: WhisperModelSource)
    ensures
        r@ == whisper_model_source(model_id@, local_is_file),
{
    if local_is_file {
        return WhisperModelSource::LocalFile(String::from_str(model_id));
    }
    let id = chars_of(model_id);
    let prefix = chars_of("openai/whisper-");
    proof {
        reveal_strlit("openai/whisper-");
        assert(prefix@ =~= openai_prefix());
    }
    let mut matches = id.len() >= prefix.len();
    let mut k: usize = 0;
    while matches && k < prefix.len()
        invariant
            k <= prefix.len(),
            prefix@ == openai_prefix(),
            id@ == model_id@,
            matches ==> id.len() >= prefix.len(),
            matches ==> forall|t: int| 0 <= t < k ==> id@[t] == prefix@[t],
            !matches ==> !(id@.len() >= prefix@.len() && id@.subrange(0, prefix@.len() as int) == prefix@),
        decreases prefix.len() - k,
    {
        if id[k] != prefix[k] {
            assert(id@.subrange(0, prefix@.len() as int)[k as int] == id@[k as int]);
            matches = false;
        }
        k = k + 1;
    }
    if matches {
        assert(id@.subrange(0, prefix@.len() as int) =~= prefix@);
        let size = model_id.substring_char(prefix.len(), id.len());
        let mut filename = String::from_str("ggml-");
        filename.append(size);
        filename.append(".bin");
        proof {
            reveal_strlit("ggml-");
            reveal_strlit(".bin");
            reveal_strlit("ggerganov/whisper.cpp");
            assert("ggml-"@ =~= seq!['g', 'g', 'm', 'l', '-']);
            assert(".bin"@ =~= seq!['.', 'b', 'i', 'n']);
            assert("ggerganov/whisper.cpp"@ =~= seq!['g', 'g', 'e', 'r', 'g', 'a', 'n', 'o', 'v', '/', 'w', 'h', 'i', 's', 'p', 'e', 'r', '.', 'c', 'p', 'p']);
        }
        let repo = String::from_str("ggerganov/whisper.cpp");
        let r = WhisperModelSource::Download { repo, filename, fallback: false };
        assert(r@ == whisper_model_source(model_id@, local_is_file));
        r
    } else {
        proof {
            reveal_strlit("ggml-model.bin");
            assert("ggml-model.bin"@ =~= seq!['g', 'g', 'm', 'l', '-', 'm', 'o', 'd', 'e', 'l', '.', 'b', 'i', 'n']);
        }
        let r = WhisperModelSource::Download {
            repo: String::from_str(model_id),
            filename: String::from_str("ggml-model.bin"),
            fallback: true,
        };
        assert(r@ == whisper_model_source(model_id@, local_is_file));
        r
    }
}


proof fn lemma_whisper_text_kept(base: Seq<SegmentView>, ts: Seq<WhisperTokenView>, chunk_start: int, k: int)
    requires
        0 <= k < ts.len(),
        !is_special_token(ts[k].text),
        ts[k].text.len() > 0,
    ensures
        whisper_fold(base, ts, chunk_start).text.len() > 0,
    decreases ts.len(),
{
    let d = ts.drop_last();
    if k < ts.len() - 1 {
        assert(d[k] == ts[k]);
        lemma_whisper_text_kept(base, d, chunk_start, k);
    } else {
        assert(ts.last() == ts[k]);
    }
}

/// A token that begins with a space closes the word being built and starts
/// a word of its own: the one-word segments after it are those before it,
/// plus (unless its text is blank) one segment of its trimmed text
/// spanning exactly this token.
pub proof fn law_whisper_spaced_token_starts_word(
    base: Seq<SegmentView>,
    ts: Seq<WhisperTokenView>,
    tok: WhisperTokenView,
    chunk_start: int,
)
    requires
        !is_special_token(tok.text),
        tok.text.len() > 0,
        tok.text[0] == ' ',
    ensures
        whisper_segment_words(base, ts.push(tok), chunk_start) == whisper_flush(
            whisper_segment_words(base, ts, chunk_start),
            tok.text,
            tok.t0,
            tok.t1,
            chunk_start,
        ),
{
    assert(ts.push(tok).drop_last() =~= ts);
}

/// A token that does not begin with a space, met while a word is being
/// built (some earlier token of the decoded segment had text), is glued
/// onto that word: the output is the same as without it, except that the
/// last word's text gains the token's text and ends where the token ends.
pub proof fn law_whisper_unspaced_token_joins_word(
    base: Seq<SegmentView>,
    ts: Seq<WhisperTokenView>,
    tok: WhisperTokenView,
    chunk_start: int,
    k: int,
)
    requires
        !is_special_token(tok.text),
        !(tok.text.len() > 0 && tok.text[0] == ' '),
        0 <= k < ts.len(),
        !is_special_token(ts[k].text),
        ts[k].text.len() > 0,
    ensures
        ({
            let f = whisper_fold(base, ts, chunk_start);
            &&& whisper_segment_words(base, ts, chunk_start) == whisper_flush(
                f.out,
                f.text,
                f.start,
                f.end,
                chunk_start,
            )
            &&& whisper_segment_words(base, ts.push(tok), chunk_start) == whisper_flush(
                f.out,
                f.text + tok.text,
                f.start,
                tok.t1,
                chunk_start,
            )
        }),
{
    lemma_whisper_text_kept(base, ts, chunk_start, k);
    assert(ts.push(tok).drop_last() =~= ts);
    let f = whisper_fold(base, ts, chunk_start);
    assert((f.text + tok.text).len() > 0);
}


/// Special tokens are skipped: appending one to a decoded segment changes
/// nothing in the output.
pub proof fn law_whisper_special_token_skipped(
    base: Seq<SegmentView>,
    ts: Seq<WhisperTokenView>,
    tok: WhisperTokenView,
    chunk_start: int,
)
    requires
        is_special_token(tok.text),
    ensures
        whisper_segment_words(base, ts.push(tok), chunk_start) == whisper_segment_words(
            base,
            ts,
            chunk_start,
        ),
{
    assert(ts.push(tok).drop_last() =~= ts);
}

} // verus!
