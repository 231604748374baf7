//! The caption data model.
//!
//! Every time is an integer count of microseconds. Each record has a view
//! over mathematical values (`Seq<char>` text, `int` times) in which the
//! contracts of the rest of the crate are written.
use vstd::prelude::*;

verus! {

/// What a history entry records about a segment.
#[derive(Debug, Clone, Copy, PartialEq, Eq, Structural)]
pub enum HistoryAction {
    Modified,
    Deleted,
    SpeakerRenamed,
}

/// Document-level metadata of a transcript.
#[derive(Debug, Clone, PartialEq, Eq)]
pub struct TranscriptMetadata {
    pub id: String,
    pub media_file_path: Option<String>,
}

/// One word of an edited transcript segment.
#[derive(Debug, Clone, PartialEq, Eq)]
pub struct TranscriptWord {
    pub text: String,
    pub start_time: Option<i64>,
    pub end_time: Option<i64>,
}

/// One segment of an edited transcript.
#[derive(Debug, Clone, PartialEq, Eq)]
pub struct TranscriptSegment {
    pub id: String,
    pub index: i64,
    pub start_time: i64,
    pub end_time: i64,
    pub text: String,
    pub words: Option<Vec<TranscriptWord>>,
    pub speaker_name: Option<String>,
    pub rating: Option<i32>,
    pub timestamp: Option<String>,
    pub verified: Option<bool>,
    pub asr_model: Option<String>,
    pub notes: Option<String>,
}

/// One word of the raw recognizer output kept in a document.
#[derive(Debug, Clone, PartialEq, Eq)]
pub struct RawAsrWord {
    pub word: String,
    pub start: i64,
    pub end: i64,
}

/// One segment of the raw recognizer output kept in a document.
#[derive(Debug, Clone, PartialEq, Eq)]
pub struct RawAsrSegmentSnapshot {
    pub text: String,
    pub start: i64,
    pub end: i64,
    pub chunk_start: Option<i64>,
    pub words: Vec<RawAsrWord>,
}

/// The raw recognizer output kept in a document.
#[derive(Debug, Clone, PartialEq, Eq)]
pub struct RawAsrOutput {
    pub version: i32,
    pub segments: Vec<RawAsrSegmentSnapshot>,
}

/// A recognized word with its time span.
#[derive(Debug, Clone, PartialEq, Eq)]
pub struct WordTimestamp {
    pub word: String,
    pub start: i64,
    pub end: i64,
}

/// A recognized segment, before post-processing turns it into a
/// transcript segment.
#[derive(Debug, Clone, PartialEq, Eq)]
pub struct AsrSegment {
    pub text: String,
    pub start: i64,
    pub end: i64,
    pub words: Vec<WordTimestamp>,
    pub chunk_start: Option<i64>,
    pub speaker: Option<String>,
}

/// Whether an optional field is absent (and so left out when written).
pub fn skip_if_none<T>(v: &Option<T>) -> (r: bool)
    ensures
        r == (*v is None),
{
    v.is_none()
}

/// The raw-output format version assumed when a document does not say.
pub fn raw_asr_version_default() -> (r: i32)
    ensures
        r == 1,
{
    1
}

// ---------------------------------------------------------------------------
// Views
// ---------------------------------------------------------------------------

/// A word as a mathematical value.
pub struct WordView {
    pub word: Seq<char>,
    pub start: int,
    pub end: int,
}

/// A segment as a mathematical value.
pub struct SegmentView {
    pub text: Seq<char>,
    pub start: int,
    pub end: int,
    pub words: Seq<WordView>,
    pub chunk_start: Option<int>,
    pub speaker: Option<Seq<char>>,
}

pub open spec fn opt_time(t: Option<i64>) -> Option<int> {
    match t {
        Some(v) => Some(v as int),
        None => None,
    }
}

pub open spec fn opt_text(t: Option<String>) -> Option<Seq<char>> {
    match t {
        Some(v) => Some(v@),
        None => None,
    }
}

impl View for WordTimestamp {
    type V = WordView;

    open spec fn view(&self) -> WordView {
        WordView { word: self.word@, start: self.start as int, end: self.end as int }
    }
}

/// The views of a sequence of words.
pub open spec fn words_view(ws: Seq<WordTimestamp>) -> Seq<WordView> {
    ws.map_values(|w: WordTimestamp| w@)
}

impl View for AsrSegment {
    type V = SegmentView;

    open spec fn view(&self) -> SegmentView {
        SegmentView {
            text: self.text@,
            start: self.start as int,
            end: self.end as int,
            words: words_view(self.words@),
            chunk_start: opt_time(self.chunk_start),
            speaker: opt_text(self.speaker),
        }
    }
}

/// The views of a sequence of segments.
pub open spec fn segs_view(ss: Seq<AsrSegment>) -> Seq<SegmentView> {
    ss.map_values(|s: AsrSegment| s@)
}

pub proof fn lemma_words_view_push(ws: Seq<WordTimestamp>, w: WordTimestamp)
    ensures
        words_view(ws.push(w)) == words_view(ws).push(w@),
{
    assert(words_view(ws.push(w)) =~= words_view(ws).push(w@));
}

pub proof fn lemma_segs_view_push(ss: Seq<AsrSegment>, s: AsrSegment)
    ensures
        segs_view(ss.push(s)) == segs_view(ss).push(s@),
{
    assert(segs_view(ss.push(s)) =~= segs_view(ss).push(s@));
}

impl WordTimestamp {
    /// A copy of this word.
    pub fn duplicate(&self) -> (r: WordTimestamp)
        ensures
            r == *self,
    {
        WordTimestamp { word: self.word.clone(), start: self.start, end: self.end }
    }
}

/// A copy of an optional string.
pub fn duplicate_opt_string(s: &Option<String>) -> (r: Option<String>)
    ensures
        r == *s,
{
    match s {
        Some(t) => Some(t.clone()),
        None => None,
    }
}

/// Copies of `ws[lo..hi]`.
pub fn copy_words(ws: &Vec<WordTimestamp>, lo: usize, hi: usize) -> (r: Vec<WordTimestamp>)
    requires
        lo <= hi <= ws.len(),
    ensures
        r@ == ws@.subrange(lo as int, hi as int),
{
    let mut r: Vec<WordTimestamp> = Vec::new();
    let mut i = lo;
    while i < hi
        invariant
            lo <= i <= hi <= ws.len(),
            r@ == ws@.subrange(lo as int, i as int),
        decreases hi - i,
    {
        r.push(ws[i].duplicate());
        assert(r@ =~= ws@.subrange(lo as int, i + 1));
        i = i + 1;
    }
    r
}

impl AsrSegment {
    /// A copy of this segment.
    pub fn duplicate(&self) -> (r: AsrSegment)
        ensures
            r@ == self@,
    {
        let words = copy_words(&self.words, 0, self.words.len());
        assert(words@ =~= self.words@);
        AsrSegment {
            text: self.text.clone(),
            start: self.start,
            end: self.end,
            words,
            chunk_start: self.chunk_start,
            speaker: duplicate_opt_string(&self.speaker),
        }
    }
}

// ---------------------------------------------------------------------------
// Views of the document records
// ---------------------------------------------------------------------------

/// A transcript word as a mathematical value.
pub struct TranscriptWordView {
    pub text: Seq<char>,
    pub start_time: Option<int>,
    pub end_time: Option<int>,
}

impl View for TranscriptWord {
    type V = TranscriptWordView;

    open spec fn view(&self) -> TranscriptWordView {
        TranscriptWordView {
            text: self.text@,
            start_time: opt_time(self.start_time),
            end_time: opt_time(self.end_time),
        }
    }
}

pub open spec fn transcript_words_view(ws: Option<Vec<TranscriptWord>>) -> Option<
    Seq<TranscriptWordView>,
> {
    match ws {
        Some(v) => Some(v@.map_values(|w: TranscriptWord| w@)),
        None => None,
    }
}

/// A transcript segment as a mathematical value.
pub struct TranscriptSegmentView {
    pub id: Seq<char>,
    pub index: int,
    pub start_time: int,
    pub end_time: int,
    pub text: Seq<char>,
    pub words: Option<Seq<TranscriptWordView>>,
    pub speaker_name: Option<Seq<char>>,
    pub rating: Option<i32>,
    pub timestamp: Option<Seq<char>>,
    pub verified: Option<bool>,
    pub asr_model: Option<Seq<char>>,
    pub notes: Option<Seq<char>>,
}

impl View for TranscriptSegment {
    type V = TranscriptSegmentView;

    open spec fn view(&self) -> TranscriptSegmentView {
        TranscriptSegmentView {
            id: self.id@,
            index: self.index as int,
            start_time: self.start_time as int,
            end_time: self.end_time as int,
            text: self.text@,
            words: transcript_words_view(self.words),
            speaker_name: opt_text(self.speaker_name),
            rating: self.rating,
            timestamp: opt_text(self.timestamp),
            verified: self.verified,
            asr_model: opt_text(self.asr_model),
            notes: opt_text(self.notes),
        }
    }
}

/// The views of a sequence of transcript segments.
pub open spec fn transcripts_view(ss: Seq<TranscriptSegment>) -> Seq<TranscriptSegmentView> {
    ss.map_values(|s: TranscriptSegment| s@)
}

impl View for RawAsrWord {
    type V = WordView;

    open spec fn view(&self) -> WordView {
        WordView { word: self.word@, start: self.start as int, end: self.end as int }
    }
}

/// A raw snapshot segment as a mathematical value.
pub struct RawSnapshotView {
    pub text: Seq<char>,
    pub start: int,
    pub end: int,
    pub chunk_start: Option<int>,
    pub words: Seq<WordView>,
}

impl View for RawAsrSegmentSnapshot {
    type V = RawSnapshotView;

    open spec fn view(&self) -> RawSnapshotView {
        RawSnapshotView {
            text: self.text@,
            start: self.start as int,
            end: self.end as int,
            chunk_start: opt_time(self.chunk_start),
            words: self.words@.map_values(|w: RawAsrWord| w@),
        }
    }
}

} // verus!
