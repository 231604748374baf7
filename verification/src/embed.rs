//! The computations of the speaker-embedding tool that do not touch audio
//! models: locating the media file, choosing whether to re-encode it,
//! mixing and slicing samples, and deciding how to run UMAP.
use vstd::prelude::*;
use std::path::Component;
use vstd::string::*;
use crate::convert::opt_str_view;
use crate::ffmpeg::{path_join, join_path};
use crate::text::{ascii_lower_seq, chars_of, ascii_lower_char};

verus! {

// ---------------------------------------------------------------------------
// Paths
// ---------------------------------------------------------------------------

/// The kind of a path component.
#[derive(Debug, Clone, Copy, PartialEq, Eq, Structural)]
pub enum PartKind {
    Prefix,
    RootDir,
    CurDir,
    ParentDir,
    Normal,
}

/// A path component: its kind and its text.
#[derive(Debug, Clone, PartialEq, Eq)]
pub struct PathPart {
    pub kind: PartKind,
    pub text: String,
}

pub struct PathPartView {
    pub kind: PartKind,
    pub text: Seq<char>,
}

impl View for PathPart {
    type V = PathPartView;

    open spec fn view(&self) -> PathPartView {
        PathPartView { kind: self.kind, text: self.text@ }
    }
}

pub open spec fn parts_view(ps: Seq<PathPart>) -> Seq<PathPartView> {
    ps.map_values(|p: PathPart| p@)
}

/// The components of a path, as `Path::components` yields them.
pub uninterp spec fn path_components(p: Seq<char>) -> Seq<PathPartView>;

/// The parent of a path, as `Path::parent` gives it.
pub uninterp spec fn path_parent(p: Seq<char>) -> Option<Seq<char>>;

/// Component `i` of `std::path::Path::components`, converted to its kind
/// and text (`None` past the last one). The input is UTF-8, so the text
/// converts without loss. The contract names the result.
#[verifier::external_body]
fn component_at(p: &str, i: usize) -> (r: Option<PathPart>)
    ensures
        match r {
            Some(c) => i < path_components(p@).len() && c@ == path_components(p@)[i as int],
            None => i >= path_components(p@).len(),
        },
{
    let c = std::path::Path::new(p).components().nth(i)?;
    let kind = match c {
        Component::Prefix(_) => PartKind::Prefix,
        Component::RootDir => PartKind::RootDir,
        Component::CurDir => PartKind::CurDir,
        Component::ParentDir => PartKind::ParentDir,
        Component::Normal(_) => PartKind::Normal,
    };
    Some(PathPart { kind, text: c.as_os_str().to_string_lossy().into_owned() })
}

/// The components of `p`, in order.
fn components_of(p: &str) -> (r: Vec<PathPart>)
    ensures
        parts_view(r@) == path_components(p@),
{
    let ghost all = path_components(p@);
    let mut r: Vec<PathPart> = Vec::new();
    let mut i: usize = 0;
    loop
        invariant
            i == r.len(),
            i <= all.len(),
            all == path_components(p@),
            parts_view(r@) == all.take(i as int),
        decreases all.len() - i,
    {
        match component_at(p, i) {
            Some(c) => {
                let ghost old_r = r@;
                r.push(c);
                assert(parts_view(r@) =~= all.take(i + 1));
                i = r.len();
            },
            None => {
                assert(all.take(i as int) =~= all);
                return r;
            },
        }
    }
}

/// `std::path::Path::parent`, as text. The contract names the result.
#[verifier::external_body]
fn parent_of(p: &str) -> (r: Option<String>)
    ensures
        match r {
            Some(s) => path_parent(p@) == Some(s@),
            None => path_parent(p@) is None,
        },
{
    std::path::Path::new(p).parent().map(|q| q.to_string_lossy().into_owned())
}

/// One component of the normalization: `..` drops the last plain
/// component; right after the root it is dropped, since nothing lies above
/// the root; anywhere else (at the start, after another `..` or after a
/// prefix) it is kept. `.` is skipped, anything else is kept.
pub open spec fn normalize_step(out: Seq<PathPartView>, part: PathPartView) -> Seq<PathPartView> {
    match part.kind {
        PartKind::ParentDir => if out.len() > 0 && out.last().kind == PartKind::Normal {
            out.drop_last()
        } else if out.len() > 0 && out.last().kind == PartKind::RootDir {
            out
        } else {
            out.push(part)
        },
        PartKind::CurDir => out,
        _ => out.push(part),
    }
}

/// The components left after resolving `.` and `..` lexically.
pub open spec fn normalize_parts(parts: Seq<PathPartView>) -> Seq<PathPartView>
    decreases parts.len(),
{
    if parts.len() == 0 {
        Seq::empty()
    } else {
        normalize_step(normalize_parts(parts.drop_last()), parts.last())
    }
}

/// The path built by joining the components' texts onto an empty path.
pub open spec fn render_parts(parts: Seq<PathPartView>) -> Seq<char>
    decreases parts.len(),
{
    if parts.len() == 0 {
        Seq::empty()
    } else {
        path_join(render_parts(parts.drop_last()), parts.last().text)
    }
}

/// What `normalize_path` returns.
pub open spec fn normalize_path_spec(p: Seq<char>) -> Seq<char> {
    render_parts(normalize_parts(path_components(p)))
}

/// Normalization leaves no `.` component, and a `..` that it keeps never
/// follows a plain component or the root: only the start, a prefix or
/// another `..` can stand before it.
pub proof fn lemma_normalize_parts_clean(parts: Seq<PathPartView>)
    ensures
        forall|k: int|
            0 <= k < normalize_parts(parts).len() ==> (#[trigger] normalize_parts(parts)[k]).kind
                != PartKind::CurDir,
        forall|k: int|
            0 < k < normalize_parts(parts).len() && (#[trigger] normalize_parts(parts)[k]).kind
                == PartKind::ParentDir ==> normalize_parts(parts)[k - 1].kind == PartKind::ParentDir
                || normalize_parts(parts)[k - 1].kind == PartKind::Prefix,
    decreases parts.len(),
{
    if parts.len() > 0 {
        lemma_normalize_parts_clean(parts.drop_last());
        let prev = normalize_parts(parts.drop_last());
        let part = parts.last();
        assert(normalize_parts(parts) == normalize_step(prev, part));
        if part.kind == PartKind::ParentDir && prev.len() > 0 && (prev.last().kind
            == PartKind::Normal || prev.last().kind == PartKind::RootDir) {
            let cur = normalize_parts(parts);
            assert forall|k: int| 0 <= k < cur.len() implies #[trigger] cur[k] == prev[k] by {}
        } else if part.kind == PartKind::CurDir {
        } else {
            let cur = normalize_parts(parts);
            assert(cur == prev.push(part));
            if part.kind == PartKind::ParentDir && prev.len() > 0 {
                assert(prev[prev.len() - 1].kind != PartKind::CurDir);
                assert(cur[prev.len() - 1] == prev.last());
            }
            assert forall|k: int| 0 <= k < prev.len() implies #[trigger] cur[k] == prev[k] by {}
        }
    }
}

/// Resolve `.` and `..` components without touching the file system: a
/// `..` removes the plain component before it, is dropped right after the
/// root, and is kept where no plain component precedes it, so a leading
/// `..` stays.
pub fn normalize_path(p: &str) -> (r: String)
    ensures
        r@ == normalize_path_spec(p@),
{
    let parts = components_of(p);
    let ghost pv = parts_view(parts@);
    let mut out: Vec<PathPart> = Vec::new();
    let mut i: usize = 0;
    while i < parts.len()
        invariant
            i <= parts.len(),
            pv == parts_view(parts@),
            parts_view(out@) == normalize_parts(pv.take(i as int)),
        decreases parts.len() - i,
    {
        assert(pv.take(i + 1).drop_last() =~= pv.take(i as int));
        assert(pv.take(i + 1).last() == parts@[i as int]@);
        let ghost old_out = out@;
        match parts[i].kind {
            PartKind::ParentDir => {
                if out.len() > 0 && out[out.len() - 1].kind == PartKind::Normal {
                    assert(parts_view(old_out).last() == old_out.last()@);
                    out.pop();
                    assert(parts_view(out@) =~= parts_view(old_out).drop_last());
                } else if out.len() > 0 && out[out.len() - 1].kind == PartKind::RootDir {
                    assert(parts_view(old_out).last() == old_out.last()@);
                } else {
                    if out.len() > 0 {
                        assert(parts_view(old_out).last() == old_out.last()@);
                    }
                    out.push(PathPart { kind: parts[i].kind, text: parts[i].text.clone() });
                    assert(parts_view(out@) =~= parts_view(old_out).push(parts@[i as int]@));
                }
            },
            PartKind::CurDir => {},
            _ => {
                out.push(PathPart { kind: parts[i].kind, text: parts[i].text.clone() });
                assert(parts_view(out@) =~= parts_view(old_out).push(parts@[i as int]@));
            },
        }
        i = i + 1;
    }
    assert(pv.take(parts.len() as int) =~= pv);
    let ghost ov = parts_view(out@);
    let mut acc = String::new();
    let mut j: usize = 0;
    assert(ov.take(0) =~= Seq::<PathPartView>::empty());
    while j < out.len()
        invariant
            j <= out.len(),
            ov == parts_view(out@),
            acc@ == render_parts(ov.take(j as int)),
        decreases out.len() - j,
    {
        assert(ov.take(j + 1).drop_last() =~= ov.take(j as int));
        assert(ov.take(j + 1).last() == out@[j as int]@);
        acc = join_path(acc.as_str(), out[j].text.as_str());
        j = j + 1;
    }
    assert(ov.take(out.len() as int) =~= ov);
    acc
}

/// Why no media path could be derived from a captions document.
#[derive(Debug, Clone, Copy, PartialEq, Eq, Structural)]
pub enum MediaPathError {
    /// The document's metadata has no media file path.
    MissingMediaPath,
}

/// What `media_path_for` returns when the media path is present: the
/// media path taken relative to the captions file's directory (or `.`),
/// normalized.
pub open spec fn media_path_spec(captions_path: Seq<char>, media: Seq<char>) -> Seq<char> {
    let dir = match path_parent(captions_path) {
        Some(d) => d,
        None => seq!['.'],
    };
    normalize_path_spec(path_join(dir, media))
}

/// The media file of a captions document: `media_file_path` taken relative
/// to the directory of `captions_path`, normalized. Whether the file
/// exists is for the caller to check.
pub fn media_path_for(captions_path: &str, media_file_path: Option<&str>) -> (r: Result<String, MediaPathError>)
    ensures
        match media_file_path {
            None => r == Err::<String, MediaPathError>(MediaPathError::MissingMediaPath),
            Some(m) => r matches Ok(p) && p@ == media_path_spec(captions_path@, m@),
        },
{
    let media = match media_file_path {
        Some(m) => m,
        None => {
            return Err(MediaPathError::MissingMediaPath);
        },
    };
    let dir = match parent_of(captions_path) {
        Some(d) => d,
        None => {
            proof {
                reveal_strlit(".");
                assert("."@ =~= seq!['.']);
            }
            String::from_str(".")
        },
    };
    let joined = join_path(dir.as_str(), media);
    Ok(normalize_path(joined.as_str()))
}

/// A file extension names WAV audio when, ASCII-lowercased, it is `wav`
/// or `wave`.
pub open spec fn is_wav_extension_spec(ext: Option<Seq<char>>) -> bool {
    match ext {
        Some(e) => ascii_lower_seq(e) == seq!['w', 'a', 'v'] || ascii_lower_seq(e) == seq![
            'w',
            'a',
            'v',
            'e',
        ],
        None => false,
    }
}

/// Whether a file with extension `ext` can be read as WAV without
/// re-encoding.
pub fn is_wav_extension(ext: Option<&str>) -> (b: bool)
    ensures
        b == is_wav_extension_spec(opt_str_view(ext)),
{
    match ext {
        None => false,
        Some(e) => {
            let v = chars_of(e);
            let ghost low = ascii_lower_seq(e@);
            let n = v.len();
            assert(low.len() == n);
            if n != 3 && n != 4 {
                return false;
            }
            let c0 = ascii_lower_char(v[0]);
            let c1 = ascii_lower_char(v[1]);
            let c2 = ascii_lower_char(v[2]);
            assert(low[0] == c0 && low[1] == c1 && low[2] == c2);
            if n == 3 {
                let b = c0 == 'w' && c1 == 'a' && c2 == 'v';
                assert(b ==> low =~= seq!['w', 'a', 'v']);
                b
            } else {
                let c3 = ascii_lower_char(v[3]);
                assert(low[3] == c3);
                let b = c0 == 'w' && c1 == 'a' && c2 == 'v' && c3 == 'e';
                assert(b ==> low =~= seq!['w', 'a', 'v', 'e']);
                b
            }
        },
    }
}

// ---------------------------------------------------------------------------
// Samples
// ---------------------------------------------------------------------------

/// Integer division rounding toward zero, as Rust's `/` on integers.
pub open spec fn div_trunc(a: int, b: int) -> int {
    if a >= 0 {
        a / b
    } else {
        -((-a) / b)
    }
}

/// The sum of `s`.
pub open spec fn sum_i16(s: Seq<i16>) -> int
    decreases s.len(),
{
    if s.len() == 0 {
        0
    } else {
        sum_i16(s.drop_last()) + s.last()
    }
}

/// Frame `k` of interleaved samples with `ch` channels (the last frame may
/// be short).
pub open spec fn frame(s: Seq<i16>, ch: int, k: int) -> Seq<i16> {
    let lo = k * ch;
    let hi = if (k + 1) * ch <= s.len() {
        (k + 1) * ch
    } else {
        s.len() as int
    };
    s.subrange(lo, hi)
}

/// The number of frames, counting a short last one.
pub open spec fn frame_count(n: int, ch: int) -> int {
    (n + ch - 1) / ch
}

/// What `mix_down` returns: with more than one channel, each frame's sum
/// divided (rounding toward zero) by the channel count.
pub open spec fn mix_down_spec(s: Seq<i16>, ch: int) -> Seq<int> {
    if ch > 1 {
        Seq::new(frame_count(s.len() as int, ch) as nat, |k: int| div_trunc(sum_i16(frame(s, ch, k)), ch))
    } else {
        s.map_values(|x: i16| x as int)
    }
}

proof fn lemma_sum_bounds(s: Seq<i16>)
    ensures
        -32768 * s.len() <= sum_i16(s) <= 32767 * s.len(),
    decreases s.len(),
{
    if s.len() > 0 {
        lemma_sum_bounds(s.drop_last());
    }
}

/// Average interleaved channels down to one (a short last frame is still
/// divided by the full channel count); mono input is returned as is.
pub fn mix_down(samples: Vec<i16>, channels: u16) -> (r: Vec<i16>)
    ensures
        r@.map_values(|x: i16| x as int) == mix_down_spec(samples@, channels as int),
{
    if channels <= 1 {
        return samples;
    }
    let ch = channels as usize;
    let ghost s = samples@;
    let n = samples.len();
    assert(n / ch <= n) by (nonlinear_arith)
        requires
            ch > 1,
    ;
    assert(n % ch != 0 ==> n / ch < n) by (nonlinear_arith)
        requires
            ch > 1,
    ;
    let frames = if n % ch == 0 { n / ch } else { n / ch + 1 };
    assert(frames == frame_count(n as int, ch as int)) by (nonlinear_arith)
        requires
            ch > 1,
            frames == n / ch + if n % ch == 0 { 0int } else { 1int },
    ;
    let mut out: Vec<i16> = Vec::new();
    let mut k: usize = 0;
    while k < frames
        invariant
            k <= frames,
            ch == channels as usize,
            ch > 1,
            n == samples.len(),
            s == samples@,
            frames == frame_count(n as int, ch as int),
            frames == n / ch + if n % ch == 0 { 0int } else { 1int },
            out@.len() == k,
            forall|t: int| 0 <= t < k ==> (#[trigger] out@[t]) as int == div_trunc(sum_i16(frame(s, ch as int, t)), ch as int),
        decreases frames - k,
    {
        assert(k * ch < n) by (nonlinear_arith)
            requires
                k < frames,
                frames == n / ch + if n % ch == 0 { 0int } else { 1int },
                ch > 1,
        ;
        let lo = k * ch;
        let hi = if n - lo >= ch { lo + ch } else { n };
        assert((k + 1) * ch == lo + ch) by (nonlinear_arith)
            requires
                lo == k * ch,
        ;
        let mut sum: i32 = 0;
        let mut j = lo;
        while j < hi
            invariant
                lo <= j <= hi <= n,
                hi - lo <= ch,
                ch <= 65535,
                n == samples.len(),
                s == samples@,
                sum == sum_i16(s.subrange(lo as int, j as int)),
            decreases hi - j,
        {
            proof {
                assert(s.subrange(lo as int, j + 1).drop_last() =~= s.subrange(lo as int, j as int));
                lemma_sum_bounds(s.subrange(lo as int, j as int));
                assert(j - lo < 65535);
            }
            sum = sum + samples[j] as i32;
            j = j + 1;
        }
        assert(s.subrange(lo as int, hi as int) == frame(s, ch as int, k as int));
        proof {
            lemma_sum_bounds(s.subrange(lo as int, hi as int));
        }
        let avg: i32 = if sum >= 0 {
            ((sum as u32) / (ch as u32)) as i32
        } else {
            assert(-sum <= 32768 * ch);
            -(((-sum) as u32 / (ch as u32)) as i32)
        };
        assert(avg as int == div_trunc(sum as int, ch as int));
        assert(-32768 <= avg <= 32767) by (nonlinear_arith)
            requires
                avg as int == div_trunc(sum as int, ch as int),
                -32768 * ch <= sum <= 32767 * ch,
                ch > 1,
        ;
        out.push(avg as i16);
        k = k + 1;
    }
    assert(out@.map_values(|x: i16| x as int) =~= mix_down_spec(s, ch as int));
    out
}

/// The sample index of a time in microseconds at `rate` samples per
/// second: the product rounded to the nearest index (halves away from
/// zero), and never below zero.
pub open spec fn sample_index(t_us: int, rate: int) -> int {
    if t_us * rate <= 0 {
        0
    } else {
        (t_us * rate + 500_000) / 1_000_000
    }
}

/// What `slice_samples` returns.
pub open spec fn slice_spec(s: Seq<i16>, rate: int, start_us: int, end_us: int) -> Seq<i16> {
    let lo = sample_index(start_us, rate);
    let hi0 = sample_index(end_us, rate);
    let hi = if hi0 < s.len() {
        hi0
    } else {
        s.len() as int
    };
    if lo >= hi {
        Seq::empty()
    } else {
        s.subrange(lo, hi)
    }
}

fn sample_index_exec(t_us: i64, rate: u32) -> (r: u128)
    ensures
        r as int == sample_index(t_us as int, rate as int),
{
    assert(-0x8000_0000_0000_0000_0000_0000 <= (t_us as int) * (rate as int) <= 0x8000_0000_0000_0000_0000_0000) by (nonlinear_arith)
        requires
            -0x8000_0000_0000_0000 <= t_us <= 0x8000_0000_0000_0000,
            0 <= rate <= 0x1_0000_0000,
    ;
    let p: i128 = (t_us as i128) * (rate as i128);
    if p <= 0 {
        0
    } else {
        ((p + 500_000) / 1_000_000) as u128
    }
}

/// The samples between two times (microseconds), clamped to the buffer.
pub fn slice_samples(samples: &Vec<i16>, sample_rate: u32, start_us: i64, end_us: i64) -> (r: Vec<i16>)
    ensures
        r@ == slice_spec(samples@, sample_rate as int, start_us as int, end_us as int),
{
    let lo = sample_index_exec(start_us, sample_rate);
    let hi0 = sample_index_exec(end_us, sample_rate);
    let hi: usize = if hi0 < samples.len() as u128 {
        hi0 as usize
    } else {
        samples.len()
    };
    if lo >= hi as u128 {
        return Vec::new();
    }
    let lo = lo as usize;
    let mut out: Vec<i16> = Vec::new();
    let mut i = lo;
    while i < hi
        invariant
            lo <= i <= hi <= samples.len(),
            out@ == samples@.subrange(lo as int, i as int),
        decreases hi - i,
    {
        out.push(samples[i]);
        assert(out@ =~= samples@.subrange(lo as int, i + 1));
        i = i + 1;
    }
    out
}

/// The audio to embed for one segment.
#[derive(Debug, Clone, PartialEq, Eq)]
pub enum SegmentAudio {
    /// The segment is shorter than the minimum duration (it is counted as
    /// skipped).
    TooShort,
    /// The segment's span holds no samples.
    Empty,
    /// The segment's samples.
    Samples(Vec<i16>),
}

/// What `segment_audio` returns, as a sequence when there are samples.
pub open spec fn segment_audio_spec(s: Seq<i16>, rate: int, start_us: int, end_us: int, min_us: int) -> Option<Seq<i16>> {
    if end_us - start_us < min_us {
        None
    } else {
        Some(slice_spec(s, rate, start_us, end_us))
    }
}

/// The samples of a segment from `start_us` to `end_us`, unless it lasts
/// less than `min_duration_us` or its span holds no samples.
pub fn segment_audio(samples: &Vec<i16>, sample_rate: u32, start_us: i64, end_us: i64, min_duration_us: i64) -> (r: SegmentAudio)
    ensures
        match segment_audio_spec(samples@, sample_rate as int, start_us as int, end_us as int, min_duration_us as int) {
            None => r == SegmentAudio::TooShort,
            Some(v) => if v.len() == 0 {
                r == SegmentAudio::Empty
            } else {
                r matches SegmentAudio::Samples(x) && x@ == v
            },
        },
{
    let duration: i128 = (end_us as i128) - (start_us as i128);
    if duration < min_duration_us as i128 {
        return SegmentAudio::TooShort;
    }
    let slice = slice_samples(samples, sample_rate, start_us, end_us);
    if slice.len() == 0 {
        SegmentAudio::Empty
    } else {
        SegmentAudio::Samples(slice)
    }
}

// ---------------------------------------------------------------------------
// UMAP
// ---------------------------------------------------------------------------

/// How a UMAP reduction is to be run.
#[derive(Debug, Clone, Copy, PartialEq, Eq, Structural)]
pub enum UmapPlan {
    /// Too few rows, no target dimension, or empty rows: nothing to fit.
    Skip,
    /// The rows do not all have the same length.
    Inconsistent,
    /// Fit with this many neighbours.
    Fit { n_neighbors: usize },
}

/// The plan for rows of the given lengths and target dimension: skip with
/// fewer than two rows, a zero dimension or an empty first row; refuse rows
/// of different lengths; else fit with `min(15, rows - 1)` neighbours.
pub open spec fn umap_plan_spec(lens: Seq<usize>, dim: int) -> UmapPlan {
    if lens.len() < 2 || dim < 1 {
        UmapPlan::Skip
    } else if lens[0] == 0 {
        UmapPlan::Skip
    } else if !(forall|k: int| 0 <= k < lens.len() ==> #[trigger] lens[k] == lens[0]) {
        UmapPlan::Inconsistent
    } else {
        UmapPlan::Fit {
            n_neighbors: if lens.len() - 1 < 15 {
                (lens.len() - 1) as usize
            } else {
                15
            },
        }
    }
}

/// Decide how to run UMAP on rows of lengths `row_lengths` to `dim`
/// dimensions.
pub fn plan_umap(row_lengths: &Vec<usize>, dim: usize) -> (r: UmapPlan)
    ensures
        r == umap_plan_spec(row_lengths@, dim as int),
{
    let n = row_lengths.len();
    if n < 2 || dim < 1 {
        return UmapPlan::Skip;
    }
    let feat = row_lengths[0];
    if feat == 0 {
        return UmapPlan::Skip;
    }
    let mut k: usize = 0;
    while k < n
        invariant
            k <= n,
            n == row_lengths.len(),
            feat == row_lengths@[0],
            feat != 0,
            n >= 2,
            dim >= 1,
            forall|t: int| 0 <= t < k ==> row_lengths@[t] == feat,
        decreases n - k,
    {
        if row_lengths[k] != feat {
            assert(row_lengths@[k as int] != row_lengths@[0]);
            return UmapPlan::Inconsistent;
        }
        k = k + 1;
    }
    let nn = if n - 1 < 15 { n - 1 } else { 15 };
    UmapPlan::Fit { n_neighbors: nn }
}

} // verus!
