//! Resolution of the bundled `ffmpeg` executable: never the one on the
//! search path, only the one named by the override variable or the one
//! next to the running program.
use vstd::prelude::*;
use vstd::string::*;
use crate::text::{trim, trim_str};

verus! {

/// The bundled ffmpeg was not found at the expected locations.
#[derive(Debug, Clone, Copy, PartialEq, Eq, Structural)]
pub struct BundledFfmpegNotFound;

impl BundledFfmpegNotFound {
    /// The message to report: where the bundled ffmpeg was looked for and
    /// how to provide it.
    pub fn message(&self) -> (r: String)
        ensures
            r@ == "bundled ffmpeg not found — expected 'ffmpeg' next to this program (run `npm run build:ffmpeg`) or set CAPTION_EDITOR_FFMPEG to the packaged binary"@,
    {
        String::from_str(
            "bundled ffmpeg not found — expected 'ffmpeg' next to this program (run `npm run build:ffmpeg`) or set CAPTION_EDITOR_FFMPEG to the packaged binary",
        )
    }
}

/// `Path::new(parent).join(name)`, as text.
pub uninterp spec fn path_join(parent: Seq<char>, name: Seq<char>) -> Seq<char>;

/// `std::path::Path::join`. Both arguments are UTF-8, so the joined path
/// is too and converts to a `String` without loss. The contract names the
/// result; it does not restate the platform's separator rules.
#[verifier::external_body]
pub(crate) fn join_path(parent: &str, name: &str) -> (r: String)
    ensures
        r@ == path_join(parent@, name@),
{
    std::path::Path::new(parent).join(name).to_string_lossy().into_owned()
}

/// `std::path::Path::is_file`. What it returns depends on the file system
/// at the time of the call, so nothing is stated of it.
#[verifier::external_body]
fn path_is_file(p: &str) -> (b: bool) {
    std::path::Path::new(p).is_file()
}

pub open spec fn ffmpeg_name() -> Seq<char> {
    seq!['f', 'f', 'm', 'p', 'e', 'g']
}

pub open spec fn ffmpeg_exe_name() -> Seq<char> {
    seq!['f', 'f', 'm', 'p', 'e', 'g', '.', 'e', 'x', 'e']
}

/// The places probed, in order: the trimmed override, then `ffmpeg` and
/// `ffmpeg.exe` in the program's directory.
pub open spec fn ffmpeg_candidates(exe_parent: Option<Seq<char>>, env_ffmpeg: Option<Seq<char>>) -> Seq<Seq<char>> {
    let from_env = match env_ffmpeg {
        Some(e) => seq![trim(e)],
        None => Seq::empty(),
    };
    let from_dir = match exe_parent {
        Some(p) => seq![path_join(p, ffmpeg_name()), path_join(p, ffmpeg_exe_name())],
        None => Seq::empty(),
    };
    from_env + from_dir
}

pub open spec fn opt_view(s: Option<&str>) -> Option<Seq<char>> {
    match s {
        Some(t) => Some(t@),
        None => None,
    }
}

/// The first candidate found to be a file, if any.
pub open spec fn first_found(candidates: Seq<Seq<char>>, found: Seq<bool>) -> Option<Seq<char>>
    decreases candidates.len(),
{
    if candidates.len() == 0 || found.len() == 0 {
        None
    } else if found[0] {
        Some(candidates[0])
    } else {
        first_found(candidates.drop_first(), found.drop_first())
    }
}

/// The candidate paths for `exe_parent` and `env_ffmpeg`, in probing order.
pub fn ffmpeg_candidate_paths(exe_parent: Option<&str>, env_ffmpeg: Option<&str>) -> (r: Vec<String>)
    ensures
        r@.map_values(|s: String| s@) == ffmpeg_candidates(opt_view(exe_parent), opt_view(env_ffmpeg)),
{
    let mut r: Vec<String> = Vec::new();
    match env_ffmpeg {
        Some(p) => {
            r.push(trim_str(p));
        },
        None => {},
    }
    match exe_parent {
        Some(parent) => {
            proof {
                reveal_strlit("ffmpeg");
                reveal_strlit("ffmpeg.exe");
                assert("ffmpeg"@ =~= ffmpeg_name());
                assert("ffmpeg.exe"@ =~= ffmpeg_exe_name());
            }
            r.push(join_path(parent, "ffmpeg"));
            r.push(join_path(parent, "ffmpeg.exe"));
        },
        None => {},
    }
    assert(r@.map_values(|s: String| s@) =~= ffmpeg_candidates(opt_view(exe_parent), opt_view(env_ffmpeg)));
    r
}

/// The first candidate marked as found, or `BundledFfmpegNotFound`.
pub fn select_ffmpeg(candidates: &Vec<String>, found: &Vec<bool>) -> (r: Result<String, BundledFfmpegNotFound>)
    ensures
        match first_found(candidates@.map_values(|s: String| s@), found@) {
            Some(p) => r matches Ok(q) && q@ == p,
            None => r is Err,
        },
{
    let ghost cv = candidates@.map_values(|s: String| s@);
    let mut i: usize = 0;
    assert(cv.skip(0) =~= cv);
    assert(found@.skip(0) =~= found@);
    while i < candidates.len() && i < found.len()
        invariant
            i <= candidates.len(),
            i <= found.len(),
            cv.len() == candidates.len(),
            cv == candidates@.map_values(|s: String| s@),
            first_found(cv, found@) == first_found(cv.skip(i as int), found@.skip(i as int)),
        decreases candidates.len() - i,
    {
        let ghost c = cv.skip(i as int);
        let ghost f = found@.skip(i as int);
        assert(c.drop_first() =~= cv.skip(i + 1));
        assert(f.drop_first() =~= found@.skip(i + 1));
        assert(c[0] == candidates@[i as int]@);
        if found[i] {
            return Ok(candidates[i].clone());
        }
        i = i + 1;
    }
    assert(cv.skip(i as int).len() == 0 || found@.skip(i as int).len() == 0);
    Err(BundledFfmpegNotFound)
}

/// Resolve the ffmpeg executable from the program's directory and the
/// override variable's value: the first of the candidates (see
/// `ffmpeg_candidates`) that is a file. With no candidate at all the
/// result is an error; which candidates are files the file system decides.
pub fn resolve_ffmpeg_from(exe_parent: Option<&str>, env_ffmpeg: Option<&str>) -> (r: Result<String, BundledFfmpegNotFound>)
    ensures
        exists|found: Seq<bool>|
            found.len() == ffmpeg_candidates(opt_view(exe_parent), opt_view(env_ffmpeg)).len() && match #[trigger] first_found(
                ffmpeg_candidates(opt_view(exe_parent), opt_view(env_ffmpeg)),
                found,
            ) {
                Some(p) => r matches Ok(q) && q@ == p,
                None => r is Err,
            },
{
    let candidates = ffmpeg_candidate_paths(exe_parent, env_ffmpeg);
    let ghost cv = candidates@.map_values(|s: String| s@);
    assert(cv.len() == candidates.len());
    let mut found: Vec<bool> = Vec::new();
    let mut hit = false;
    while found.len() < candidates.len() && !hit
        invariant
            found.len() <= candidates.len(),
            hit ==> found.len() > 0 && found@.last(),
            forall|k: int|
                0 <= k < found.len() && !(hit && k == found.len() - 1) ==> !#[trigger] found@[k],
        decreases candidates.len() - found.len(),
    {
        let f = path_is_file(candidates[found.len()].as_str());
        found.push(f);
        hit = f;
    }
    let r = select_ffmpeg(&candidates, &found);
    proof {
        let rest = Seq::new((cv.len() - found.len()) as nat, |k: int| false);
        let witness = found@ + rest;
        if hit {
            let i = found.len() - 1;
            assert(found@[i] == found@.last());
            assert forall|k: int| 0 <= k < i implies !#[trigger] witness[k] by {
                assert(witness[k] == found@[k]);
            }
            assert(witness[i]);
            lemma_first_found_at(cv, witness, i);
            lemma_first_found_at(cv, found@, i);
        } else {
            assert(witness =~= found@);
        }
        assert(witness.len() == cv.len());
        assert(first_found(cv, witness) == first_found(cv, found@));
    }
    r
}

proof fn lemma_first_found_at(c: Seq<Seq<char>>, f: Seq<bool>, i: int)
    requires
        0 <= i < c.len(),
        i < f.len(),
        forall|k: int| 0 <= k < i ==> !#[trigger] f[k],
        f[i],
    ensures
        first_found(c, f) == Some(c[i]),
    decreases i,
{
    if i > 0 {
        assert(!f[0]);
        assert forall|k: int| 0 <= k < i - 1 implies !#[trigger] f.drop_first()[k] by {
            assert(f.drop_first()[k] == f[k + 1]);
        }
        lemma_first_found_at(c.drop_first(), f.drop_first(), i - 1);
    }
}

} // verus!
