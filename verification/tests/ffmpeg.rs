use caption_core::ffmpeg::{ffmpeg_candidate_paths, resolve_ffmpeg_from, select_ffmpeg, BundledFfmpegNotFound};
use tempfile::tempdir;

fn make_file_named(dir: &std::path::Path, name: &str) -> tempfile::NamedTempFile {
    tempfile::Builder::new()
        .prefix(name)
        .suffix("")
        .rand_bytes(0)
        .tempfile_in(dir)
        .unwrap()
}

#[test]
fn env_override_must_exist_on_disk() {
    let dir = tempdir().unwrap();
    let fake_file = make_file_named(dir.path(), "ffmpeg");
    let fake = dir.path().join("ffmpeg");
    assert_eq!(fake_file.path(), fake.as_path());
    let got = resolve_ffmpeg_from(None, Some(fake.to_str().unwrap())).unwrap();
    assert_eq!(got, fake.to_str().unwrap());
}

#[test]
fn sibling_next_to_exe_parent() {
    let dir = tempdir().unwrap();
    let _fake_file = make_file_named(dir.path(), "ffmpeg");
    let fake = dir.path().join("ffmpeg");
    let got = resolve_ffmpeg_from(Some(dir.path().to_str().unwrap()), None).unwrap();
    assert_eq!(got, fake.to_str().unwrap());
}

#[test]
fn fails_when_nothing_bundled() {
    let dir = tempdir().unwrap();
    assert!(resolve_ffmpeg_from(Some(dir.path().to_str().unwrap()), None).is_err());
    assert!(resolve_ffmpeg_from(None, None).is_err());
}

#[test]
fn ignores_empty_env() {
    let dir = tempdir().unwrap();
    assert!(resolve_ffmpeg_from(Some(dir.path().to_str().unwrap()), Some("   ")).is_err());
}

#[test]
fn env_override_is_trimmed_and_preferred() {
    let dir = tempdir().unwrap();
    let _a = make_file_named(dir.path(), "ffmpeg");
    let other = tempdir().unwrap();
    let _b = make_file_named(other.path(), "ffmpeg");
    let env = format!("  {}  ", other.path().join("ffmpeg").to_str().unwrap());
    let got = resolve_ffmpeg_from(Some(dir.path().to_str().unwrap()), Some(&env)).unwrap();
    assert_eq!(got, other.path().join("ffmpeg").to_str().unwrap());
}

#[test]
fn exe_suffix_is_second_choice() {
    let dir = tempdir().unwrap();
    let _a = make_file_named(dir.path(), "ffmpeg.exe");
    let got = resolve_ffmpeg_from(Some(dir.path().to_str().unwrap()), None).unwrap();
    assert_eq!(got, dir.path().join("ffmpeg.exe").to_str().unwrap());
}

#[test]
fn candidates_in_probe_order() {
    let c = ffmpeg_candidate_paths(Some("/opt/app"), Some(" /x/ffmpeg "));
    assert_eq!(c, vec!["/x/ffmpeg".to_string(), "/opt/app/ffmpeg".to_string(), "/opt/app/ffmpeg.exe".to_string()]);
    let c = ffmpeg_candidate_paths(Some("/opt/app/"), None);
    assert_eq!(c, vec!["/opt/app/ffmpeg".to_string(), "/opt/app/ffmpeg.exe".to_string()]);
    assert!(ffmpeg_candidate_paths(None, None).is_empty());
}

#[test]
fn select_takes_first_found() {
    let c = vec!["a".to_string(), "b".to_string(), "c".to_string()];
    assert_eq!(select_ffmpeg(&c, &vec![false, true, true]), Ok("b".to_string()));
    assert_eq!(select_ffmpeg(&c, &vec![false, false, false]), Err(BundledFfmpegNotFound));
    assert!(BundledFfmpegNotFound.message().contains("CAPTION_EDITOR_FFMPEG"));
}
