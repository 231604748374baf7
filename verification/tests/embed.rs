use caption_core::download::DownloadProgress;
use caption_core::embed::{
    is_wav_extension, media_path_for, mix_down, normalize_path, plan_umap, segment_audio, slice_samples,
    MediaPathError, SegmentAudio, UmapPlan,
};

#[test]
fn normalize_resolves_dots() {
    assert_eq!(normalize_path("/a/b/../c/./d"), "/a/c/d");
    assert_eq!(normalize_path("../x"), "../x");
    assert_eq!(normalize_path("a/../../b"), "../b");
    assert_eq!(normalize_path("../../media/a.wav"), "../../media/a.wav");
    assert_eq!(normalize_path("a/.."), "");
    assert_eq!(normalize_path("/.."), "/");
    assert_eq!(normalize_path("a//b/"), "a/b");
}

#[test]
fn media_path_relative_to_captions() {
    assert_eq!(
        media_path_for("/tmp/caps/file.captions_json5", Some("../media/a.wav")),
        Ok("/tmp/media/a.wav".to_string())
    );
    assert_eq!(media_path_for("file.captions_json5", Some("a.wav")), Ok("a.wav".to_string()));
    assert_eq!(
        media_path_for("caps/file.captions_json5", Some("../../media/a.wav")),
        Ok("../media/a.wav".to_string())
    );
    assert_eq!(media_path_for("x", None), Err(MediaPathError::MissingMediaPath));
}

#[test]
fn wav_extensions() {
    assert!(is_wav_extension(Some("WAV")));
    assert!(is_wav_extension(Some("wave")));
    assert!(!is_wav_extension(Some("mp3")));
    assert!(!is_wav_extension(Some("wavs")));
    assert!(!is_wav_extension(None));
}

#[test]
fn mix_down_averages_frames() {
    assert_eq!(mix_down(vec![1, 3, -1, -2, 5], 2), vec![2, -1, 2]);
    assert_eq!(mix_down(vec![1, 2, 3], 1), vec![1, 2, 3]);
    assert_eq!(mix_down(vec![-32768, -32768], 2), vec![-32768]);
    assert_eq!(mix_down(vec![], 3), Vec::<i16>::new());
}

#[test]
fn slice_by_time() {
    let samples: Vec<i16> = (0..100).collect();
    // 100 samples per second: 0.25 s .. 0.5 s is indices 25..50
    assert_eq!(slice_samples(&samples, 100, 250_000, 500_000), (25..50).collect::<Vec<i16>>());
    // rounding to nearest, halves up
    assert_eq!(slice_samples(&samples, 100, 5_000, 24_999), (1..2).collect::<Vec<i16>>());
    // clamped at both ends
    assert_eq!(slice_samples(&samples, 100, -1_000_000, 2_000_000), samples);
    assert!(slice_samples(&samples, 100, 600_000, 500_000).is_empty());
}

#[test]
fn umap_plans() {
    assert_eq!(plan_umap(&vec![4], 2), UmapPlan::Skip);
    assert_eq!(plan_umap(&vec![4, 4], 0), UmapPlan::Skip);
    assert_eq!(plan_umap(&vec![0, 0], 2), UmapPlan::Skip);
    assert_eq!(plan_umap(&vec![4, 3], 2), UmapPlan::Inconsistent);
    assert_eq!(plan_umap(&vec![4, 4, 4], 1), UmapPlan::Fit { n_neighbors: 2 });
    assert_eq!(plan_umap(&vec![4; 40], 2), UmapPlan::Fit { n_neighbors: 15 });
}

#[test]
fn progress_throttle() {
    let mut p = DownloadProgress::new();
    assert!(p.init(1000));
    assert!(!p.init(1000));
    assert_eq!(p.update(30, 5000), None); // 3 %
    assert_eq!(p.update(30, 5000), Some(6)); // 6 %
    assert_eq!(p.update(100, 1500), None); // 16 % but too soon
    assert_eq!(p.update(0, 2000), Some(16));
    assert_eq!(p.current, 160);
    let mut empty = DownloadProgress::new();
    empty.init(0);
    assert_eq!(empty.update(10, 2000), None);
}

#[test]
fn segment_audio_cases() {
    let samples: Vec<i16> = (0..100).collect();
    assert_eq!(segment_audio(&samples, 100, 0, 200_000, 300_000), SegmentAudio::TooShort);
    assert_eq!(segment_audio(&samples, 100, 2_000_000, 2_500_000, 300_000), SegmentAudio::Empty);
    assert_eq!(segment_audio(&samples, 100, 100_000, 500_000, 300_000), SegmentAudio::Samples((10..50).collect()));
}
