use dj_music_suite::cache::MeasureCache;
use dj_music_suite::dedup::{CachedFile, ScoreDetail};

fn score_detail(score: i64) -> ScoreDetail {
    ScoreDetail {
        format_rank: 1,
        bitrate: Some(320),
        sample_rate: Some(44100),
        bits_per_sample: None,
        has_cover: false,
        has_lyrics: false,
        tags_complete: true,
        score,
    }
}

fn cached(mtime: u64, size: u64, sha: &str) -> CachedFile {
    CachedFile { mtime_secs: mtime, size, sha256: sha.to_string(), score: score_detail(1) }
}

#[test]
fn cache_gives_back_what_was_cached() {
    let mut c = MeasureCache::new();
    assert_eq!(c.len(), 0);
    c.insert("/l/b.mp3".to_string(), cached(10, 100, "bb"));
    c.insert("/l/a.mp3".to_string(), cached(20, 200, "aa"));
    assert_eq!(c.len(), 2);
    let hit = c.lookup("/l/a.mp3", 20, 200).unwrap();
    assert_eq!(hit.sha256, "aa");
    // a changed file is measured again
    assert!(c.lookup("/l/a.mp3", 21, 200).is_none());
    assert!(c.lookup("/l/a.mp3", 20, 201).is_none());
    assert!(c.lookup("/l/c.mp3", 20, 200).is_none());
    assert_eq!(c.get("/l/b.mp3").unwrap().sha256, "bb");
}

#[test]
fn cache_replaces_and_keeps_path_order() {
    let mut c = MeasureCache::new();
    c.insert("/l/c.mp3".to_string(), cached(1, 1, "c1"));
    c.insert("/l/a.mp3".to_string(), cached(1, 1, "a1"));
    c.insert("/l/b.mp3".to_string(), cached(1, 1, "b1"));
    c.insert("/l/a.mp3".to_string(), cached(2, 2, "a2"));
    assert_eq!(c.len(), 3);
    let paths: Vec<String> = c.entries().into_iter().map(|(p, _)| p).collect();
    assert_eq!(paths, vec!["/l/a.mp3", "/l/b.mp3", "/l/c.mp3"]);
    assert_eq!(c.get("/l/a.mp3").unwrap().sha256, "a2");
    assert!(c.lookup("/l/a.mp3", 1, 1).is_none());
}
