use dj_music_suite::quality::{format_rank, Quality, TagSummary};

#[test]
fn lossless_format_beats_higher_bitrate_lossy() {
    // 320kbps mp3 must not outrank any flac, whatever the other knobs say
    let flac_low = Quality::new("flac", Some(800), Some(44100), Some(16), false, false, false);
    let mp3_max = Quality::new("mp3", Some(320), Some(48000), None, true, true, true);
    assert!(flac_low.score > mp3_max.score);
}

#[test]
fn cover_wins_within_same_format_and_bitrate() {
    let with = Quality::new("mp3", Some(320), Some(44100), None, true, false, true);
    let without = Quality::new("mp3", Some(320), Some(44100), None, false, true, true);
    assert!(with.score > without.score);
}

#[test]
fn lyrics_rank_below_cover() {
    let cover = Quality::new("mp3", Some(320), Some(44100), None, true, false, false);
    let lyrics = Quality::new("mp3", Some(320), Some(44100), None, false, true, false);
    assert!(cover.score > lyrics.score);
}

#[test]
fn bitrate_buckets_in_32kbps_steps() {
    let a = Quality::new("mp3", Some(320), Some(44100), None, false, false, false);
    let b = Quality::new("mp3", Some(321), Some(44100), None, false, false, false);
    assert_eq!(a.score, b.score, "321kbps buckets to the same as 320");
    // within one bucket, cover outranks lyrics + tag completeness
    let cover = Quality::new("mp3", Some(320), Some(44100), None, true, false, false);
    let minor_flags = Quality::new("mp3", Some(321), Some(44100), None, false, true, true);
    assert!(cover.score > minor_flags.score);
}

#[test]
fn unknown_ext_still_scores_zero_rank() {
    let q = Quality::new("xyz", None, None, None, false, false, false);
    assert_eq!(q.format_rank, 0);
    assert_eq!(q.score, 0);
}

#[test]
fn score_formula_exact_value() {
    // flac (6), 1411 kbps -> bucket 44, 44.1 kHz -> 44, 16 bits, cover,
    // lyrics, complete tags
    let q = Quality::new("FLAC", Some(1411), Some(44100), Some(16), true, true, true);
    assert_eq!(q.format_rank, 6);
    assert_eq!(
        q.score,
        6 * 10_000_000_000 + 44 * 10_000_000 + 44 * 10_000 + 16 * 100 + 10 + 5 + 2
    );
    // caps: bitrate at 2000 kbps, sample rate at 199 kHz, depth at 64
    let capped = Quality::new("wav", Some(u32::MAX), Some(u32::MAX), Some(u32::MAX), false, false, false);
    assert_eq!(capped.score, 5 * 10_000_000_000 + 62 * 10_000_000 + 199 * 10_000 + 64 * 100);
}

#[test]
fn format_ranks_in_order() {
    assert_eq!(format_rank("flac"), 6);
    assert_eq!(format_rank("WAV"), 5);
    assert_eq!(format_rank("aiff"), 4);
    assert_eq!(format_rank("aif"), 4);
    assert_eq!(format_rank("m4a"), 3);
    assert_eq!(format_rank("aac"), 2);
    assert_eq!(format_rank("Mp3"), 1);
    assert_eq!(format_rank("ogg"), 0);
}

#[test]
fn probe_readings_become_quality() {
    let tag = TagSummary {
        picture_count: 1,
        lyrics: Some("  la la ".to_string()),
        artist: Some("A".to_string()),
        title: Some("T".to_string()),
        album: Some("   ".to_string()),
    };
    let q = Quality::from_probe("mp3", Some(0), Some(44100), Some(0), Some(&tag));
    assert_eq!(q.bitrate, None);
    assert_eq!(q.sample_rate, Some(44100));
    assert_eq!(q.bits_per_sample, None);
    assert!(q.has_cover);
    assert!(q.has_lyrics);
    assert!(!q.tags_complete);
    let bare = Quality::from_probe("mp3", Some(320), None, None, None);
    assert!(!bare.has_cover && !bare.has_lyrics && !bare.tags_complete);
    assert_eq!(bare.score, 10_000_000_000 + 10 * 10_000_000);
}
