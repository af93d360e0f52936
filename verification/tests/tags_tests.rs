use dj_music_suite::tags::{identity, normalize, primary_artist, TrackMeta};

#[test]
fn normalize_collapses_whitespace_and_case() {
    assert_eq!(normalize("  ARTMS   burn "), "artms burn");
    assert_eq!(normalize("Foo\tBar"), "foo bar");
}

#[test]
fn identity_needs_both_parts() {
    let no_title = TrackMeta {
        artist: Some("A".into()),
        album_artist: None,
        primary_artist: None,
        title: None,
        album: None,
        duration: None,
    };
    assert!(identity(&no_title).is_none());
    let both = TrackMeta {
        artist: Some(" A  B ".into()),
        album_artist: None,
        primary_artist: None,
        title: Some("c d".into()),
        album: None,
        duration: None,
    };
    assert_eq!(identity(&both), Some(("a b".into(), "c d".into())));
}

#[test]
fn primary_artist_prefers_album_artist() {
    assert_eq!(
        primary_artist(Some("Ahadadream"), Some("Ahadadream/Skrillex")),
        Some("Ahadadream".into())
    );
}

#[test]
fn primary_artist_falls_back_to_first_of_list() {
    assert_eq!(
        primary_artist(None, Some("Armin Van Buuren/W&W")),
        Some("Armin Van Buuren".into())
    );
    assert_eq!(primary_artist(None, Some(" A 、B ")), Some("A".into()));
    assert_eq!(primary_artist(None, Some("Solo")), Some("Solo".into()));
    assert_eq!(primary_artist(None, None), None);
}

#[test]
fn primary_artist_ignores_various_artists() {
    assert_eq!(
        primary_artist(Some("Various Artists"), Some("Ida Engberg/David West")),
        Some("Ida Engberg".into())
    );
    assert_eq!(primary_artist(Some("Various Artists"), None), None);
}

#[test]
fn normalize_is_idempotent_on_examples() {
    for s in ["  ARTMS   burn ", "Foo\tBar", "", "   ", "Ünïcode  X"] {
        let once = normalize(s);
        assert_eq!(normalize(&once), once);
    }
    assert_eq!(normalize("   "), "");
}

#[test]
fn identity_of_blank_values_is_none() {
    let blank = TrackMeta {
        artist: Some("   ".into()),
        album_artist: None,
        primary_artist: None,
        title: Some("T".into()),
        album: None,
        duration: None,
    };
    assert!(identity(&blank).is_none());
}

#[test]
fn from_tags_trims_and_derives_primary_artist() {
    let m = TrackMeta::from_tags(
        Some(" Armin Van Buuren/W&W ".to_string()),
        Some("  ".to_string()),
        Some(" Title ".to_string()),
        None,
        200,
        5,
    );
    assert_eq!(m.artist.as_deref(), Some("Armin Van Buuren/W&W"));
    assert_eq!(m.album_artist, None);
    assert_eq!(m.primary_artist.as_deref(), Some("Armin Van Buuren"));
    assert_eq!(m.title.as_deref(), Some("Title"));
    assert_eq!(m.duration, Some(200));
    let zero = TrackMeta::from_tags(None, None, None, None, 0, 0);
    assert_eq!(zero.duration, None);
    let short = TrackMeta::from_tags(None, None, None, None, 0, 1);
    assert_eq!(short.duration, Some(0));
}
