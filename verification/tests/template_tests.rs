use dj_music_suite::template::{sanitize_component, Ph, RenderValues, Template};

fn vals<'a>() -> RenderValues<'a> {
    RenderValues {
        primary_artist: Some("ARTMS"),
        artist: Some("ARTMS"),
        title: Some("BURN"),
        album: None,
        filename: "old name",
        ext: "mp3",
    }
}

#[test]
fn parse_rejects_bad_templates() {
    assert!(Template::parse("").is_err());
    assert!(Template::parse("/abs").is_err());
    assert!(Template::parse("a//b").is_err());
    assert!(Template::parse("a/..").is_err());
    assert!(Template::parse("{nope}").is_err());
    assert!(Template::parse("{artist").is_err());
}

#[test]
fn render_artist_is_primary_artists_is_full_list() {
    let v = RenderValues {
        primary_artist: Some("Ahadadream"),
        artist: Some("Ahadadream/Skrillex/Raf Saperra"),
        title: Some("Bass Dhol"),
        album: None,
        filename: "x",
        ext: "mp3",
    };
    let t = Template::parse("{artists} - {title}.{ext}").unwrap();
    assert_eq!(
        t.render(&v).unwrap(),
        vec!["Ahadadream_Skrillex_Raf Saperra - Bass Dhol.mp3"]
    );
    let t = Template::parse("{artist} - {title}.{ext}").unwrap();
    assert_eq!(t.render(&v).unwrap(), vec!["Ahadadream - Bass Dhol.mp3"]);
}

#[test]
fn render_missing_artists_is_err() {
    let mut v = vals();
    v.artist = None;
    let t = Template::parse("{artists}.{ext}").unwrap();
    let err = t.render(&v).unwrap_err();
    assert!(err.contains("artists"));
}

#[test]
fn render_splits_and_keeps_literals() {
    let t = Template::parse("{artist}/{filename}.{ext}").unwrap();
    assert_eq!(t.render(&vals()).unwrap(), vec!["ARTMS", "old name.mp3"]);
    let t = Template::parse("{artist} - {title}.{ext}").unwrap();
    assert_eq!(t.render(&vals()).unwrap(), vec!["ARTMS - BURN.mp3"]);
}

#[test]
fn render_missing_tag_is_err() {
    let t = Template::parse("{artist}/{album}/{title}.{ext}").unwrap();
    let err = t.render(&vals()).unwrap_err();
    assert!(err.contains("album"));
}

#[test]
fn sanitize_replaces_illegal_characters() {
    assert_eq!(sanitize_component("a/b:c?d").as_deref(), Some("a_b_c_d"));
    assert_eq!(sanitize_component("  .. "), None);
    assert_eq!(sanitize_component(".hidden").as_deref(), Some("hidden"));
}

#[test]
fn placeholder_names_round_trip() {
    for name in ["artist", "artists", "title", "album", "filename", "ext"] {
        let ph = Ph::parse(name).unwrap();
        assert_eq!(ph.name(), name);
    }
    assert!(Ph::parse("nope").is_none());
    assert!(Ph::parse("Artist").is_none());
}

#[test]
fn parse_errors_name_the_problem() {
    let e = Template::parse("{nope}").err().unwrap();
    assert!(e.contains("nope"));
    let e = Template::parse("{artist").err().unwrap();
    assert!(e.contains("{artist"));
}

#[test]
fn sanitizing_twice_changes_nothing() {
    for raw in ["a/b:c?d", ".hidden", " x. ", "a\u{1}b", "plain"] {
        let once = sanitize_component(raw).unwrap();
        assert_eq!(sanitize_component(&once).as_deref(), Some(once.as_str()));
    }
}

#[test]
fn render_sanitizes_values_and_drops_nothing() {
    let v = RenderValues {
        primary_artist: Some("AC/DC"),
        artist: Some("AC/DC"),
        title: Some("T.N.T"),
        album: Some("High Voltage"),
        filename: "f",
        ext: "flac",
    };
    let t = Template::parse("{artist}/{album}/{title}.{ext}").unwrap();
    assert_eq!(t.render(&v).unwrap(), vec!["AC_DC", "High Voltage", "T.N.T.flac"]);
}
