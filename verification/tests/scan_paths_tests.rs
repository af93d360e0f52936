use dj_music_suite::paths::{
    extension, file_name, file_stem, join, parents_equal, path_before, path_components,
    path_is_absolute, paths_equal, starts_with,
};
use dj_music_suite::scan::{is_audio, is_hidden, select_audio, sort_paths};
use dj_music_suite::text::replace_text;

#[test]
fn audio_files_by_extension() {
    for p in ["/a/b.mp3", "x.FLAC", "y.M4a", "z.aac", "w.wav", "v.aiff", "u.AIF"] {
        assert!(is_audio(p), "{p}");
    }
    for p in ["/a/b.ogg", "noext", "/a/.mp3", "/a/b.mp3/..", "cover.jpg"] {
        assert!(!is_audio(p), "{p}");
    }
}

#[test]
fn hidden_entries_start_with_a_dot() {
    assert!(is_hidden(".dedup-trash"));
    assert!(is_hidden(".DS_Store"));
    assert!(!is_hidden("Music"));
    assert!(!is_hidden(""));
}

#[test]
fn scan_name_falls_back_to_question_mark() {
    assert_eq!(dj_music_suite::scan::file_name("/a/b/song.mp3"), "song.mp3");
    assert_eq!(dj_music_suite::scan::file_name("/"), "?");
    assert_eq!(dj_music_suite::scan::file_name("a/.."), "?");
}

#[test]
fn scan_keeps_audio_in_path_order() {
    let walked = vec![
        "/l/b/z.mp3".to_string(),
        "/l/a.txt".to_string(),
        "/l/a.flac".to_string(),
        "/l/b.mp3".to_string(),
        "/l/B/x.wav".to_string(),
    ];
    let r = select_audio(walked);
    assert_eq!(r, vec!["/l/B/x.wav", "/l/a.flac", "/l/b/z.mp3", "/l/b.mp3"]);
    // components compare one by one: "b" < "b.mp3"
    assert_eq!(sort_paths(vec!["/l/b.mp3".into(), "/l/b/z.mp3".into()]), vec!["/l/b/z.mp3", "/l/b.mp3"]);
}

#[test]
fn paths_behave_like_std_path() {
    assert_eq!(join("/root", "Artist"), "/root/Artist");
    assert_eq!(join("/root/", "Artist"), "/root/Artist");
    assert_eq!(join("/root", "/abs"), "/abs");
    assert_eq!(join("", "x"), "x");
    assert_eq!(file_name("/a/b.mp3").as_deref(), Some("b.mp3"));
    assert_eq!(file_name("/a/b/").as_deref(), Some("b"));
    assert_eq!(file_name("/"), None);
    assert_eq!(extension("/a/b.tar.gz").as_deref(), Some("gz"));
    assert_eq!(extension("/a/.hidden"), None);
    assert_eq!(file_stem("/a/b.tar.gz").as_deref(), Some("b.tar"));
    assert!(paths_equal("/a//b/./c", "/a/b/c"));
    assert!(!paths_equal("a/b", "/a/b"));
    assert!(parents_equal("/a/x.mp3", "/a/y.mp3"));
    assert!(!parents_equal("/a/x.mp3", "/b/x.mp3"));
    assert!(starts_with("/l/.dedup-trash/x.mp3", "/l/.dedup-trash"));
    assert!(!starts_with("/l/.dedup-trashy/x.mp3", "/l/.dedup-trash"));
    assert!(path_is_absolute("/x"));
    assert!(!path_is_absolute("x"));
    let cs: Vec<String> = path_components("/a//b/./c/")
        .into_iter()
        .map(|v| v.into_iter().collect())
        .collect();
    assert_eq!(cs, vec!["a", "b", "c"]);
    assert!(path_before("/a/b", "/a/c"));
    assert!(path_before("/z", "a"));
    assert!(!path_before("/a/c", "/a/b"));
}

#[test]
fn replace_text_matches_str_replace() {
    for (s, p, r) in [
        ("/tmp/staging/abc/x.mp3 -> /tmp/staging/abc/y", "/tmp/staging/abc", "~"),
        ("aaaa", "aa", "b"),
        ("abc", "", "~"),
        ("", "", "~"),
        ("no match", "zz", "~"),
    ] {
        assert_eq!(replace_text(s, p, r), s.replace(p, r), "{s} / {p}");
    }
}
