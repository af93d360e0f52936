use dj_music_suite::import::{
    classify_item, count_actionable, is_actionable, placement, target_of, Disposition, ImportItem,
    ImportSummary, Index, LibEntry, Placement, DUPLICATE_DELTA_SECS,
};
use dj_music_suite::tags::TrackMeta;
use dj_music_suite::target::render_target;
use dj_music_suite::template::Template;

const LIB: &str = "/music/lib";
const STAGING: &str = "/music/in";

/// The library of the scenarios: `exists.mp3` tagged A / T, about 2 s long.
fn setup() -> (Template, Index) {
    let mut index = Index::new();
    index.push(
        ("a".to_string(), "t".to_string()),
        LibEntry {
            path: format!("{LIB}/exists.mp3"),
            duration_secs: Some(2),
        },
    );
    (Template::parse("{filename}.{ext}").unwrap(), index)
}

fn meta(artist: &str, title: &str, secs: u64) -> TrackMeta {
    TrackMeta::from_tags(
        Some(artist.to_string()),
        None,
        Some(title.to_string()),
        None,
        secs,
        500_000_000,
    )
}

/// Classify `src` as the analysis does: render its target under the library
/// root, note whether something occupies it, and consult the index.
fn classify(
    src: &str,
    m: Option<&TrackMeta>,
    template: &Template,
    index: &mut Index,
    occupied: &[&str],
) -> ImportItem {
    let target = render_target(LIB, template, src, m);
    let exists = match &target {
        Ok(t) => occupied.contains(&t.as_str()),
        Err(_) => false,
    };
    classify_item(src, target, exists, m, index)
}

#[test]
fn import_new_duplicate_and_conflict() {
    let (template, mut index) = setup();
    let occupied = [format!("{LIB}/exists.mp3")];
    let occupied: Vec<&str> = occupied.iter().map(|s| s.as_str()).collect();
    // scan order: exists.mp3, other.mp3, same.mp3
    let exists = classify(&format!("{STAGING}/exists.mp3"), Some(&meta("A", "T", 2)), &template, &mut index, &occupied);
    let other = classify(&format!("{STAGING}/other.mp3"), Some(&meta("A", "T2", 2)), &template, &mut index, &occupied);
    let same = classify(&format!("{STAGING}/same.mp3"), Some(&meta("A", "T", 2)), &template, &mut index, &occupied);
    assert_eq!(same.disposition, Disposition::Duplicate);
    assert_eq!(other.disposition, Disposition::New);
    assert_eq!(exists.disposition, Disposition::Conflict);
}

#[test]
fn import_different_duration_is_alt_version() {
    let (template, mut index) = setup();
    let item = classify(&format!("{STAGING}/extended-mix.mp3"), Some(&meta("A", "T", 7)), &template, &mut index, &[]);
    assert_eq!(item.disposition, Disposition::AltVersion);
    assert!(item.note.as_deref().unwrap().contains("alternate version"));
}

#[test]
fn import_untagged_is_skipped() {
    let (_template, mut index) = setup();
    // this template needs the artist tag, which the junk file lacks
    let template = Template::parse("{artist}/{filename}.{ext}").unwrap();
    let item = classify(&format!("{STAGING}/junk.mp3"), None, &template, &mut index, &[]);
    assert_eq!(item.disposition, Disposition::Untagged);
}

#[test]
fn import_batch_internal_duplicates_are_caught() {
    let (template, mut index) = setup();
    // a fresh artist: the first file is New, the second one dedupes against
    // the first's projected import
    let a = classify(&format!("{STAGING}/a-copy.mp3"), Some(&meta("Z", "T", 2)), &template, &mut index, &[]);
    let b = classify(&format!("{STAGING}/b-copy.mp3"), Some(&meta("Z", "T", 2)), &template, &mut index, &[]);
    let kinds = vec![a.disposition, b.disposition];
    assert_eq!(kinds, vec![Disposition::New, Disposition::Duplicate]);
    // the duplicate points at the first file's projected target
    assert_eq!(b.replace, a.dst);
    assert_eq!(b.replace.as_deref(), Some("/music/lib/a-copy.mp3"));
}

#[test]
fn import_move_execution_then_rerun_conflicts() {
    let (template, mut index) = setup();
    let src = format!("{STAGING}/fresh.mp3");
    let item = classify(&src, Some(&meta("B", "T", 2)), &template, &mut index, &[]);
    assert_eq!(item.disposition, Disposition::New);
    let dst = item.dst.clone().unwrap();
    assert_eq!(dst, format!("{LIB}/fresh.mp3"));
    match placement(&item, false, false) {
        Placement::Place { target, replaces } => {
            assert_eq!(target, dst);
            assert!(!replaces);
        }
        _ => panic!("a new file is placed"),
    }
    let mut summary = ImportSummary::new();
    summary.record(true, false);
    assert_eq!(summary, ImportSummary { placed: 1, failed: 0 });
    assert_eq!(summary.exit_code(), 0);

    // re-importing the placed file now hits the conflict branch
    let rerun = classify(&dst, Some(&meta("B", "T", 2)), &template, &mut index, &[dst.as_str()]);
    assert_eq!(rerun.disposition, Disposition::Conflict);
    assert!(matches!(placement(&rerun, true, true), Placement::AlreadyInLibrary));
    assert!(matches!(placement(&rerun, false, true), Placement::NotActionable));
}

#[test]
fn conflict_overwrite_replaces_target() {
    let (template, mut index) = setup();
    let lib_file = format!("{LIB}/exists.mp3");
    let item = classify(&format!("{STAGING}/exists.mp3"), Some(&meta("A", "T", 7)), &template, &mut index, &[lib_file.as_str()]);
    assert_eq!(item.disposition, Disposition::Conflict);
    assert!(is_actionable(item.disposition, true));
    assert!(!is_actionable(item.disposition, false));
    match placement(&item, true, true) {
        Placement::Place { target, replaces } => {
            assert_eq!(target, lib_file);
            assert!(replaces);
        }
        _ => panic!("a conflict is placed onto its target when overwriting"),
    }
}

#[test]
fn duplicate_overwrite_replaces_matched_library_file() {
    let (template, mut index) = setup();
    let item = classify(&format!("{STAGING}/renamed.mp3"), Some(&meta("A", "T", 2)), &template, &mut index, &[]);
    assert_eq!(item.disposition, Disposition::Duplicate);
    let matched = item.replace.clone().unwrap();
    assert_eq!(matched, format!("{LIB}/exists.mp3"));
    assert_eq!(target_of(&item), Some(matched.clone()));
    match placement(&item, true, true) {
        Placement::Place { target, replaces } => {
            // the library keeps its path: the matched file is replaced, no
            // copy under the incoming name
            assert_eq!(target, matched);
            assert!(replaces);
        }
        _ => panic!("a duplicate replaces the matched file when overwriting"),
    }
}

#[test]
fn self_import_is_skipped_not_corrupted() {
    let (template, mut index) = setup();
    let lib_file = format!("{LIB}/exists.mp3");
    let item = classify(&lib_file, Some(&meta("A", "T", 2)), &template, &mut index, &[lib_file.as_str()]);
    assert_eq!(item.disposition, Disposition::Conflict);
    assert!(matches!(placement(&item, true, true), Placement::AlreadyInLibrary));
    let summary = ImportSummary::new();
    assert_eq!(summary, ImportSummary { placed: 0, failed: 0 });
}

#[test]
fn import_notes_describe_the_match() {
    let (template, mut index) = setup();
    let dup = classify(&format!("{STAGING}/same.mp3"), Some(&meta("A", "T", 3)), &template, &mut index, &[]);
    assert_eq!(
        dup.note.as_deref(),
        Some("library already has /music/lib/exists.mp3 (0:02)")
    );
    let alt = classify(&format!("{STAGING}/long.mp3"), Some(&meta("A", "T", 65)), &template, &mut index, &[]);
    assert_eq!(
        alt.note.as_deref(),
        Some("library has /music/lib/exists.mp3 (0:02), duration differs; importing as alternate version")
    );
    let conflict = classify(&format!("{STAGING}/x.mp3"), None, &template, &mut index, &["/music/lib/x.mp3"]);
    assert_eq!(
        conflict.note.as_deref(),
        Some("target already exists (imported before?)")
    );
}

#[test]
fn import_duration_tolerance_edges() {
    // within the delta on both sides is a duplicate, one more is not
    assert_eq!(DUPLICATE_DELTA_SECS, 3);
    for (secs, expected) in [(5, Disposition::Duplicate), (6, Disposition::AltVersion), (0, Disposition::Duplicate)] {
        let (template, mut index) = setup();
        let item = classify(&format!("{STAGING}/s.mp3"), Some(&meta("A", "T", secs)), &template, &mut index, &[]);
        assert_eq!(item.disposition, expected, "{secs} s");
    }
    // an unknown duration never masks a duplicate
    let (template, mut index) = setup();
    let unknown = TrackMeta::from_tags(Some("A".into()), None, Some("T".into()), None, 0, 0);
    let item = classify(&format!("{STAGING}/u.mp3"), Some(&unknown), &template, &mut index, &[]);
    assert_eq!(item.disposition, Disposition::Duplicate);
}

#[test]
fn import_index_grows_only_with_new_files() {
    let (template, mut index) = setup();
    assert_eq!(index.len(), 1);
    classify(&format!("{STAGING}/dup.mp3"), Some(&meta("A", "T", 2)), &template, &mut index, &[]);
    assert_eq!(index.len(), 1);
    classify(&format!("{STAGING}/new.mp3"), Some(&meta("N", "T", 2)), &template, &mut index, &[]);
    assert_eq!(index.len(), 2);
    let mut idx = Index::new();
    idx.add_track("/music/lib/a.mp3", Some(&meta("Q", "R", 1)));
    idx.add_track("/music/lib/b.mp3", None);
    assert_eq!(idx.len(), 1);
}

#[test]
fn import_summary_counts_outcomes() {
    let mut s = ImportSummary::new();
    s.record(true, false);
    s.record(false, false);
    s.record(true, true);
    assert_eq!(s, ImportSummary { placed: 2, failed: 2 });
    assert_eq!(s.exit_code(), 1);
}

#[test]
fn import_actionable_items_are_counted() {
    let item = |d: Disposition| ImportItem {
        src: "/in/x.mp3".to_string(),
        dst: Some("/lib/x.mp3".to_string()),
        replace: None,
        disposition: d,
        note: None,
    };
    let items = vec![
        item(Disposition::New),
        item(Disposition::AltVersion),
        item(Disposition::Duplicate),
        item(Disposition::Conflict),
        item(Disposition::Untagged),
    ];
    assert_eq!(count_actionable(&items, false), 2);
    assert_eq!(count_actionable(&items, true), 4);
    let mut no_target = item(Disposition::Duplicate);
    no_target.replace = None;
    assert!(matches!(placement(&no_target, true, false), Placement::NoTarget));
    assert_eq!(target_of(&no_target), None);
}

#[test]
fn occupied_target_is_skipped_without_overwrite() {
    // two files named alike in different input folders, same artist: both
    // render to one target; the first is placed, the second finds it taken
    let (_, mut index) = setup();
    let template = Template::parse("{artist}/{filename}.{ext}").unwrap();
    let a = classify(&format!("{STAGING}/one/x.mp3"), Some(&meta("Art", "First", 2)), &template, &mut index, &[]);
    let b = classify(&format!("{STAGING}/two/x.mp3"), Some(&meta("Art", "Second", 60)), &template, &mut index, &[]);
    assert_eq!(a.disposition, Disposition::New);
    assert_eq!(b.disposition, Disposition::New);
    assert_eq!(a.dst, b.dst);
    assert_eq!(target_of(&b), b.dst.clone());
    assert!(matches!(placement(&a, false, false), Placement::Place { .. }));
    assert!(matches!(placement(&b, false, true), Placement::TargetTaken));
    // overwrite does not let a new file replace another one
    assert!(matches!(placement(&b, true, true), Placement::TargetTaken));
    // a conflict replaces its occupied target only under overwrite
    let mut c = b;
    c.disposition = Disposition::Conflict;
    assert!(matches!(placement(&c, false, true), Placement::NotActionable));
    match placement(&c, true, true) {
        Placement::Place { target, replaces } => {
            assert_eq!(Some(target), a.dst);
            assert!(replaces);
        }
        _ => panic!("a conflict is placed under overwrite"),
    }
}
