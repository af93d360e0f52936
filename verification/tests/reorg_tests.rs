use dj_music_suite::reorg::{
    analyze, classify, count_ready, reorg_decide, reorg_step, template_arg, Plan, PlanEntry,
    ReorgDecision, ReorgOpts, ReorgStep, ReorgSummary, ScannedTrack,
};
use dj_music_suite::tags::TrackMeta;
use dj_music_suite::target::render_target;

const ROOT: &str = "/music/lib";

fn opts(template: &str) -> ReorgOpts {
    ReorgOpts {
        root: Some(ROOT.to_string()),
        template: template.to_string(),
        execute: false,
        from: None,
        allow_rename: false,
        plan: None,
    }
}

fn tagged(artist: &str, title: Option<&str>) -> Option<TrackMeta> {
    Some(TrackMeta::from_tags(
        Some(artist.to_string()),
        None,
        title.map(|t| t.to_string()),
        None,
        3,
        0,
    ))
}

/// The scan of a library holding `files` (sorted, as a scan yields them):
/// each rendered target is checked against the files present.
fn scan(template: &str, files: &[(&str, Option<TrackMeta>)]) -> Vec<ScannedTrack> {
    let t = template_arg(template).ok().unwrap();
    let present: Vec<String> = files.iter().map(|(p, _)| format!("{ROOT}/{p}")).collect();
    files
        .iter()
        .map(|(p, m)| {
            let path = format!("{ROOT}/{p}");
            let target_exists = match render_target(ROOT, &t, &path, m.as_ref()) {
                Ok(dst) => present.contains(&dst),
                Err(_) => false,
            };
            ScannedTrack {
                path,
                meta: m.as_ref().map(|x| TrackMeta {
                    artist: x.artist.clone(),
                    album_artist: x.album_artist.clone(),
                    primary_artist: x.primary_artist.clone(),
                    title: x.title.clone(),
                    album: x.album.clone(),
                    duration: x.duration,
                }),
                size: Some(1000),
                target_exists,
            }
        })
        .collect()
}

fn plan_for(template: &str, files: &[(&str, Option<TrackMeta>)]) -> Plan {
    analyze(&opts(template), ROOT, &scan(template, files)).ok().unwrap()
}

#[test]
fn reorg_untagged_file_is_flagged() {
    let plan = plan_for("{artist}/{filename}.{ext}", &[("song one.mp3", None)]);
    assert_eq!(plan.entries.len(), 1);
    assert_eq!(plan.entries[0].status, "untagged");
}

#[test]
fn reorg_tagged_file_is_classified_as_move() {
    let plan = plan_for("{artist}/{filename}.{ext}", &[("song.mp3", tagged("Artist", None))]);
    assert_eq!(plan.entries[0].status, "ready");
    assert_eq!(plan.entries[0].op, "move");
    let dst = plan.entries[0].dst.clone().unwrap();
    assert_eq!(dst, format!("{ROOT}/Artist/song.mp3"));
}

#[test]
fn reorg_occupied_target_is_conflict_and_same_path_is_in_place() {
    let plan = plan_for(
        "{artist}/{filename}.{ext}",
        &[
            ("Artist/song.mp3", tagged("Artist", None)),
            ("song.mp3", tagged("Artist", None)),
        ],
    );
    let statuses: Vec<&str> = plan.entries.iter().map(|e| e.status.as_str()).collect();
    assert!(statuses.contains(&"conflict"));
    assert!(statuses.contains(&"in-place"));
}

#[test]
fn reorg_rename_template_marks_renames() {
    let plan = plan_for(
        "{artist}/{artist} - {title}.{ext}",
        &[("Artist/song.mp3", tagged("Artist", Some("Title")))],
    );
    assert_eq!(plan.entries[0].op, "rename");
    assert_eq!(plan.entries[0].status, "ready");
}

#[test]
fn reorg_duplicate_identity_is_reported() {
    let plan = plan_for(
        "{artist}/{filename}.{ext}",
        &[
            ("a.mp3", tagged("Artist", Some("Same Song"))),
            ("b.mp3", tagged("Artist", Some("Same Song"))),
        ],
    );
    assert_eq!(plan.duplicates.len(), 1);
    assert_eq!(plan.duplicates[0].files.len(), 2);
    assert_eq!(plan.duplicates[0].artist, "artist");
    assert_eq!(plan.duplicates[0].title, "same song");
}

#[test]
fn reorg_bad_template_is_usage_error() {
    let r = analyze(&opts("/abs/{artist}"), ROOT, &Vec::new());
    match r {
        Err(e) => {
            assert_eq!(e.exit_code(), 2);
            assert!(e.message().starts_with("bad --template: "));
        }
        Ok(_) => panic!("an absolute template is refused"),
    }
}

#[test]
fn reorg_classify_ops() {
    let e = classify("/l/a/x.mp3", "/l/b/x.mp3", false);
    assert_eq!((e.op.as_str(), e.status.as_str()), ("move", "ready"));
    let e = classify("/l/a/x.mp3", "/l/a/y.mp3", false);
    assert_eq!((e.op.as_str(), e.status.as_str()), ("rename", "ready"));
    let e = classify("/l/a/x.mp3", "/l/b/y.mp3", false);
    assert_eq!((e.op.as_str(), e.status.as_str()), ("move+rename", "ready"));
    let e = classify("/l/a/x.mp3", "/l/b/y.mp3", true);
    assert_eq!((e.op.as_str(), e.status.as_str()), ("none", "conflict"));
    assert_eq!(e.note.as_deref(), Some("target already exists"));
    let e = classify("/l/a//x.mp3", "/l/a/x.mp3", true);
    assert_eq!(e.status, "in-place");
}

fn plan_entry(op: &str, status: &str) -> PlanEntry {
    PlanEntry {
        src: "/l/a/x.mp3".to_string(),
        dst: Some("/l/b/y.mp3".to_string()),
        op: op.to_string(),
        status: status.to_string(),
        note: None,
    }
}

#[test]
fn reorg_execution_only_moves_ready_entries() {
    let entries = vec![
        plan_entry("move", "ready"),
        plan_entry("rename", "ready"),
        plan_entry("move+rename", "ready"),
        plan_entry("none", "conflict"),
        plan_entry("none", "in-place"),
    ];
    assert_eq!(count_ready(&entries, false), (3, 2));
    assert_eq!(count_ready(&entries, true), (3, 0));
    assert!(matches!(reorg_step(&entries[3], true), ReorgStep::NotActionable));
    assert!(matches!(reorg_step(&entries[1], false), ReorgStep::Pass));
    match reorg_step(&entries[2], true) {
        ReorgStep::Move { src, dst, is_rename } => {
            assert_eq!(src, "/l/a/x.mp3");
            assert_eq!(dst, "/l/b/y.mp3");
            assert!(is_rename);
        }
        _ => panic!("allowed renames move"),
    }
}

#[test]
fn reorg_summary_counts() {
    let mut s = ReorgSummary::new(ROOT, 2);
    s.record_moved(true);
    s.record_moved(false);
    s.record_skipped();
    assert_eq!((s.moved, s.renamed, s.skipped, s.failed, s.deferred_renames), (2, 1, 1, 0, 2));
    assert_eq!(s.exit_code(), 0);
    s.record_failed();
    assert_eq!(s.exit_code(), 1);
}

#[test]
fn reorg_from_requires_execute() {
    let mut o = opts("{artist}/{filename}.{ext}");
    o.from = Some("plan.json".to_string());
    match dj_music_suite::reorg::reorg_run(&o) {
        Err(e) => {
            assert_eq!(e.exit_code(), 2);
            assert_eq!(e.message(), "--from only makes sense together with --execute");
        }
        Ok(_) => panic!("--from without --execute is refused"),
    }
    o.execute = true;
    assert!(matches!(dj_music_suite::reorg::reorg_run(&o), Ok(dj_music_suite::RunMode::Execute)));
    let plain = opts("{artist}/{filename}.{ext}");
    assert!(matches!(dj_music_suite::reorg::reorg_run(&plain), Ok(dj_music_suite::RunMode::Analyze)));
}

#[test]
fn reorg_analyzed_plan_executes_as_a_move() {
    // a library holding only song.mp3 tagged "Artist": the plan moves it
    // under Artist/, and executing the plan moves exactly that file
    let plan = plan_for("{artist}/{filename}.{ext}", &[("song.mp3", tagged("Artist", None))]);
    assert_eq!(count_ready(&plan.entries, false), (1, 0));
    let mut summary = ReorgSummary::new(ROOT, 0);
    for e in &plan.entries {
        let d = reorg_decide(e, false, true, false);
        match &d {
            ReorgDecision::Move { src, dst, is_rename } => {
                assert_eq!(src, &format!("{ROOT}/song.mp3"));
                assert_eq!(dst, &format!("{ROOT}/Artist/song.mp3"));
                assert!(!is_rename);
            }
            _ => panic!("the ready entry is moved"),
        }
        summary.record_decision(&d, true);
    }
    assert_eq!((summary.moved, summary.failed), (1, 0));
    assert_eq!(summary.exit_code(), 0);
}

#[test]
fn reorg_execution_skips_gone_sources_and_occupied_targets() {
    let ready = plan_entry("move", "ready");
    let rename = plan_entry("rename", "ready");
    assert!(matches!(reorg_decide(&ready, false, false, false), ReorgDecision::SourceGone));
    assert!(matches!(reorg_decide(&ready, false, true, true), ReorgDecision::TargetExists));
    // a gone source is reported before an occupied target
    assert!(matches!(reorg_decide(&ready, false, false, true), ReorgDecision::SourceGone));
    assert!(matches!(reorg_decide(&rename, false, true, false), ReorgDecision::Pass));
    assert!(matches!(reorg_decide(&plan_entry("none", "conflict"), true, true, false), ReorgDecision::NotActionable));

    let mut s = ReorgSummary::new(ROOT, 1);
    s.record_decision(&reorg_decide(&ready, false, false, false), false);
    s.record_decision(&reorg_decide(&ready, false, true, true), false);
    let mv = reorg_decide(&rename, true, true, false);
    s.record_decision(&mv, true);
    s.record_decision(&mv, false);
    s.record_decision(&reorg_decide(&rename, false, true, false), true);
    assert_eq!((s.moved, s.renamed, s.skipped, s.failed, s.deferred_renames), (1, 1, 2, 1, 1));
    assert_eq!(s.exit_code(), 1);
}
