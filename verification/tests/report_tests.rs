use dj_music_suite::dedup::{build_groups, FileEntry, KeepMode, ScoreDetail};
use dj_music_suite::import::{Disposition, ImportItem, ImportPlan, Mode};
use dj_music_suite::reorg::{DupeFile, DupeGroup, Plan, PlanEntry};
use dj_music_suite::report::{
    dedup_report, duplicate_file_line, duplicate_group_line, duplicates_heading, import_report,
    reorg_report,
};

fn item(src: &str, d: Disposition, note: Option<&str>) -> ImportItem {
    ImportItem {
        src: src.to_string(),
        dst: Some(format!("/lib/{src}")),
        replace: None,
        disposition: d,
        note: note.map(|n| n.to_string()),
    }
}

fn plan() -> ImportPlan {
    ImportPlan {
        input: "/in".to_string(),
        root: "/lib".to_string(),
        template: "{filename}.{ext}".to_string(),
        items: vec![
            item("/in/a.mp3", Disposition::New, None),
            item("/in/b.mp3", Disposition::Duplicate, Some("library already has /lib/b.mp3 (0:02)")),
            item("/in/c.mp3", Disposition::New, None),
            item("/in/d.mp3", Disposition::Untagged, Some("missing {artist}")),
        ],
    }
}

#[test]
fn import_report_lines() {
    let lines = import_report(&plan(), Mode::Copy, false);
    assert_eq!(
        lines,
        vec![
            "import analysis",
            "  input: /in",
            "  library: /lib",
            "  template: {filename}.{ext}",
            "",
            "  new          2",
            "  duplicate    1  (skipped: same artist + title in library)",
            "  untagged     1  (skipped: missing tags for template)",
            "  - b.mp3: library already has /lib/b.mp3 (0:02)",
            "  - d.mp3: missing {artist}",
            "",
            "with --execute: 2 file(s) would be copied into the library",
        ]
    );
}

#[test]
fn import_report_with_overwrite_counts_replacements() {
    let lines = import_report(&plan(), Mode::Move, true);
    assert_eq!(lines[6], "  duplicate    1  (will replace the matched library file)");
    assert_eq!(
        lines.last().unwrap(),
        "with --execute: 2 file(s) and 1 replacement(s) would be moved into the library"
    );
    let empty = ImportPlan { items: vec![], ..plan() };
    let lines = import_report(&empty, Mode::Copy, false);
    assert_eq!(lines.len(), 7);
    assert_eq!(lines[6], "nothing to import");
}

fn detail(score: i64, cover: bool) -> ScoreDetail {
    ScoreDetail {
        format_rank: 1,
        bitrate: Some(320),
        sample_rate: None,
        bits_per_sample: None,
        has_cover: cover,
        has_lyrics: false,
        tags_complete: true,
        score,
    }
}

fn entry(path: &str, sha: &str, score: i64, cover: bool) -> FileEntry {
    FileEntry {
        path: path.to_string(),
        size: 1 << 20,
        mtime_secs: 1,
        sha256: sha.to_string(),
        score: detail(score, cover),
        duration_secs: Some(200),
        identity: Some(("a".to_string(), "t".to_string())),
    }
}

#[test]
fn dedup_report_lines() {
    let groups = build_groups(
        vec![entry("/l/x.mp3", "1", 20, true), entry("/l/y.mp3", "2", 10, false)],
        KeepMode::Best,
    );
    let lines = dedup_report(&groups, 0, 2, "1.0");
    assert_eq!(
        lines,
        vec![
            "scanned 2 files (no unreadable ignored), 1 duplicate groups, up to 1.0 MB reclaimable",
            "  same-identity  1",
            "",
            "[same-identity] a / t",
            "  keep /l/x.mp3  score 20 (320kbps, cover)",
            "  lose /l/y.mp3  score 10 (320kbps)",
            "",
            "run with --execute to move the losers into .dedup-trash/ (or --delete to remove them).",
        ]
    );
    let none = dedup_report(&Vec::new(), 3, 9, "0.0");
    assert_eq!(
        none,
        vec![
            "scanned 9 files (3 unreadable ignored), 0 duplicate groups, up to 0.0 MB reclaimable",
            "",
        ]
    );
}

fn pe(src: &str, op: &str, status: &str) -> PlanEntry {
    PlanEntry {
        src: src.to_string(),
        dst: None,
        op: op.to_string(),
        status: status.to_string(),
        note: None,
    }
}

#[test]
fn reorg_report_lines() {
    let plan = Plan {
        root: "/l".to_string(),
        template: "{artist}/{filename}.{ext}".to_string(),
        entries: vec![
            pe("/l/a.mp3", "move", "ready"),
            pe("/l/b.mp3", "rename", "ready"),
            pe("/l/c.mp3", "none", "in-place"),
            pe("/l/d.mp3", "move", "ready"),
        ],
        duplicates: vec![],
    };
    let lines = reorg_report(&plan, "/l/.plan.json");
    assert_eq!(
        lines,
        vec![
            "reorg analysis",
            "  root: /l",
            "  template: {artist}/{filename}.{ext}",
            "",
            "  move         2",
            "  rename       1",
            "  in place     1",
            "",
            "  note: 1 file(s) would be RENAMED. rekordbox relocates files by",
            "  filename, so renames are skipped unless --allow-rename (then they",
            "  must be relinked by hand in rekordbox).",
            "",
            "plan written to /l/.plan.json",
        ]
    );
    let empty = Plan { entries: vec![], ..plan };
    let lines = reorg_report(&empty, "p");
    assert_eq!(lines[4], "  (no audio files found)");
    assert!(duplicates_heading(&empty).is_empty());
}

#[test]
fn reorg_duplicate_lines() {
    let g = DupeGroup {
        artist: "artist".to_string(),
        title: "same song".to_string(),
        files: vec![
            DupeFile { path: "/l/a.mp3".to_string(), duration_secs: Some(185), size: Some(10) },
            DupeFile { path: "/l/b.mp3".to_string(), duration_secs: None, size: None },
        ],
    };
    assert_eq!(duplicate_group_line(&g), "  artist / same song (2 files)");
    assert_eq!(duplicate_file_line(&g.files[0]), "    - /l/a.mp3 (3:05)");
    assert_eq!(duplicate_file_line(&g.files[1]), "    - /l/b.mp3");
    let plan = Plan {
        root: "/l".to_string(),
        template: "t".to_string(),
        entries: vec![],
        duplicates: vec![g],
    };
    assert_eq!(
        duplicates_heading(&plan),
        vec!["", "possible duplicates (same normalized artist + title):"]
    );
}
