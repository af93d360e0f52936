use dj_music_suite::dedup::{
    build_groups, count_kind, dedup_action, dedup_run, describe, entry_from_cache,
    entry_from_measure, make_group, reclaimable_bytes, sha256_hex, sort_files, trash_candidate,
    trash_dir, CachedFile, DedupAction, DedupOpts, DedupTally, FileEntry, FileOrder,
    Group, GroupKind, KeepMode, ScoreDetail, DURATION_TOLERANCE_SECS,
};
use dj_music_suite::quality::Quality;
use dj_music_suite::RunMode;
use dj_music_suite::tags::TrackMeta;

const ROOT: &str = "/music/lib";

fn score(q: &Quality) -> ScoreDetail {
    ScoreDetail::from(q)
}

fn plain() -> ScoreDetail {
    score(&Quality::new("mp3", Some(128), Some(44100), None, false, false, true))
}

fn with_cover() -> ScoreDetail {
    score(&Quality::new("mp3", Some(128), Some(44100), None, true, false, true))
}

fn file(name: &str, sha: &str, s: ScoreDetail, duration: Option<u64>, id: Option<(&str, &str)>) -> FileEntry {
    FileEntry {
        path: format!("{ROOT}/{name}"),
        size: 1000,
        mtime_secs: 100,
        sha256: sha.to_string(),
        score: s,
        duration_secs: duration,
        identity: id.map(|(a, t)| (a.to_string(), t.to_string())),
    }
}

fn all_paths(g: &Group) -> Vec<String> {
    let mut v = vec![g.keep.path.clone()];
    v.extend(g.losers.iter().map(|l| l.path.clone()));
    v
}

fn find<'a>(groups: &'a [Group], path: &str) -> &'a Group {
    groups.iter().find(|g| all_paths(g).iter().any(|p| p == path)).unwrap()
}

#[test]
fn identical_content_groups_even_with_different_tags() {
    let entries = vec![
        file("a.mp3", "aa", plain(), Some(2), Some(("a", "t"))),
        file("b.mp3", "aa", plain(), Some(2), Some(("x", "y"))),
    ];
    let groups = build_groups(entries, KeepMode::Best);
    assert_eq!(groups.len(), 1);
    assert_eq!(groups[0].kind.as_str(), "identical");
    assert_eq!(groups[0].losers.len(), 1);
    assert_eq!(groups[0].identity, None);
}

#[test]
fn same_identity_similar_duration_groups_but_not_different_duration() {
    let entries = vec![
        file("a.mp3", "h1", plain(), Some(2), Some(("a", "t"))),
        file("b.mp3", "h2", plain(), Some(2), Some(("a", "t"))),
        file("long.mp3", "h3", plain(), Some(7), Some(("a", "t"))),
    ];
    let groups = build_groups(entries, KeepMode::Best);
    assert_eq!(groups.len(), 1);
    assert_eq!(groups[0].kind.as_str(), "same-identity");
    assert_eq!(groups[0].identity, Some(("a".to_string(), "t".to_string())));
    // the long version stays out of the group
    assert!(!all_paths(&groups[0]).iter().any(|p| p.ends_with("long.mp3")));
}

#[test]
fn keep_best_prefers_cover() {
    let entries = vec![
        file("cover.mp3", "h1", with_cover(), Some(2), Some(("a", "t"))),
        file("plain.mp3", "h2", plain(), Some(2), Some(("a", "t"))),
    ];
    let groups = build_groups(entries, KeepMode::Best);
    let g = find(&groups, &format!("{ROOT}/cover.mp3"));
    assert_eq!(g.keep.path, format!("{ROOT}/cover.mp3"));
    assert!(g.keep.score.has_cover);
}

#[test]
fn keep_first_ignores_scores() {
    let entries = vec![
        file("a-plain.mp3", "h1", plain(), Some(2), Some(("a", "t"))),
        file("b-cover.mp3", "h2", with_cover(), Some(2), Some(("a", "t"))),
    ];
    let groups = build_groups(entries, KeepMode::First);
    let g = find(&groups, &format!("{ROOT}/a-plain.mp3"));
    assert_eq!(g.keep.path, format!("{ROOT}/a-plain.mp3"));
}

#[test]
fn execute_moves_losers_to_trash_and_delete_removes() {
    let entries = vec![
        file("a.mp3", "h1", plain(), Some(2), Some(("a", "t"))),
        file("b.mp3", "h2", plain(), Some(2), Some(("a", "t"))),
    ];
    let groups = build_groups(entries, KeepMode::Best);
    let g = &groups[0];
    let lost = &g.losers[0];
    // trash mode: the loser moves under <root>/.dedup-trash/<kind>/
    assert_eq!(dedup_action(true, true, false), DedupAction::MoveToTrash);
    let trash = trash_dir(ROOT, &None);
    assert_eq!(trash, format!("{ROOT}/.dedup-trash"));
    let name = lost.path.rsplit('/').next().unwrap().to_string();
    assert_eq!(
        trash_candidate(&lost.path, &trash, g.kind, 0),
        format!("{ROOT}/.dedup-trash/same-identity/{name}")
    );
    let mut tally = DedupTally::new();
    tally.record_removed(lost.size);
    assert_eq!(tally.exit_code(), 0);
    assert!(tally.moved_to_trash(false));
    // delete mode removes, nothing goes to the trash
    assert_eq!(dedup_action(true, true, true), DedupAction::Delete);
    assert!(!tally.moved_to_trash(true));
}

#[test]
fn execute_skips_group_when_keeper_is_gone() {
    // nothing is touched without the keeper, whatever the mode
    for delete in [false, true] {
        for loser_present in [false, true] {
            assert_eq!(dedup_action(false, loser_present, delete), DedupAction::SkipGroup);
        }
    }
    let mut tally = DedupTally::new();
    tally.record_group_skipped(1);
    assert_eq!((tally.removed, tally.skipped, tally.failed), (0, 1, 0));
    assert_eq!(tally.exit_code(), 0);
}

#[test]
fn gone_loser_is_skipped_and_failures_set_exit_code() {
    assert_eq!(dedup_action(true, false, false), DedupAction::SkipLoser);
    let mut tally = DedupTally::new();
    tally.record_skipped();
    tally.record_failed();
    tally.record_removed(5);
    tally.record_removed(7);
    assert_eq!((tally.removed, tally.skipped, tally.failed, tally.freed), (2, 1, 1, 12));
    assert_eq!(tally.exit_code(), 1);
}

#[test]
fn sha256_hex_matches_known_digests() {
    assert_eq!(
        sha256_hex(b"abc"),
        "ba7816bf8f01cfea414140de5dae2223b00361a396177a9cb410ff61f20015ad"
    );
    assert_eq!(
        sha256_hex(b""),
        "e3b0c44298fc1c149afbf4c8996fb92427ae41e4649b934ca495991b7852b855"
    );
}

#[test]
fn describe_lists_the_measurements() {
    let s = ScoreDetail {
        format_rank: 1,
        bitrate: Some(320),
        sample_rate: Some(44100),
        bits_per_sample: None,
        has_cover: true,
        has_lyrics: false,
        tags_complete: false,
        score: 123,
    };
    assert_eq!(describe(&s), "score 123 (320kbps, 44100Hz, cover, incomplete-tags)");
    let bare = ScoreDetail {
        format_rank: 0,
        bitrate: None,
        sample_rate: None,
        bits_per_sample: None,
        has_cover: false,
        has_lyrics: true,
        tags_complete: true,
        score: -5,
    };
    assert_eq!(describe(&bare), "score -5 (0kbps, lyrics)");
}

#[test]
fn score_detail_copies_the_quality() {
    let q = Quality::new("flac", Some(900), Some(48000), Some(24), true, true, true);
    let d = ScoreDetail::from(&q);
    assert_eq!(d.format_rank, q.format_rank);
    assert_eq!(d.bitrate, Some(900));
    assert_eq!(d.sample_rate, Some(48000));
    assert_eq!(d.bits_per_sample, Some(24));
    assert!(d.has_cover && d.has_lyrics && d.tags_complete);
    assert_eq!(d.score, q.score);
}

#[test]
fn entries_from_cache_and_measure() {
    let meta = TrackMeta::from_tags(Some(" A ".into()), None, Some("T".into()), None, 61, 0);
    let c = CachedFile { mtime_secs: 9, size: 42, sha256: "beef".into(), score: plain() };
    assert!(c.matches(9, 42));
    assert!(!c.matches(9, 43));
    assert!(!c.matches(8, 42));
    let e = entry_from_cache("/x/y.mp3", &c, Some(&meta));
    assert_eq!(e.path, "/x/y.mp3");
    assert_eq!((e.size, e.mtime_secs), (42, 9));
    assert_eq!(e.sha256, "beef");
    assert_eq!(e.duration_secs, Some(61));
    assert_eq!(e.identity, Some(("a".to_string(), "t".to_string())));
    let q = Quality::new("mp3", None, None, None, false, false, false);
    let m = entry_from_measure("/x/z.mp3", 7, 3, &q, "cafe".into(), None);
    assert_eq!((m.size, m.mtime_secs, m.duration_secs), (7, 3, None));
    assert_eq!(m.identity, None);
    assert_eq!(m.score, ScoreDetail::from(&q));
    let back = CachedFile::of(&m);
    assert_eq!((back.mtime_secs, back.size, back.sha256.as_str()), (3, 7, "cafe"));
}

#[test]
fn rank_orders_score_then_age_then_path() {
    let mut older = file("bb.mp3", "1", plain(), None, None);
    older.mtime_secs = 50;
    let newer = file("aa.mp3", "2", plain(), None, None);
    let best = file("zzzzzz.mp3", "3", with_cover(), None, None);
    let short = file("c.mp3", "4", plain(), None, None);
    let sorted = sort_files(vec![newer, short, older, best], FileOrder::Rank);
    let names: Vec<&str> = sorted.iter().map(|e| e.path.as_str()).collect();
    assert_eq!(
        names,
        vec![
            "/music/lib/zzzzzz.mp3",
            "/music/lib/bb.mp3",
            "/music/lib/c.mp3",
            "/music/lib/aa.mp3",
        ]
    );
    // equal score, age and length: the lexicographically smaller path ranks first
    let x = file("ab.mp3", "5", plain(), None, None);
    let y = file("ba.mp3", "6", plain(), None, None);
    let sorted = sort_files(vec![y, x], FileOrder::Rank);
    assert_eq!(sorted[0].path, "/music/lib/ab.mp3");
}

#[test]
fn durations_chain_within_tolerance() {
    assert_eq!(DURATION_TOLERANCE_SECS, 2);
    let chain = vec![
        file("a.mp3", "1", plain(), Some(100), Some(("a", "t"))),
        file("b.mp3", "2", plain(), Some(102), Some(("a", "t"))),
        file("c.mp3", "3", plain(), Some(104), Some(("a", "t"))),
    ];
    let groups = build_groups(chain, KeepMode::Best);
    assert_eq!(groups.len(), 1);
    assert_eq!(groups[0].losers.len(), 2);
    let split = vec![
        file("a.mp3", "1", plain(), Some(100), Some(("a", "t"))),
        file("b.mp3", "2", plain(), Some(103), Some(("a", "t"))),
        file("c.mp3", "3", plain(), None, Some(("a", "t"))),
    ];
    // unknown durations sort first and join their neighbour
    let groups = build_groups(split, KeepMode::Best);
    assert_eq!(groups.len(), 1);
    let mut paths = all_paths(&groups[0]);
    paths.sort();
    assert_eq!(paths, vec!["/music/lib/a.mp3", "/music/lib/c.mp3"]);
}

#[test]
fn files_are_never_in_two_groups() {
    let entries = vec![
        file("a.mp3", "same", plain(), Some(2), Some(("a", "t"))),
        file("b.mp3", "same", plain(), Some(2), Some(("a", "t"))),
        file("c.mp3", "other", plain(), Some(2), Some(("a", "t"))),
        file("d.mp3", "third", plain(), Some(3), Some(("a", "t"))),
        file("e.mp3", "fourth", plain(), Some(2), None),
    ];
    let groups = build_groups(entries, KeepMode::Best);
    // the identical pair is consumed; c and d form the same-identity group
    assert_eq!(groups.len(), 2);
    assert_eq!(count_kind(&groups, GroupKind::Identical), 1);
    assert_eq!(count_kind(&groups, GroupKind::SameIdentity), 1);
    let mut seen: Vec<String> = groups.iter().flat_map(all_paths).collect();
    let n = seen.len();
    seen.sort();
    seen.dedup();
    assert_eq!(seen.len(), n);
    assert_eq!(reclaimable_bytes(&groups), Some(2000));
}

#[test]
fn make_group_keeps_one_and_loses_the_rest() {
    let files = vec![
        file("b.mp3", "1", plain(), None, None),
        file("a.mp3", "2", with_cover(), None, None),
        file("c.mp3", "3", plain(), None, None),
    ];
    let g = make_group(GroupKind::Identical, None, files, KeepMode::First);
    assert_eq!(g.keep.path, "/music/lib/a.mp3");
    let losers: Vec<&str> = g.losers.iter().map(|l| l.path.as_str()).collect();
    // losers ranked best first: same score, age and length, smaller path first
    assert_eq!(losers, vec!["/music/lib/b.mp3", "/music/lib/c.mp3"]);
}

#[test]
fn trash_candidates_uniquify() {
    let t = "/t";
    assert_eq!(trash_candidate("/l/song.mp3", t, GroupKind::Identical, 0), "/t/identical/song.mp3");
    assert_eq!(trash_candidate("/l/song.mp3", t, GroupKind::Identical, 1), "/t/identical/song-1.mp3");
    assert_eq!(trash_candidate("/l/a.b.flac", t, GroupKind::SameIdentity, 12), "/t/same-identity/a.b-12.flac");
    assert_eq!(trash_candidate("/l/noext", t, GroupKind::Identical, 2), "/t/identical/noext-2");
    assert_eq!(trash_candidate("/l/.hidden", t, GroupKind::Identical, 1), "/t/identical/.hidden-1");
    assert_eq!(trash_dir(ROOT, &Some("/elsewhere".to_string())), "/elsewhere");
}

#[test]
fn from_requires_execute() {
    let opts = |execute: bool, from: Option<&str>| DedupOpts {
        root: None,
        execute,
        from: from.map(|s| s.to_string()),
        keep: KeepMode::Best,
        trash: None,
        delete: false,
        plan: "plan.json".to_string(),
    };
    match dedup_run(&opts(false, Some("p.json"))) {
        Err(e) => {
            assert_eq!(e.exit_code(), 2);
            assert_eq!(e.message(), "--from only makes sense together with --execute");
        }
        Ok(_) => panic!("--from without --execute is refused"),
    }
    assert!(matches!(dedup_run(&opts(true, Some("p.json"))), Ok(RunMode::Execute)));
    assert!(matches!(dedup_run(&opts(false, None)), Ok(RunMode::Analyze)));
}

#[test]
fn identical_group_holds_every_copy() {
    // three copies of one content, scattered between other files
    let entries = vec![
        file("x1.mp3", "dup", plain(), Some(2), None),
        file("other.mp3", "one", plain(), Some(9), None),
        file("x2.mp3", "dup", with_cover(), Some(2), Some(("a", "t"))),
        file("x3.mp3", "dup", plain(), None, None),
    ];
    let groups = build_groups(entries, KeepMode::Best);
    assert_eq!(groups.len(), 1);
    let mut paths = all_paths(&groups[0]);
    paths.sort();
    assert_eq!(
        paths,
        vec![format!("{ROOT}/x1.mp3"), format!("{ROOT}/x2.mp3"), format!("{ROOT}/x3.mp3")]
    );
    assert_eq!(groups[0].keep.path, format!("{ROOT}/x2.mp3"));
}
