use dj_music_suite::config::{choose_library_root, Config, Paths};
use dj_music_suite::import::Mode;
use dj_music_suite::server::{
    file_kind, job_may_start, requested_mode, requested_root, requested_threads, shorten_event,
    staging_in_use, stream_step, JobKind, JobStatus, ServeOpts, StreamStep,
};
use dj_music_suite::{usage, Error, Event};

fn paths() -> Paths {
    Paths::under("/home/u/.config")
}

#[test]
fn config_paths_live_under_the_config_dir() {
    let p = paths();
    assert_eq!(p.config_file, "/home/u/.config/dj-music-suite/config.toml");
    assert_eq!(p.staging_root, "/home/u/.config/dj-music-suite/staging");
    assert!(Config::default().library_root.is_none());
}

#[test]
fn staging_dirs_only_for_plain_ids() {
    let p = paths();
    assert_eq!(
        p.staging_dir("1b4e28ba-2fa1-11d2").as_deref(),
        Some("/home/u/.config/dj-music-suite/staging/1b4e28ba-2fa1-11d2")
    );
    assert_eq!(p.staging_dir(""), None);
    assert_eq!(p.staging_dir("../etc"), None);
    assert_eq!(p.staging_dir("a/b"), None);
    assert_eq!(p.staging_dir("ünï"), None);
}

#[test]
fn job_names() {
    assert_eq!(JobKind::Convert.as_str(), "convert");
    assert_eq!(JobKind::ImportAnalyze.as_str(), "import-analyze");
    assert_eq!(JobKind::ImportExecute.as_str(), "import-execute");
    assert_eq!(JobStatus::Running.as_str(), "running");
    assert_eq!(JobStatus::Done.as_str(), "done");
    assert_eq!(JobStatus::Failed.as_str(), "failed");
}

#[test]
fn one_job_at_a_time() {
    assert!(job_may_start(None).is_ok());
    assert!(job_may_start(Some(JobStatus::Done)).is_ok());
    assert!(job_may_start(Some(JobStatus::Failed)).is_ok());
    assert_eq!(job_may_start(Some(JobStatus::Running)), Err("有任务正在运行，请等待它完成".to_string()));
}

#[test]
fn running_job_staging_is_in_use() {
    assert!(staging_in_use(Some(JobStatus::Running), Some("abc"), "abc"));
    assert!(!staging_in_use(Some(JobStatus::Done), Some("abc"), "abc"));
    assert!(!staging_in_use(Some(JobStatus::Running), Some("abd"), "abc"));
    assert!(!staging_in_use(Some(JobStatus::Running), None, "abc"));
    assert!(!staging_in_use(None, None, "abc"));
}

#[test]
fn events_are_shortened_inside_staging() {
    let prefix = "/cfg/staging/abc";
    match shorten_event(&Event::Line("[ok] /cfg/staging/abc/x.mp3".into()), Some(prefix)) {
        Event::Line(t) => assert_eq!(t, "[ok] ~/x.mp3"),
        other => panic!("{other:?}"),
    }
    match shorten_event(&Event::Warn("/cfg/staging/abc and /cfg/staging/abc".into()), Some(prefix)) {
        Event::Warn(t) => assert_eq!(t, "~ and ~"),
        other => panic!("{other:?}"),
    }
    match shorten_event(&Event::Step("/cfg/staging/abc/x".into()), Some(prefix)) {
        Event::Step(t) => assert_eq!(t, "/cfg/staging/abc/x"),
        other => panic!("{other:?}"),
    }
    match shorten_event(&Event::Line("/cfg/staging/abc".into()), None) {
        Event::Line(t) => assert_eq!(t, "/cfg/staging/abc"),
        other => panic!("{other:?}"),
    }
    assert!(matches!(shorten_event(&Event::Start(7), Some(prefix)), Event::Start(7)));
}

#[test]
fn uploaded_file_kinds() {
    assert_eq!(file_kind("song.ncm"), "ncm");
    assert_eq!(file_kind("SONG.NCM"), "ncm");
    assert_eq!(file_kind("a.FLAC"), "audio");
    assert_eq!(file_kind("a.aif"), "audio");
    assert_eq!(file_kind("cover.jpg"), "other");
    assert_eq!(file_kind("README"), "other");
}

#[test]
fn request_values() {
    assert_eq!(requested_root(None), Err("缺少 library_root".to_string()));
    assert_eq!(requested_root(Some("   ")), Err("library_root 不能为空".to_string()));
    assert_eq!(requested_root(Some("  /music  ")), Ok("/music".to_string()));
    assert_eq!(requested_mode(Some("move")), Mode::Move);
    assert_eq!(requested_mode(Some("copy")), Mode::Copy);
    assert_eq!(requested_mode(None), Mode::Copy);
    assert_eq!(requested_threads(None), 8);
    assert_eq!(requested_threads(Some(0)), 1);
    assert_eq!(requested_threads(Some(3)), 3);
}

#[test]
fn event_stream_steps() {
    assert_eq!(stream_step(None, 5), (StreamStep::Idle, 5));
    assert_eq!(stream_step(Some(JobStatus::Done), 5), (StreamStep::Done, 5));
    assert_eq!(stream_step(Some(JobStatus::Failed), 0), (StreamStep::Failed, 0));
    assert_eq!(stream_step(Some(JobStatus::Running), 0), (StreamStep::Wait { keep_alive: false }, 1));
    assert_eq!(stream_step(Some(JobStatus::Running), 39), (StreamStep::Wait { keep_alive: true }, 40));
    let opts = ServeOpts { port: 8080, open_browser: true };
    assert_eq!(opts.port, 8080);
}

#[test]
fn library_root_choice() {
    assert_eq!(choose_library_root(Some("/x"), None, None).ok().as_deref(), Some("/x"));
    assert_eq!(
        choose_library_root(None, Some("/c/config.toml"), Some(" /m ")).ok().as_deref(),
        Some(" /m ")
    );
    match choose_library_root(None, None, Some("/m")) {
        Err(e) => {
            assert_eq!(e.exit_code(), 2);
            assert_eq!(e.message(), "--root is required");
        }
        Ok(_) => panic!("no config dir, no root"),
    }
    match choose_library_root(None, Some("/c/config.toml"), Some("  ")) {
        Err(e) => assert_eq!(
            e.message(),
            "--root is required (or set the library root once in the web UI; it would be stored in /c/config.toml)"
        ),
        Ok(_) => panic!("a blank configured root is not a root"),
    }
}

#[test]
fn error_exit_codes() {
    assert_eq!(usage("bad".to_string()).exit_code(), 2);
    assert_eq!(Error::Runtime("x".to_string()).exit_code(), 1);
    assert_eq!(usage("bad".to_string()).message(), "bad");
}
