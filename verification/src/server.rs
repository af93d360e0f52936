//! The decisions of the local web UI: job kinds and states, which staging
//! directories may be used or cleared, how uploaded files are classified,
//! how request values are read, and how the job's event stream proceeds.

use vstd::prelude::*;

use crate::config::Paths;
use crate::import::Mode;
use crate::paths::{extension, extension_of, join, joined};
use crate::tags::opt_slice;
use crate::text::{
    ascii_lower, chars_equal, chars_of, replace_all, replace_text, to_ascii_lower,
    trim_whitespace, trim_ws, string_of,
};
use crate::Event;

verus! {

/// One job at a time (the core operations take over whole staging dirs and
/// the library index; parallel jobs would just fight each other).
#[derive(Debug, Clone, Copy, PartialEq, Eq, Structural)]
pub enum JobKind {
    Convert,
    ImportAnalyze,
    ImportExecute,
}

impl JobKind {
    /// The name of the kind in the job status.
    pub fn as_str(&self) -> (r: &'static str)
        ensures
            r@ == (match self {
                JobKind::Convert => "convert"@,
                JobKind::ImportAnalyze => "import-analyze"@,
                JobKind::ImportExecute => "import-execute"@,
            }),
    {
        match self {
            JobKind::Convert => "convert",
            JobKind::ImportAnalyze => "import-analyze",
            JobKind::ImportExecute => "import-execute",
        }
    }
}

#[derive(Debug, Clone, Copy, PartialEq, Eq, Structural)]
pub enum JobStatus {
    Running,
    Done,
    Failed,
}

impl JobStatus {
    /// The name of the status in the job status.
    pub fn as_str(&self) -> (r: &'static str)
        ensures
            r@ == (match self {
                JobStatus::Running => "running"@,
                JobStatus::Done => "done"@,
                JobStatus::Failed => "failed"@,
            }),
    {
        match self {
            JobStatus::Running => "running",
            JobStatus::Done => "done",
            JobStatus::Failed => "failed",
        }
    }
}

/// The options of the web UI server.
pub struct ServeOpts {
    pub port: u16,
    /// open the system browser after the listener is up
    pub open_browser: bool,
}

/// An ASCII letter or digit, or `-`.
pub open spec fn staging_id_char(c: char) -> bool {
    ('a' <= c && c <= 'z') || ('A' <= c && c <= 'Z') || ('0' <= c && c <= '9') || c == '-'
}

/// A staging id is not empty and made of ASCII letters, digits and `-`, so
/// that it names one directory right under the staging root.
pub open spec fn staging_id_ok(id: Seq<char>) -> bool {
    id.len() > 0 && forall|i: int| 0 <= i < id.len() ==> staging_id_char(#[trigger] id[i])
}

fn valid_staging_id(id: &str) -> (r: bool)
    ensures
        r == staging_id_ok(id@),
{
    let v = chars_of(id);
    if v.len() == 0 {
        return false;
    }
    let mut i: usize = 0;
    while i < v.len()
        invariant
            i <= v@.len(),
            v@ == id@,
            forall|j: int| 0 <= j < i ==> staging_id_char(#[trigger] v@[j]),
        decreases v@.len() - i,
    {
        let c = v[i];
        if !(('a' <= c && c <= 'z') || ('A' <= c && c <= 'Z') || ('0' <= c && c <= '9') || c
            == '-') {
            assert(!staging_id_char(v@[i as int]));
            return false;
        }
        i = i + 1;
    }
    true
}

impl Paths {
    /// The staging directory of an upload, for a well-formed id only.
    pub fn staging_dir(&self, id: &str) -> (r: Option<String>)
        ensures
            match r {
                Some(d) => staging_id_ok(id@) && d@ == joined(self.staging_root@, id@),
                None => !staging_id_ok(id@),
            },
    {
        if !valid_staging_id(id) {
            return None;
        }
        Some(join(self.staging_root.as_str(), id))
    }
}

/// The refusal of a job while another is running.
pub open spec fn job_running_msg() -> Seq<char> {
    "有任务正在运行，请等待它完成"@
}

/// A new job may start unless the current one is still running.
pub fn job_may_start(current: Option<JobStatus>) -> (r: Result<(), String>)
    ensures
        r is Err <==> current == Some(JobStatus::Running),
        r matches Err(m) ==> m@ == job_running_msg(),
{
    match current {
        Some(JobStatus::Running) => Err("有任务正在运行，请等待它完成".to_owned()),
        _ => Ok(()),
    }
}

/// A staging directory must not be cleared while the running job uses it.
pub fn staging_in_use(status: Option<JobStatus>, job_staging: Option<&str>, id: &str) -> (r: bool)
    ensures
        r == (status == Some(JobStatus::Running) && opt_slice(job_staging) == Some(id@)),
{
    match (status, job_staging) {
        (Some(JobStatus::Running), Some(s)) => crate::text::str_equal(s, id),
        _ => false,
    }
}

fn copy_str(s: &String) -> (r: String)
    ensures
        r@ == s@,
{
    s.clone()
}

/// Log lines carry full paths; inside the staging directory the prefix is
/// replaced by `~` so the web log stays readable. Only lines and warnings
/// are rewritten; without a prefix the event is kept as it is.
pub fn shorten_event(event: &Event, staging_prefix: Option<&str>) -> (r: Event)
    ensures
        match (event, r) {
            (Event::Start(a), Event::Start(b)) => a == b,
            (Event::Step(a), Event::Step(b)) => a@ == b@,
            (Event::Line(a), Event::Line(b)) => b@ == (match staging_prefix {
                Some(p) => replace_all(a@, p@, "~"@),
                None => a@,
            }),
            (Event::Warn(a), Event::Warn(b)) => b@ == (match staging_prefix {
                Some(p) => replace_all(a@, p@, "~"@),
                None => a@,
            }),
            _ => false,
        },
{
    match event {
        Event::Start(total) => Event::Start(*total),
        Event::Step(name) => Event::Step(copy_str(name)),
        Event::Line(text) => match staging_prefix {
            Some(p) => Event::Line(replace_text(text.as_str(), p, "~")),
            None => Event::Line(copy_str(text)),
        },
        Event::Warn(text) => match staging_prefix {
            Some(p) => Event::Warn(replace_text(text.as_str(), p, "~")),
            None => Event::Warn(copy_str(text)),
        },
    }
}

/// How an uploaded file is handled, by its extension (case-insensitive):
/// `ncm` files are converted, audio files imported, anything else ignored.
pub open spec fn file_kind_of(name: Seq<char>) -> Seq<char> {
    let raw = match extension_of(name) {
        Some(e) => e,
        None => Seq::empty(),
    };
    if ascii_lower(raw) == "ncm"@ {
        "ncm"@
    } else if crate::scan::audio_ext(raw) {
        "audio"@
    } else {
        "other"@
    }
}

fn is_word(v: &Vec<char>, w: &str) -> (r: bool)
    ensures
        r == (v@ == w@),
{
    let c = chars_of(w);
    chars_equal(v.as_slice(), c.as_slice())
}

/// The kind of an uploaded file: `ncm`, `audio` or `other`.
pub fn file_kind(name: &str) -> (r: &'static str)
    ensures
        r@ == file_kind_of(name@),
{
    let e: Vec<char> = match extension(name) {
        Some(x) => to_ascii_lower(x.as_str()),
        None => Vec::new(),
    };
    assert(e@ == ascii_lower(match extension_of(name@) {
        Some(x) => x,
        None => Seq::<char>::empty(),
    }));
    if is_word(&e, "ncm") {
        "ncm"
    } else if is_word(&e, "mp3") || is_word(&e, "flac") || is_word(&e, "m4a") || is_word(&e, "aac")
        || is_word(&e, "wav") || is_word(&e, "aiff") || is_word(&e, "aif") {
        "audio"
    } else {
        "other"
    }
}

/// The refusal of a request without a library root.
pub open spec fn missing_root_msg() -> Seq<char> {
    "缺少 library_root"@
}

/// The refusal of a blank library root.
pub open spec fn blank_root_msg() -> Seq<char> {
    "library_root 不能为空"@
}

/// The library root a settings request asks for: present and, trimmed, not
/// empty; the trimmed value is used.
pub fn requested_root(raw: Option<&str>) -> (r: Result<String, String>)
    ensures
        match raw {
            None => r matches Err(m) && m@ == missing_root_msg(),
            Some(s) => if trim_ws(s@).len() == 0 {
                r matches Err(m) && m@ == blank_root_msg()
            } else {
                r matches Ok(t) && t@ == trim_ws(s@)
            },
        },
{
    match raw {
        None => Err("缺少 library_root".to_owned()),
        Some(s) => {
            let v = chars_of(s);
            let t = trim_whitespace(v.as_slice());
            if t.len() == 0 {
                Err("library_root 不能为空".to_owned())
            } else {
                Ok(string_of(t.as_slice()))
            }
        },
    }
}

/// The import mode a request asks for: `move` moves, anything else copies.
pub fn requested_mode(raw: Option<&str>) -> (m: Mode)
    ensures
        m == (if opt_slice(raw) == Some("move"@) {
            Mode::Move
        } else {
            Mode::Copy
        }),
{
    match raw {
        Some(s) => if crate::text::str_equal(s, "move") {
            Mode::Move
        } else {
            Mode::Copy
        },
        None => Mode::Copy,
    }
}

/// The worker count of a conversion request: 8 when not given, at least 1.
pub fn requested_threads(raw: Option<u64>) -> (n: u64)
    ensures
        n == (match raw {
            Some(t) => if t == 0 {
                1
            } else {
                t
            },
            None => 8,
        }),
{
    match raw {
        Some(t) => if t == 0 {
            1
        } else {
            t
        },
        None => 8,
    }
}

/// One round of following the job's events, after the fresh events were
/// sent.
#[derive(Debug, Clone, Copy, PartialEq, Eq, Structural)]
pub enum StreamStep {
    /// there is no job: report idle and close
    Idle,
    /// the job finished: send its result and close
    Done,
    /// the job failed: send its error and close
    Failed,
    /// the job still runs: wait and poll again, after a keep-alive comment
    /// when `keep_alive` holds
    Wait { keep_alive: bool },
}

/// Decide how the event stream goes on: it ends with the job's outcome (or
/// at once without a job); while the job runs it polls, sending a keep-alive
/// comment every 40th round. `ticks` counts the rounds spent waiting.
pub fn stream_step(status: Option<JobStatus>, ticks: u32) -> (r: (StreamStep, u32))
    requires
        ticks < u32::MAX,
    ensures
        match status {
            None => r == (StreamStep::Idle, ticks),
            Some(JobStatus::Done) => r == (StreamStep::Done, ticks),
            Some(JobStatus::Failed) => r == (StreamStep::Failed, ticks),
            Some(JobStatus::Running) => r == (
                StreamStep::Wait { keep_alive: (ticks + 1) % 40 == 0 },
                (ticks + 1) as u32,
            ),
        },
{
    match status {
        None => (StreamStep::Idle, ticks),
        Some(JobStatus::Done) => (StreamStep::Done, ticks),
        Some(JobStatus::Failed) => (StreamStep::Failed, ticks),
        Some(JobStatus::Running) => {
            let t = ticks + 1;
            (StreamStep::Wait { keep_alive: t % 40 == 0 }, t)
        },
    }
}

} // verus!
