//! Reorganization of a library folder: classify every file against the
//! template target (move, rename, move+rename, in place, conflict, untagged),
//! report possible duplicates, and decide which entries an execution applies.

use vstd::prelude::*;

use crate::group::{buckets, buckets_view, group_by_key, key_view, keyed_view, reversed, values_view, KeyView};
use crate::paths::{file_name, file_name_of, parents_equal, paths_equal, same_parent, same_path};
use crate::tags::{identity, identity_of, TrackMeta};
use crate::target::{meta_artist, meta_title, render_target, str_result, target_of};
use crate::template::{template_spec, Template};
use crate::text::{chars_equal, chars_of, extend_str, str_equal, string_of};
use crate::{usage, Error};

verus! {

pub struct ReorgOpts {
    pub root: Option<String>,
    pub template: String,
    pub execute: bool,
    pub from: Option<String>,
    pub allow_rename: bool,
    /// plan json written by the analysis (None: don't write a file)
    pub plan: Option<String>,
}

pub struct PlanEntry {
    pub src: String,
    pub dst: Option<String>,
    /// "move", "rename" or "move+rename" ("none" for skipped entries)
    pub op: String,
    /// "ready", "in-place", "conflict" or "untagged"
    pub status: String,
    pub note: Option<String>,
}

/// The model of a [`PlanEntry`].
pub struct EntryView {
    pub src: Seq<char>,
    pub dst: Option<Seq<char>>,
    pub op: Seq<char>,
    pub status: Seq<char>,
    pub note: Option<Seq<char>>,
}

pub open spec fn opt_seq(o: Option<String>) -> Option<Seq<char>> {
    match o {
        Some(s) => Some(s@),
        None => None,
    }
}

impl View for PlanEntry {
    type V = EntryView;

    open spec fn view(&self) -> EntryView {
        EntryView {
            src: self.src@,
            dst: opt_seq(self.dst),
            op: self.op@,
            status: self.status@,
            note: opt_seq(self.note),
        }
    }
}

pub struct DupeFile {
    pub path: String,
    pub duration_secs: Option<u64>,
    pub size: Option<u64>,
}

pub struct DupeGroup {
    pub artist: String,
    pub title: String,
    pub files: Vec<DupeFile>,
}

pub struct Plan {
    pub root: String,
    pub template: String,
    pub entries: Vec<PlanEntry>,
    pub duplicates: Vec<DupeGroup>,
}

/// Outcome of applying a reorg plan.
#[derive(Debug)]
pub struct ReorgSummary {
    pub root: String,
    pub moved: usize,
    pub renamed: usize,
    pub skipped: usize,
    /// rename entries not applied because allow_rename is off
    pub deferred_renames: usize,
    pub failed: usize,
}

/// A file of the library as the analysis sees it: its path, its metadata
/// (None when the file could not be read), its size when known, and whether
/// something already occupies its rendered target path.
pub struct ScannedTrack {
    pub path: String,
    pub meta: Option<TrackMeta>,
    pub size: Option<u64>,
    pub target_exists: bool,
}

/// An entry with the given fields.
pub open spec fn entry_of(
    src: Seq<char>,
    dst: Option<Seq<char>>,
    op: Seq<char>,
    status: Seq<char>,
    note: Option<Seq<char>>,
) -> EntryView {
    EntryView { src, dst, op, status, note }
}

/// How a file relates to its target:
/// - the target is the file itself: in place;
/// - something else occupies the target: conflict;
/// - same directory and same name (the paths differ only in spelling): in place;
/// - otherwise ready, as a move (other directory), a rename (other name) or
///   both.
pub open spec fn classify_spec(src: Seq<char>, dst: Seq<char>, dst_exists: bool) -> EntryView {
    if same_path(src, dst) {
        entry_of(src, Some(dst), "none"@, "in-place"@, None)
    } else if dst_exists {
        entry_of(src, Some(dst), "none"@, "conflict"@, Some("target already exists"@))
    } else {
        let same_dir = same_parent(src, dst);
        let same_name = file_name_of(src) == file_name_of(dst);
        if same_dir && same_name {
            entry_of(src, Some(dst), "none"@, "in-place"@, None)
        } else {
            let op = if same_dir {
                "rename"@
            } else if same_name {
                "move"@
            } else {
                "move+rename"@
            };
            entry_of(src, Some(dst), op, "ready"@, None)
        }
    }
}

/// The entry of a file whose target could not be rendered.
pub open spec fn untagged_spec(src: Seq<char>, reason: Seq<char>) -> EntryView {
    entry_of(src, None, "none"@, "untagged"@, Some(reason))
}

fn lit(s: &str) -> (r: String)
    ensures
        r@ == s@,
{
    string_of(chars_of(s).as_slice())
}

fn in_place(src: &str, dst: &str) -> (e: PlanEntry)
    ensures
        e@ == entry_of(src@, Some(dst@), "none"@, "in-place"@, None),
{
    PlanEntry { src: lit(src), dst: Some(lit(dst)), op: lit("none"), status: lit("in-place"), note: None }
}

fn same_file_name(a: &str, b: &str) -> (r: bool)
    ensures
        r == (file_name_of(a@) == file_name_of(b@)),
{
    match (file_name(a), file_name(b)) {
        (Some(x), Some(y)) => str_equal(x.as_str(), y.as_str()),
        (None, None) => true,
        _ => false,
    }
}

/// Classify a file against its rendered target; `dst_exists` tells whether
/// something occupies the target.
pub fn classify(src: &str, dst: &str, dst_exists: bool) -> (e: PlanEntry)
    ensures
        e@ == classify_spec(src@, dst@, dst_exists),
{
    if paths_equal(src, dst) {
        return in_place(src, dst);
    }
    if dst_exists {
        return PlanEntry {
            src: lit(src),
            dst: Some(lit(dst)),
            op: lit("none"),
            status: lit("conflict"),
            note: Some(lit("target already exists")),
        };
    }
    let same_dir = parents_equal(src, dst);
    let same_name = same_file_name(src, dst);
    let op = if same_dir && same_name {
        return in_place(src, dst);
    } else if same_dir {
        "rename"
    } else if same_name {
        "move"
    } else {
        "move+rename"
    };
    PlanEntry { src: lit(src), dst: Some(lit(dst)), op: lit(op), status: lit("ready"), note: None }
}

/// The entry of one scanned file: classified against its target, or
/// untagged when the target cannot be rendered.
pub open spec fn plan_entry_spec(
    root: Seq<char>,
    template: Seq<Seq<crate::template::PartView>>,
    t: ScannedTrack,
) -> EntryView {
    match target_of(root, template, t.path@, track_meta(&t)) {
        Ok(dst) => classify_spec(t.path@, dst, t.target_exists),
        Err(reason) => untagged_spec(t.path@, reason),
    }
}

/// The optional metadata of a scanned file, by reference.
pub open spec fn track_meta(t: &ScannedTrack) -> Option<&TrackMeta> {
    match &t.meta {
        Some(m) => Some(m),
        None => None,
    }
}

/// The keyed duplicate candidates of the scanned files: the files with an
/// identity, under their identity, in scan order.
pub open spec fn dupe_candidates(files: Seq<ScannedTrack>) -> Seq<(KeyView, DupeView)>
    decreases files.len(),
{
    if files.len() == 0 {
        Seq::empty()
    } else {
        let t = files.last();
        let prev = dupe_candidates(files.drop_last());
        match identity_of(meta_artist(track_meta(&t)), meta_title(track_meta(&t))) {
            Some(id) => prev.push(
                (
                    id,
                    DupeView {
                        path: t.path@,
                        duration: match t.meta {
                            Some(m) => m.duration,
                            None => None,
                        },
                        size: t.size,
                    },
                ),
            ),
            None => prev,
        }
    }
}

/// The model of a [`DupeFile`].
pub struct DupeView {
    pub path: Seq<char>,
    pub duration: Option<u64>,
    pub size: Option<u64>,
}

impl View for DupeFile {
    type V = DupeView;

    open spec fn view(&self) -> DupeView {
        DupeView { path: self.path@, duration: self.duration_secs, size: self.size }
    }
}

/// The predicate "holds more than one file".
pub open spec fn several_files() -> spec_fn((KeyView, Seq<DupeView>)) -> bool {
    |b: (KeyView, Seq<DupeView>)| b.1.len() > 1
}

/// The duplicate groups: the identity buckets (in identity order) that hold
/// more than one file.
pub open spec fn duplicate_groups(files: Seq<ScannedTrack>) -> Seq<(KeyView, Seq<DupeView>)> {
    buckets(dupe_candidates(files)).filter(several_files())
}

/// The model of a duplicate group.
pub open spec fn group_view(g: DupeGroup) -> (KeyView, Seq<DupeView>) {
    ((g.artist@, g.title@), values_view(g.files@))
}

/// The models of duplicate groups.
pub open spec fn groups_view(gs: Seq<DupeGroup>) -> Seq<(KeyView, Seq<DupeView>)> {
    gs.map_values(|g: DupeGroup| group_view(g))
}

fn dupe_of(t: &ScannedTrack) -> (d: DupeFile)
    ensures
        d@ == (DupeView {
            path: t.path@,
            duration: match t.meta {
                Some(m) => m.duration,
                None => None,
            },
            size: t.size,
        }),
{
    DupeFile {
        path: lit(t.path.as_str()),
        duration_secs: match &t.meta {
            Some(m) => m.duration,
            None => None,
        },
        size: t.size,
    }
}

/// The plan for a library: one entry per scanned file, in scan order, and
/// the possible duplicates (same normalized artist + title).
pub fn build_plan(root: &str, template: &Template, template_str: &str, files: &Vec<ScannedTrack>) -> (p:
    Plan)
    ensures
        p.root@ == root@,
        p.template@ == template_str@,
        p.entries@.len() == files@.len(),
        forall|i: int|
            0 <= i < files@.len() ==> (#[trigger] p.entries@[i])@ == plan_entry_spec(
                root@,
                template@,
                files@[i],
            ),
        groups_view(p.duplicates@) == duplicate_groups(files@),
{
    let mut entries: Vec<PlanEntry> = Vec::new();
    let mut keyed: Vec<((String, String), DupeFile)> = Vec::new();
    let mut i: usize = 0;
    assert(files@.take(0) =~= Seq::<ScannedTrack>::empty());
    assert(keyed_view(keyed@) =~= dupe_candidates(files@.take(0)));
    while i < files.len()
        invariant
            i <= files@.len(),
            entries@.len() == i,
            forall|j: int|
                0 <= j < i ==> (#[trigger] entries@[j])@ == plan_entry_spec(
                    root@,
                    template@,
                    files@[j],
                ),
            keyed_view(keyed@) == dupe_candidates(files@.take(i as int)),
        decreases files@.len() - i,
    {
        let t = &files[i];
        let meta: Option<&TrackMeta> = match &t.meta {
            Some(m) => Some(m),
            None => None,
        };
        assert(meta == track_meta(&files@[i as int]));
        let ghost before = keyed_view(keyed@);
        proof {
            assert(files@.take(i + 1).drop_last() =~= files@.take(i as int));
            assert(files@.take(i + 1).last() == files@[i as int]);
        }
        if let Some(m) = meta {
            if let Some(id) = identity(m) {
                let d = dupe_of(t);
                keyed.push((id, d));
                assert(keyed_view(keyed@) =~= before.push(
                    (
                        key_view(id),
                        DupeView { path: t.path@, duration: m.duration, size: t.size },
                    ),
                ));
            }
        }
        let entry = match render_target(root, template, t.path.as_str(), meta) {
            Ok(dst) => classify(t.path.as_str(), dst.as_str(), t.target_exists),
            Err(reason) => PlanEntry {
                src: lit(t.path.as_str()),
                dst: None,
                op: lit("none"),
                status: lit("untagged"),
                note: Some(reason),
            },
        };
        entries.push(entry);
        i = i + 1;
    }
    assert(files@.take(i as int) =~= files@);
    let groups = group_by_key(keyed);
    let ghost gv = buckets_view(groups@);
    let ghost n = gv.len();
    let ghost pred = several_files();
    // keep the buckets with more than one file, in key order
    let mut rest = reversed(groups);
    let mut duplicates: Vec<DupeGroup> = Vec::new();
    assert(gv.take(0) =~= Seq::<(KeyView, Seq<DupeView>)>::empty());
    proof {
        reveal(Seq::filter);
    }
    assert(groups_view(duplicates@) =~= gv.take(0).filter(pred));
    while rest.len() > 0
        invariant
            n == gv.len(),
            rest@.len() <= n,
            pred == several_files(),
            gv == buckets(dupe_candidates(files@)),
            forall|j: int|
                0 <= j < rest@.len() ==> (key_view((#[trigger] rest@[j]).0), values_view(
                    rest@[j].1@,
                )) == gv[n - 1 - j],
            groups_view(duplicates@) == gv.take(n - rest@.len()).filter(pred),
        decreases rest@.len(),
    {
        let ghost done = n - rest@.len();
        let ghost before = groups_view(duplicates@);
        let ((artist, title), files_of) = rest.pop().unwrap();
        proof {
            assert(gv.take(done + 1) =~= gv.take(done).push(gv[done]));
            gv.take(done).lemma_filter_push(gv[done], pred);
        }
        if files_of.len() > 1 {
            let g = DupeGroup { artist, title, files: files_of };
            assert(group_view(g) == gv[done]);
            duplicates.push(g);
            assert(groups_view(duplicates@) =~= before.push(gv[done]));
        } else {
            assert(groups_view(duplicates@) =~= before);
        }
    }
    assert(gv.take(n as int) =~= gv);
    Plan { root: lit(root), template: lit(template_str), entries, duplicates }
}

/// What the options ask for: `--from` only makes sense together with
/// `--execute` (a usage error otherwise).
pub fn reorg_run(opts: &ReorgOpts) -> (r: Result<crate::RunMode, Error>)
    ensures
        (opts.from is Some && !opts.execute) <==> r is Err,
        r matches Err(e) ==> e matches Error::Usage(m) && m@ == crate::from_without_execute_msg(),
        r matches Ok(m) ==> m == (if opts.execute {
            crate::RunMode::Execute
        } else {
            crate::RunMode::Analyze
        }),
{
    crate::run_mode(opts.execute, opts.from.is_some())
}

/// The message of a refused template.
pub open spec fn bad_template_msg(e: Seq<char>) -> Seq<char> {
    "bad --template: "@ + e
}

/// The parsed template of the `--template` argument, or the usage error that
/// reports why it is refused.
pub fn template_arg(raw: &str) -> (r: Result<Template, Error>)
    ensures
        match template_spec(raw@) {
            Ok(t) => r matches Ok(tt) && tt@ == t,
            Err(e) => r matches Err(Error::Usage(m)) && m@ == bad_template_msg(e),
        },
{
    match Template::parse(raw) {
        Ok(t) => Ok(t),
        Err(e) => {
            let mut m = chars_of("bad --template: ");
            extend_str(&mut m, e.as_str());
            Err(usage(string_of(m.as_slice())))
        },
    }
}

/// The plan fits the scanned files: every file has its entry, in order, and
/// the duplicates are the identity buckets with more than one file.
pub open spec fn plan_of(
    p: Plan,
    root: Seq<char>,
    template: Seq<Seq<crate::template::PartView>>,
    template_str: Seq<char>,
    files: Seq<ScannedTrack>,
) -> bool {
    &&& p.root@ == root
    &&& p.template@ == template_str
    &&& p.entries@.len() == files.len()
    &&& forall|i: int|
        0 <= i < files.len() ==> (#[trigger] p.entries@[i])@ == plan_entry_spec(root, template, files[i])
    &&& groups_view(p.duplicates@) == duplicate_groups(files)
}

/// Classify every scanned file of the library under `root` and collect the
/// possible duplicates. A refused template is a usage error.
pub fn analyze(opts: &ReorgOpts, root: &str, files: &Vec<ScannedTrack>) -> (r: Result<Plan, Error>)
    ensures
        match template_spec(opts.template@) {
            Ok(t) => r matches Ok(p) && plan_of(p, root@, t, opts.template@, files@),
            Err(e) => r matches Err(Error::Usage(m)) && m@ == bad_template_msg(e),
        },
{
    let template = template_arg(opts.template.as_str())?;
    Ok(build_plan(root, &template, opts.template.as_str(), files))
}

// ---------- execution ----------

/// Whether `s` contains `pat` as a contiguous piece.
pub open spec fn contains_piece(s: Seq<char>, pat: Seq<char>) -> bool {
    exists|i: int| 0 <= i && i + pat.len() <= s.len() && #[trigger] s.subrange(i, i + pat.len()) == pat
}

fn has_piece(s: &str, pat: &str) -> (r: bool)
    ensures
        r == contains_piece(s@, pat@),
{
    let v = chars_of(s);
    let p = chars_of(pat);
    if p.len() > v.len() {
        return false;
    }
    let mut i: usize = 0;
    let vl = v.len();
    let pl = p.len();
    let last = vl - pl;
    loop
        invariant
            vl == v@.len(),
            pl == p@.len(),
            last == vl - pl,
            p@.len() <= v@.len(),
            i <= last,
            v@ == s@,
            p@ == pat@,
            forall|j: int| 0 <= j < i ==> #[trigger] v@.subrange(j, j + p@.len()) != p@,
        decreases last - i,
    {
        let w = crate::text::sub_chars(v.as_slice(), i, i + pl);
        if chars_equal(w.as_slice(), p.as_slice()) {
            return true;
        }
        if i == last {
            assert forall|j: int| 0 <= j && j + pat@.len() <= s@.len() implies #[trigger] s@.subrange(
                j,
                j + pat@.len(),
            ) != pat@ by {
                assert(j <= i);
            }
            return false;
        }
        i = i + 1;
    }
}

/// Whether the entry is applied by an execution at all.
pub open spec fn is_ready(e: EntryView) -> bool {
    e.status == "ready"@
}

/// Whether the entry renames its file.
pub open spec fn renames(e: EntryView) -> bool {
    contains_piece(e.op, "rename"@)
}

/// The number of ready entries.
pub open spec fn ready_count(es: Seq<EntryView>) -> nat
    decreases es.len(),
{
    if es.len() == 0 {
        0
    } else {
        ready_count(es.drop_last()) + if is_ready(es.last()) {
            1nat
        } else {
            0nat
        }
    }
}

/// The number of ready entries that rename, when renames are not allowed.
pub open spec fn deferred_count(es: Seq<EntryView>, allow_rename: bool) -> nat
    decreases es.len(),
{
    if es.len() == 0 || allow_rename {
        0
    } else {
        deferred_count(es.drop_last(), allow_rename) + if is_ready(es.last()) && renames(es.last()) {
            1nat
        } else {
            0nat
        }
    }
}

/// The models of plan entries.
pub open spec fn entries_view(es: Seq<PlanEntry>) -> Seq<EntryView> {
    es.map_values(|e: PlanEntry| e@)
}

/// The numbers of ready entries and of deferred renames among them.
pub fn count_ready(entries: &Vec<PlanEntry>, allow_rename: bool) -> (r: (usize, usize))
    ensures
        r.0 == ready_count(entries_view(entries@)),
        r.1 == deferred_count(entries_view(entries@), allow_rename),
{
    let ghost all = entries_view(entries@);
    let mut ready: usize = 0;
    let mut deferred: usize = 0;
    let mut i: usize = 0;
    assert(all.take(0) =~= Seq::<EntryView>::empty());
    while i < entries.len()
        invariant
            i <= entries@.len(),
            all == entries_view(entries@),
            ready == ready_count(all.take(i as int)),
            deferred == deferred_count(all.take(i as int), allow_rename),
            ready <= i,
            deferred <= i,
        decreases entries@.len() - i,
    {
        assert(all.take(i + 1).drop_last() =~= all.take(i as int));
        let e = &entries[i];
        if str_equal(e.status.as_str(), "ready") {
            ready = ready + 1;
            if !allow_rename && has_piece(e.op.as_str(), "rename") {
                deferred = deferred + 1;
            }
        }
        i = i + 1;
    }
    assert(all.take(i as int) =~= all);
    (ready, deferred)
}

/// What executing one plan entry does.
pub enum ReorgStep {
    /// the entry is not ready: not part of the execution
    NotActionable,
    /// the entry is ready but not applied (a rename without permission, or
    /// no target)
    Pass,
    /// move `src` to `dst`
    Move { src: String, dst: String, is_rename: bool },
}

/// Decide what executing an entry does: only ready entries are applied, and
/// renames only when allowed.
pub fn reorg_step(e: &PlanEntry, allow_rename: bool) -> (s: ReorgStep)
    ensures
        match s {
            ReorgStep::NotActionable => !is_ready(e@),
            ReorgStep::Pass => is_ready(e@) && ((renames(e@) && !allow_rename) || e.dst is None),
            ReorgStep::Move { src, dst, is_rename } => {
                &&& is_ready(e@)
                &&& !renames(e@) || allow_rename
                &&& e.dst matches Some(d) && dst@ == d@
                &&& src@ == e.src@
                &&& is_rename == renames(e@)
            },
        },
{
    if !str_equal(e.status.as_str(), "ready") {
        return ReorgStep::NotActionable;
    }
    let is_rename = has_piece(e.op.as_str(), "rename");
    if is_rename && !allow_rename {
        return ReorgStep::Pass;
    }
    match &e.dst {
        None => ReorgStep::Pass,
        Some(d) => ReorgStep::Move { src: lit(e.src.as_str()), dst: lit(d.as_str()), is_rename },
    }
}

/// What executing one plan entry does, once the file system has been
/// looked at: whether the source is still a file and whether something
/// occupies the target.
pub enum ReorgDecision {
    /// the entry is not ready: not part of the execution
    NotActionable,
    /// the entry is ready but not applied (a rename without permission, or
    /// no target)
    Pass,
    /// the source is gone: skipped
    SourceGone,
    /// something occupies the target, which is never overwritten: skipped
    TargetExists,
    /// move `src` to `dst`
    Move { src: String, dst: String, is_rename: bool },
}

/// The model of a [`ReorgDecision`].
pub enum DecisionView {
    NotActionable,
    Pass,
    SourceGone,
    TargetExists,
    Move { src: Seq<char>, dst: Seq<char>, is_rename: bool },
}

impl View for ReorgDecision {
    type V = DecisionView;

    open spec fn view(&self) -> DecisionView {
        match self {
            ReorgDecision::NotActionable => DecisionView::NotActionable,
            ReorgDecision::Pass => DecisionView::Pass,
            ReorgDecision::SourceGone => DecisionView::SourceGone,
            ReorgDecision::TargetExists => DecisionView::TargetExists,
            ReorgDecision::Move { src, dst, is_rename } => DecisionView::Move {
                src: src@,
                dst: dst@,
                is_rename: *is_rename,
            },
        }
    }
}

/// How an entry is executed:
/// - an entry that is not ready is not part of the execution;
/// - a ready rename without permission, or a ready entry without a target,
///   is passed over;
/// - a ready entry whose source is no longer a file is skipped;
/// - a ready entry whose target is occupied is skipped;
/// - otherwise the source is moved to the target.
pub open spec fn decision_of(e: EntryView, allow_rename: bool, src_present: bool, dst_exists: bool) -> DecisionView {
    if !is_ready(e) {
        DecisionView::NotActionable
    } else if (renames(e) && !allow_rename) || e.dst is None {
        DecisionView::Pass
    } else if !src_present {
        DecisionView::SourceGone
    } else if dst_exists {
        DecisionView::TargetExists
    } else {
        DecisionView::Move { src: e.src, dst: e.dst->Some_0, is_rename: renames(e) }
    }
}

/// Decide how an entry is executed; `src_present` tells whether its source
/// is still a file and `dst_exists` whether something occupies its target.
pub fn reorg_decide(e: &PlanEntry, allow_rename: bool, src_present: bool, dst_exists: bool) -> (d:
    ReorgDecision)
    ensures
        d@ == decision_of(e@, allow_rename, src_present, dst_exists),
{
    match reorg_step(e, allow_rename) {
        ReorgStep::NotActionable => ReorgDecision::NotActionable,
        ReorgStep::Pass => ReorgDecision::Pass,
        ReorgStep::Move { src, dst, is_rename } => {
            if !src_present {
                ReorgDecision::SourceGone
            } else if dst_exists {
                ReorgDecision::TargetExists
            } else {
                ReorgDecision::Move { src, dst, is_rename }
            }
        },
    }
}

/// The counters (moved, renamed, skipped, failed) after one decision is
/// carried out: a skip counts as skipped; a move counts as moved (and
/// renamed, for a rename) when it succeeded, as failed when it did not;
/// nothing else counts.
pub open spec fn tally_step(t: (int, int, int, int), d: DecisionView, move_ok: bool) -> (
    int,
    int,
    int,
    int,
) {
    match d {
        DecisionView::SourceGone | DecisionView::TargetExists => (t.0, t.1, t.2 + 1, t.3),
        DecisionView::Move { is_rename, .. } => if move_ok {
            (t.0 + 1, t.1 + if is_rename {
                1int
            } else {
                0int
            }, t.2, t.3)
        } else {
            (t.0, t.1, t.2, t.3 + 1)
        },
        _ => t,
    }
}

/// The counters of a summary: (moved, renamed, skipped, failed).
pub open spec fn counts(s: ReorgSummary) -> (int, int, int, int) {
    (s.moved as int, s.renamed as int, s.skipped as int, s.failed as int)
}

/// The counters after executing the entries `es` in order, where entry `i`
/// found its source present (`present[i]`), its target occupied
/// (`occupied[i]`), and its move, if any, succeeded (`moved_ok[i]`).
pub open spec fn run_tally(
    es: Seq<EntryView>,
    allow_rename: bool,
    present: Seq<bool>,
    occupied: Seq<bool>,
    moved_ok: Seq<bool>,
) -> (int, int, int, int)
    decreases es.len(),
{
    if es.len() == 0 {
        (0, 0, 0, 0)
    } else {
        let i = es.len() - 1;
        tally_step(
            run_tally(es.drop_last(), allow_rename, present, occupied, moved_ok),
            decision_of(es[i], allow_rename, present[i], occupied[i]),
            moved_ok[i],
        )
    }
}

impl ReorgSummary {
    pub fn new(root: &str, deferred_renames: usize) -> (s: ReorgSummary)
        ensures
            s.root@ == root@,
            s.moved == 0 && s.renamed == 0 && s.skipped == 0 && s.failed == 0,
            s.deferred_renames == deferred_renames,
    {
        ReorgSummary { root: lit(root), moved: 0, renamed: 0, skipped: 0, deferred_renames, failed: 0 }
    }

    /// A source that is gone or a target that exists: the entry is skipped.
    pub fn record_skipped(&mut self)
        requires
            old(self).skipped < usize::MAX,
        ensures
            final(self).skipped == old(self).skipped + 1,
            final(self).moved == old(self).moved,
            final(self).renamed == old(self).renamed,
            final(self).failed == old(self).failed,
            final(self).deferred_renames == old(self).deferred_renames,
            final(self).root == old(self).root,
    {
        self.skipped = self.skipped + 1;
    }

    /// The move failed.
    pub fn record_failed(&mut self)
        requires
            old(self).failed < usize::MAX,
        ensures
            final(self).failed == old(self).failed + 1,
            final(self).moved == old(self).moved,
            final(self).renamed == old(self).renamed,
            final(self).skipped == old(self).skipped,
            final(self).deferred_renames == old(self).deferred_renames,
            final(self).root == old(self).root,
    {
        self.failed = self.failed + 1;
    }

    /// The file was moved (and renamed, for a rename entry).
    pub fn record_moved(&mut self, is_rename: bool)
        requires
            old(self).moved < usize::MAX,
            old(self).renamed < usize::MAX,
        ensures
            final(self).moved == old(self).moved + 1,
            final(self).renamed == old(self).renamed + (if is_rename {
                1int
            } else {
                0int
            }),
            final(self).failed == old(self).failed,
            final(self).skipped == old(self).skipped,
            final(self).deferred_renames == old(self).deferred_renames,
            final(self).root == old(self).root,
    {
        self.moved = self.moved + 1;
        if is_rename {
            self.renamed = self.renamed + 1;
        }
    }

    /// Count the outcome of one decision (see [`tally_step`]); `move_ok`
    /// tells whether a move succeeded.
    pub fn record_decision(&mut self, d: &ReorgDecision, move_ok: bool)
        requires
            old(self).moved < usize::MAX,
            old(self).renamed < usize::MAX,
            old(self).skipped < usize::MAX,
            old(self).failed < usize::MAX,
        ensures
            counts(*final(self)) == tally_step(counts(*old(self)), d@, move_ok),
            final(self).deferred_renames == old(self).deferred_renames,
            final(self).root == old(self).root,
    {
        match d {
            ReorgDecision::SourceGone | ReorgDecision::TargetExists => self.record_skipped(),
            ReorgDecision::Move { is_rename, .. } => {
                if move_ok {
                    self.record_moved(*is_rename);
                } else {
                    self.record_failed();
                }
            },
            _ => {},
        }
    }

    /// The exit code of an execution: 1 when anything failed, else 0.
    pub fn exit_code(&self) -> (code: i32)
        ensures
            code == (if self.failed > 0 {
                1i32
            } else {
                0i32
            }),
    {
        if self.failed > 0 {
            1
        } else {
            0
        }
    }
}

// ---------- laws ----------

/// Conflicts and untagged files are never touched, and in-place files are
/// not moved: only entries classified ready are applied, and a ready entry
/// moves its file to a target that nothing occupies and that is not the file
/// itself.
pub proof fn lemma_only_free_targets_are_ready(src: Seq<char>, dst: Seq<char>, dst_exists: bool)
    ensures
        is_ready(classify_spec(src, dst, dst_exists)) ==> !dst_exists && !same_path(src, dst),
        classify_spec(src, dst, dst_exists).status == "conflict"@ ==> dst_exists,
        !is_ready(untagged_spec(src, dst)),
{
    reveal_strlit("ready");
    reveal_strlit("in-place");
    reveal_strlit("conflict");
    reveal_strlit("untagged");
    assert("ready"@.len() == 5);
    assert("in-place"@.len() == 8);
    assert("conflict"@.len() == 8);
    assert("untagged"@.len() == 8);
    assert("in-place"@[0] != "conflict"@[0]);
}

/// A ready entry renames its file exactly when the file keeps its directory
/// or changes its name: `rename` stays in the same directory, `move` keeps
/// the name, `move+rename` does both.
pub proof fn lemma_ready_op_matches_paths(src: Seq<char>, dst: Seq<char>)
    ensures
        ({
            let e = classify_spec(src, dst, false);
            is_ready(e) ==> (renames(e) <==> file_name_of(src) != file_name_of(dst))
        }),
{
    let e = classify_spec(src, dst, false);
    reveal_strlit("ready");
    reveal_strlit("in-place");
    reveal_strlit("rename");
    reveal_strlit("move");
    reveal_strlit("move+rename");
    assert("ready"@.len() == 5);
    assert("in-place"@.len() == 8);
    assert("rename"@.len() == 6);
    assert("move"@.len() == 4);
    assert("move+rename"@.len() == 11);
    if is_ready(e) {
        if e.op == "rename"@ {
            assert(e.op.subrange(0int, 0int + "rename"@.len()) =~= "rename"@);
        } else if e.op == "move+rename"@ {
            assert(e.op.subrange(5int, 5int + "rename"@.len()) =~= "rename"@);
        } else {
            assert(e.op == "move"@);
            assert(!contains_piece(e.op, "rename"@)) by {
                if contains_piece(e.op, "rename"@) {
                    let i = choose|i: int| 0 <= i && i + 6 <= e.op.len() && #[trigger] e.op.subrange(i, i + 6) == "rename"@;
                }
            }
        }
    }
}

/// What an analysis plans for a file is what an execution of the plan
/// applies: a file whose target is free, and which is neither the target nor
/// already at it under another spelling, is planned as a ready entry from
/// its own path to that target.
pub proof fn lemma_free_target_is_planned_ready(src: Seq<char>, dst: Seq<char>)
    requires
        !same_path(src, dst),
        !(same_parent(src, dst) && file_name_of(src) == file_name_of(dst)),
    ensures
        ({
            let e = classify_spec(src, dst, false);
            is_ready(e) && e.src == src && e.dst == Some(dst)
        }),
{
}

/// An execution never overwrites an occupied target and never moves a
/// file that is gone; it only moves ready entries, and renames only when
/// allowed, from the entry's source to its target.
pub proof fn lemma_moves_only_onto_free_targets(
    e: EntryView,
    allow_rename: bool,
    src_present: bool,
    dst_exists: bool,
)
    ensures
        !(decision_of(e, allow_rename, src_present, true) is Move),
        !(decision_of(e, allow_rename, false, dst_exists) is Move),
        decision_of(e, allow_rename, src_present, dst_exists) is Move ==> {
            &&& is_ready(e)
            &&& allow_rename || !renames(e)
            &&& decision_of(e, allow_rename, src_present, dst_exists)->Move_src == e.src
            &&& e.dst == Some(decision_of(e, allow_rename, src_present, dst_exists)->Move_dst)
        },
        !is_ready(e) ==> decision_of(e, allow_rename, src_present, dst_exists) is NotActionable,
{
}

/// The counters of an execution: whatever the file system shows and
/// whichever moves fail, renames never outnumber moves, and each ready entry
/// is counted at most once as moved, skipped, failed or deferred (entries
/// that are not ready are never counted).
pub proof fn lemma_run_counts(
    es: Seq<EntryView>,
    allow_rename: bool,
    present: Seq<bool>,
    occupied: Seq<bool>,
    moved_ok: Seq<bool>,
)
    requires
        present.len() == es.len(),
        occupied.len() == es.len(),
        moved_ok.len() == es.len(),
    ensures
        ({
            let t = run_tally(es, allow_rename, present, occupied, moved_ok);
            &&& 0 <= t.1 <= t.0
            &&& 0 <= t.2 && 0 <= t.3
            &&& t.0 + t.2 + t.3 + deferred_count(es, allow_rename) <= ready_count(es)
        }),
    decreases es.len(),
{
    if es.len() > 0 {
        let prev = es.drop_last();
        lemma_run_counts(
            prev,
            allow_rename,
            present.drop_last(),
            occupied.drop_last(),
            moved_ok.drop_last(),
        );
        lemma_run_tally_prefix(prev, allow_rename, present, occupied, moved_ok);
        assert(es.last() == es[es.len() - 1]);
    }
}

/// The counters of a prefix only depend on the observations of that prefix.
proof fn lemma_run_tally_prefix(
    es: Seq<EntryView>,
    allow_rename: bool,
    present: Seq<bool>,
    occupied: Seq<bool>,
    moved_ok: Seq<bool>,
)
    requires
        present.len() > es.len(),
        occupied.len() > es.len(),
        moved_ok.len() > es.len(),
    ensures
        run_tally(es, allow_rename, present, occupied, moved_ok) == run_tally(
            es,
            allow_rename,
            present.drop_last(),
            occupied.drop_last(),
            moved_ok.drop_last(),
        ),
    decreases es.len(),
{
    if es.len() > 0 {
        lemma_run_tally_prefix(es.drop_last(), allow_rename, present, occupied, moved_ok);
    }
}

/// The normalized artist + title of a scanned file, when it has both.
pub open spec fn file_identity(t: ScannedTrack) -> Option<KeyView> {
    identity_of(meta_artist(track_meta(&t)), meta_title(track_meta(&t)))
}

/// The predicate "has the identity `id`".
pub open spec fn has_identity(id: KeyView) -> spec_fn(ScannedTrack) -> bool {
    |t: ScannedTrack| file_identity(t) == Some(id)
}

/// The number of scanned files with the identity `id`.
pub open spec fn sharing(files: Seq<ScannedTrack>, id: KeyView) -> nat {
    files.filter(has_identity(id)).len()
}

/// Under each identity the duplicate candidates hold one file per scanned
/// file of that identity.
proof fn lemma_candidates_count(files: Seq<ScannedTrack>, id: KeyView)
    ensures
        dupe_candidates(files).filter(crate::group::has_key::<DupeView>(id)).len() == sharing(
            files,
            id,
        ),
    decreases files.len(),
{
    if files.len() > 0 {
        let prev = files.drop_last();
        let t = files.last();
        lemma_candidates_count(prev, id);
        assert(files =~= prev.push(t));
        prev.lemma_filter_push(t, has_identity(id));
        let pc = dupe_candidates(prev);
        match file_identity(t) {
            Some(x) => {
                let e = dupe_candidates(files).last();
                assert(dupe_candidates(files) == pc.push(e));
                pc.lemma_filter_push(e, crate::group::has_key::<DupeView>(id));
            },
            None => {},
        }
    }
}

/// Every duplicate candidate is a scanned file, under that file's identity.
proof fn lemma_candidates_from_files(files: Seq<ScannedTrack>)
    ensures
        forall|m: int|
            0 <= m < dupe_candidates(files).len() ==> exists|i: int|
                0 <= i < files.len() && file_identity(#[trigger] files[i]) == Some(
                    (#[trigger] dupe_candidates(files)[m]).0,
                ) && dupe_candidates(files)[m].1.path == files[i].path@,
    decreases files.len(),
{
    if files.len() > 0 {
        let prev = files.drop_last();
        lemma_candidates_from_files(prev);
        let items = dupe_candidates(files);
        let pc = dupe_candidates(prev);
        assert forall|m: int| 0 <= m < items.len() implies exists|i: int|
            0 <= i < files.len() && file_identity(#[trigger] files[i]) == Some(
                (#[trigger] items[m]).0,
            ) && items[m].1.path == files[i].path@ by {
            if m < pc.len() {
                assert(items[m] == pc[m]);
                let i = choose|i: int|
                    0 <= i < prev.len() && file_identity(#[trigger] prev[i]) == Some(pc[m].0)
                        && pc[m].1.path == prev[i].path@;
                assert(files[i] == prev[i]);
            } else {
                assert(files[files.len() - 1] == files.last());
            }
        }
    }
}

/// Nothing satisfies `p` in `s`: the filter is empty.
proof fn lemma_filter_none<A>(s: Seq<A>, p: spec_fn(A) -> bool)
    requires
        forall|j: int| 0 <= j < s.len() ==> !p(#[trigger] s[j]),
    ensures
        s.filter(p).len() == 0,
    decreases s.len(),
{
    if s.len() > 0 {
        let prev = s.drop_last();
        assert(s =~= prev.push(s.last()));
        assert forall|j: int| 0 <= j < prev.len() implies !p(#[trigger] prev[j]) by {
            assert(prev[j] == s[j]);
        }
        lemma_filter_none(prev, p);
        prev.lemma_filter_push(s.last(), p);
    }
}

/// Only the element at `i` may satisfy `p` in `s`: the filter holds at most
/// one element.
proof fn lemma_filter_at_most_one<A>(s: Seq<A>, p: spec_fn(A) -> bool, i: int)
    requires
        forall|j: int| 0 <= j < s.len() && j != i ==> !p(#[trigger] s[j]),
    ensures
        s.filter(p).len() <= 1,
    decreases s.len(),
{
    if s.len() > 0 {
        let prev = s.drop_last();
        assert(s =~= prev.push(s.last()));
        assert forall|j: int| 0 <= j < prev.len() && j != i implies !p(#[trigger] prev[j]) by {
            assert(prev[j] == s[j]);
        }
        prev.lemma_filter_push(s.last(), p);
        if i == s.len() - 1 {
            lemma_filter_none(prev, p);
        } else {
            lemma_filter_at_most_one(prev, p, i);
        }
    }
}

/// The possible duplicates of a plan are exactly the identities that two or
/// more scanned files share: every duplicate group holds at least two
/// files, as many as there are scanned files of its identity, each of them
/// a scanned file of that identity; an identity
/// shared by two or more files has a group; and a file whose normalized
/// identity no other scanned file shares is in no group.
pub proof fn lemma_duplicates_are_shared_identities(files: Seq<ScannedTrack>)
    ensures
        forall|k: int|
            0 <= k < duplicate_groups(files).len() ==> 2 <= (#[trigger] duplicate_groups(
                files,
            )[k]).1.len() && duplicate_groups(files)[k].1.len() == sharing(
                files,
                duplicate_groups(files)[k].0,
            ),
        forall|k: int, j: int|
            0 <= k < duplicate_groups(files).len() && 0 <= j < duplicate_groups(files)[k].1.len()
                ==> exists|i: int|
                0 <= i < files.len() && file_identity(#[trigger] files[i]) == Some(
                    duplicate_groups(files)[k].0,
                ) && (#[trigger] duplicate_groups(files)[k].1[j]).path == files[i].path@,
        forall|id: KeyView|
            #[trigger] sharing(files, id) >= 2 ==> exists|k: int|
                0 <= k < duplicate_groups(files).len() && duplicate_groups(files)[k].0 == id,
        forall|i: int, k: int|
            0 <= i < files.len() && 0 <= k < duplicate_groups(files).len() && (forall|j: int|
                0 <= j < files.len() && j != i ==> file_identity(#[trigger] files[j])
                    != file_identity(files[i])) ==> Some(
                (#[trigger] duplicate_groups(files)[k]).0,
            ) != file_identity(#[trigger] files[i]),
{
    let items = dupe_candidates(files);
    let bs = buckets(items);
    let dg = duplicate_groups(files);
    let pred = several_files();
    crate::group::lemma_buckets_are_ordered_groups(items);
    assert forall|k: int| 0 <= k < dg.len() implies 2 <= (#[trigger] dg[k]).1.len() && dg[k].1.len()
        == sharing(files, dg[k].0) by {
        bs.lemma_filter_pred(pred, k);
        assert(dg.contains(dg[k]));
        bs.lemma_filter_contains_rev(pred, dg[k]);
        let b = choose|b: int| 0 <= b < bs.len() && bs[b] == dg[k];
        assert(bs[b].1 == crate::group::values_with_key(items, bs[b].0));
        lemma_candidates_count(files, dg[k].0);
    }
    lemma_candidates_from_files(files);
    assert forall|k: int, j: int|
        0 <= k < dg.len() && 0 <= j < dg[k].1.len() implies exists|i: int|
        0 <= i < files.len() && file_identity(#[trigger] files[i]) == Some(dg[k].0) && (
        #[trigger] dg[k].1[j]).path == files[i].path@ by {
        assert(dg.contains(dg[k]));
        bs.lemma_filter_contains_rev(pred, dg[k]);
        let b = choose|b: int| 0 <= b < bs.len() && bs[b] == dg[k];
        assert(bs[b].1 == crate::group::values_with_key(items, bs[b].0));
        crate::group::lemma_values_with_key_added(items, bs[b].0);
        assert(items.contains((bs[b].0, bs[b].1[j])));
        let m = choose|m: int| 0 <= m < items.len() && items[m] == (bs[b].0, bs[b].1[j]);
        assert(items[m].0 == dg[k].0 && items[m].1 == dg[k].1[j]);
    }
    assert forall|id: KeyView| #[trigger] sharing(files, id) >= 2 implies exists|k: int|
        0 <= k < dg.len() && dg[k].0 == id by {
        let kp = crate::group::has_key::<DupeView>(id);
        lemma_candidates_count(files, id);
        let f = items.filter(kp);
        items.lemma_filter_pred(kp, 0);
        assert(f.contains(f[0]));
        items.lemma_filter_contains_rev(kp, f[0]);
        let m = choose|m: int| 0 <= m < items.len() && items[m] == f[0];
        assert(items[m].0 == id);
        let b = choose|b: int| 0 <= b < bs.len() && #[trigger] bs[b].0 == items[m].0;
        assert(bs[b].1 == crate::group::values_with_key(items, id));
        assert(pred(bs[b]));
        bs.lemma_filter_contains(pred, b);
        let k = choose|k: int| 0 <= k < dg.len() && dg[k] == bs[b];
        assert(dg[k].0 == id);
    }
    assert forall|i: int, k: int|
        0 <= i < files.len() && 0 <= k < dg.len() && (forall|j: int|
            0 <= j < files.len() && j != i ==> file_identity(#[trigger] files[j]) != file_identity(
                files[i],
            )) implies Some((#[trigger] dg[k]).0) != file_identity(#[trigger] files[i]) by {
        if Some(dg[k].0) == file_identity(files[i]) {
            let id = dg[k].0;
            assert forall|j: int| 0 <= j < files.len() && j != i implies !has_identity(id)(
                #[trigger] files[j],
            ) by {
                assert(file_identity(files[j]) != file_identity(files[i]));
            }
            lemma_filter_at_most_one(files, has_identity(id), i);
            assert(2 <= dg[k].1.len() && dg[k].1.len() == sharing(files, dg[k].0));
        }
    }
}

} // verus!
