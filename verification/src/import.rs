//! Import: classify new files against the library (new, alternate version,
//! duplicate, conflict, untagged) and decide how each actionable file is
//! placed.

use vstd::prelude::*;

use crate::tags::{identity, identity_of, TrackMeta};
use crate::target::{meta_artist, meta_title, str_result};
use crate::text::{
    chars_equal, chars_of, decimal, decimal_chars, extend_chars, extend_str, string_of,
};

verus! {

/// same artist + title with durations within this delta counts as a duplicate
pub const DUPLICATE_DELTA_SECS: u64 = 3;

/// The options of an import run.
pub struct ImportOpts {
    /// folder with new audio files to import (scanned recursively)
    pub input: String,
    /// music library root to import into
    pub root: String,
    /// destination layout relative to the root
    pub template: String,
    /// copy or move the files into the library
    pub mode: Mode,
    /// actually place the files (default: report only)
    pub execute: bool,
}

#[derive(Clone, Copy, PartialEq, Eq, Debug, Structural)]
pub enum Mode {
    Copy,
    Move,
}

#[derive(Clone, Copy, PartialEq, Eq, Debug, Structural)]
pub enum Disposition {
    /// not in the library yet
    New,
    /// same artist + title but a different duration: likely another mix,
    /// imported anyway
    AltVersion,
    /// same artist + title and a similar duration, skipped
    Duplicate,
    /// destination file already exists, skipped
    Conflict,
    /// missing a tag the template needs, skipped
    Untagged,
}

pub struct ImportItem {
    pub src: String,
    pub dst: Option<String>,
    /// for duplicates: the matched library file that overwrite would
    /// replace (content refreshed in place, path unchanged)
    pub replace: Option<String>,
    pub disposition: Disposition,
    pub note: Option<String>,
}

/// The model of an [`ImportItem`].
pub struct ItemView {
    pub src: Seq<char>,
    pub dst: Option<Seq<char>>,
    pub replace: Option<Seq<char>>,
    pub disposition: Disposition,
    pub note: Option<Seq<char>>,
}

/// The model of an optional string.
pub open spec fn opt_seq(o: Option<String>) -> Option<Seq<char>> {
    match o {
        Some(s) => Some(s@),
        None => None,
    }
}

impl View for ImportItem {
    type V = ItemView;

    open spec fn view(&self) -> ItemView {
        ItemView {
            src: self.src@,
            dst: opt_seq(self.dst),
            replace: opt_seq(self.replace),
            disposition: self.disposition,
            note: opt_seq(self.note),
        }
    }
}

/// Serializable result of analyzing an import batch: enough to render a
/// preview and to drive the placement afterwards.
pub struct ImportPlan {
    pub input: String,
    pub root: String,
    pub template: String,
    pub items: Vec<ImportItem>,
}

/// Outcome of executing an import plan.
#[derive(Debug, Clone, Copy, PartialEq, Eq, Structural)]
pub struct ImportSummary {
    pub placed: usize,
    pub failed: usize,
}

/// A file of the library as the duplicate detection sees it.
pub struct LibEntry {
    pub path: String,
    pub duration_secs: Option<u64>,
}

/// The model of one index entry: identity, path and duration.
pub struct EntryView {
    pub artist: Seq<char>,
    pub title: Seq<char>,
    pub path: Seq<char>,
    pub duration: Option<u64>,
}

/// The library files by identity, in the order they were added.
pub struct Index {
    entries: Vec<((String, String), LibEntry)>,
}

/// The model of one stored entry.
pub open spec fn entry_view(e: ((String, String), LibEntry)) -> EntryView {
    EntryView { artist: e.0.0@, title: e.0.1@, path: e.1.path@, duration: e.1.duration_secs }
}

impl View for Index {
    type V = Seq<EntryView>;

    closed spec fn view(&self) -> Seq<EntryView> {
        self.entries@.map_values(|e: ((String, String), LibEntry)| entry_view(e))
    }
}

/// Whether two durations count as the same song: within the delta, or
/// either unknown (unknown durations must not mask a duplicate).
pub open spec fn durations_close(a: Option<u64>, b: Option<u64>) -> bool {
    match (a, b) {
        (Some(x), Some(y)) => (if x >= y {
            x - y
        } else {
            y - x
        }) <= DUPLICATE_DELTA_SECS,
        _ => true,
    }
}

pub fn close(a: Option<u64>, b: Option<u64>) -> (r: bool)
    ensures
        r == durations_close(a, b),
{
    match (a, b) {
        (Some(x), Some(y)) => {
            let diff = if x >= y {
                x - y
            } else {
                y - x
            };
            diff <= DUPLICATE_DELTA_SECS
        },
        _ => true,
    }
}

/// The first entry at or after `from` with the identity `id`.
pub open spec fn first_of_identity(idx: Seq<EntryView>, id: (Seq<char>, Seq<char>), from: int) -> Option<
    int,
>
    decreases idx.len() - from,
{
    if from < 0 || from >= idx.len() {
        None
    } else if idx[from].artist == id.0 && idx[from].title == id.1 {
        Some(from)
    } else {
        first_of_identity(idx, id, from + 1)
    }
}

/// The first entry at or after `from` with the identity `id` and a duration
/// close to `dur`.
pub open spec fn first_close_of_identity(
    idx: Seq<EntryView>,
    id: (Seq<char>, Seq<char>),
    dur: Option<u64>,
    from: int,
) -> Option<int>
    decreases idx.len() - from,
{
    if from < 0 || from >= idx.len() {
        None
    } else if idx[from].artist == id.0 && idx[from].title == id.1 && durations_close(
        idx[from].duration,
        dur,
    ) {
        Some(from)
    } else {
        first_close_of_identity(idx, id, dur, from + 1)
    }
}

/// Two digits of a number below 100, with a leading zero when needed.
pub open spec fn two_digits(n: nat) -> Seq<char> {
    if n < 10 {
        seq!['0'] + decimal(n)
    } else {
        decimal(n)
    }
}

/// A duration as `m:ss`, or `?` when unknown.
pub open spec fn fmt_duration(s: Option<u64>) -> Seq<char> {
    match s {
        Some(s) => decimal((s / 60) as nat) + seq![':'] + two_digits((s % 60) as nat),
        None => "?"@,
    }
}

pub open spec fn conflict_note() -> Seq<char> {
    "target already exists (imported before?)"@
}

pub open spec fn duplicate_note(path: Seq<char>, dur: Option<u64>) -> Seq<char> {
    "library already has "@ + path + " ("@ + fmt_duration(dur) + ")"@
}

pub open spec fn alt_version_note(path: Seq<char>, dur: Option<u64>) -> Seq<char> {
    "library has "@ + path + " ("@ + fmt_duration(dur)
        + "), duration differs; importing as alternate version"@
}

/// The track length of optional metadata.
pub open spec fn meta_duration(meta: Option<&TrackMeta>) -> Option<u64> {
    match meta {
        Some(m) => m.duration,
        None => None,
    }
}

/// An item with the given fields.
pub open spec fn item_of(
    src: Seq<char>,
    dst: Option<Seq<char>>,
    replace: Option<Seq<char>>,
    d: Disposition,
    note: Option<Seq<char>>,
) -> ItemView {
    ItemView { src, dst, replace, disposition: d, note }
}

/// How a new file is classified against the index, and the index afterwards:
/// - no target (a tag the template needs is missing): untagged;
/// - the target exists: conflict;
/// - no identity: new;
/// - an indexed file with the same identity and a close duration: duplicate
///   of the first such file;
/// - indexed files with the same identity, none close: alternate version
///   (noted against the first of them);
/// - otherwise new, and the file is indexed under its target path so later
///   files of the batch are checked against it.
pub open spec fn classify_spec(
    src: Seq<char>,
    target: Result<Seq<char>, Seq<char>>,
    target_exists: bool,
    meta: Option<&TrackMeta>,
    idx: Seq<EntryView>,
) -> (ItemView, Seq<EntryView>) {
    match target {
        Err(reason) => (item_of(src, None, None, Disposition::Untagged, Some(reason)), idx),
        Ok(dst) => if target_exists {
            (item_of(src, Some(dst), None, Disposition::Conflict, Some(conflict_note())), idx)
        } else {
            match identity_of(meta_artist(meta), meta_title(meta)) {
                None => (item_of(src, Some(dst), None, Disposition::New, None), idx),
                Some(id) => {
                    let dur = meta_duration(meta);
                    match first_of_identity(idx, id, 0) {
                        Some(first) => match first_close_of_identity(idx, id, dur, 0) {
                            Some(k) => (
                                item_of(
                                    src,
                                    Some(dst),
                                    Some(idx[k].path),
                                    Disposition::Duplicate,
                                    Some(duplicate_note(idx[k].path, idx[k].duration)),
                                ),
                                idx,
                            ),
                            None => (
                                item_of(
                                    src,
                                    Some(dst),
                                    None,
                                    Disposition::AltVersion,
                                    Some(alt_version_note(idx[first].path, idx[first].duration)),
                                ),
                                idx,
                            ),
                        },
                        None => (
                            item_of(src, Some(dst), None, Disposition::New, None),
                            idx.push(EntryView { artist: id.0, title: id.1, path: dst, duration: dur }),
                        ),
                    }
                },
            }
        },
    }
}

impl Index {
    pub fn new() -> (i: Index)
        ensures
            i@ == Seq::<EntryView>::empty(),
    {
        let i = Index { entries: Vec::new() };
        assert(i@ =~= Seq::<EntryView>::empty());
        i
    }

    /// The number of indexed files.
    pub fn len(&self) -> (n: usize)
        ensures
            n == self@.len(),
    {
        self.entries.len()
    }

    /// Index a file under an identity.
    pub fn push(&mut self, identity: (String, String), entry: LibEntry)
        ensures
            final(self)@ == old(self)@.push(
                EntryView {
                    artist: identity.0@,
                    title: identity.1@,
                    path: entry.path@,
                    duration: entry.duration_secs,
                },
            ),
    {
        let ghost before = self@;
        self.entries.push((identity, entry));
        assert(self@ =~= before.push(
            EntryView {
                artist: identity.0@,
                title: identity.1@,
                path: entry.path@,
                duration: entry.duration_secs,
            },
        ));
    }

    /// Index a library file: files without an identity are not indexed.
    pub fn add_track(&mut self, path: &str, meta: Option<&TrackMeta>)
        ensures
            final(self)@ == (match identity_of(meta_artist(meta), meta_title(meta)) {
                Some(id) => old(self)@.push(
                    EntryView { artist: id.0, title: id.1, path: path@, duration: meta_duration(meta) },
                ),
                None => old(self)@,
            }),
    {
        if let Some(m) = meta {
            if let Some(id) = identity(m) {
                let p = string_of(chars_of(path).as_slice());
                self.push(id, LibEntry { path: p, duration_secs: m.duration });
            }
        }
    }

    fn find_first(&self, artist: &String, title: &String, dur: Option<u64>, need_close: bool) -> (r:
        Option<usize>)
        ensures
            match r {
                Some(k) => k < self@.len() && (if need_close {
                    first_close_of_identity(self@, (artist@, title@), dur, 0) == Some(k as int)
                } else {
                    first_of_identity(self@, (artist@, title@), 0) == Some(k as int)
                }),
                None => if need_close {
                    first_close_of_identity(self@, (artist@, title@), dur, 0) is None
                } else {
                    first_of_identity(self@, (artist@, title@), 0) is None
                },
            },
    {
        let ghost id = (artist@, title@);
        let mut i: usize = 0;
        while i < self.entries.len()
            invariant
                i <= self@.len(),
                self@.len() == self.entries@.len(),
                id == (artist@, title@),
                need_close ==> first_close_of_identity(self@, id, dur, 0) == first_close_of_identity(
                    self@,
                    id,
                    dur,
                    i as int,
                ),
                !need_close ==> first_of_identity(self@, id, 0) == first_of_identity(
                    self@,
                    id,
                    i as int,
                ),
            decreases self.entries@.len() - i,
        {
            let e = &self.entries[i];
            let a = chars_of(e.0.0.as_str());
            let t = chars_of(e.0.1.as_str());
            let wa = chars_of(artist.as_str());
            let wt = chars_of(title.as_str());
            let same = chars_equal(a.as_slice(), wa.as_slice()) && chars_equal(
                t.as_slice(),
                wt.as_slice(),
            );
            assert(self@[i as int] == entry_view(self.entries@[i as int]));
            if same && (!need_close || close(e.1.duration_secs, dur)) {
                return Some(i);
            }
            i = i + 1;
        }
        None
    }

    fn entry_at(&self, k: usize) -> (e: &LibEntry)
        requires
            k < self@.len(),
        ensures
            e.path@ == self@[k as int].path,
            e.duration_secs == self@[k as int].duration,
    {
        assert(self@[k as int] == entry_view(self.entries@[k as int]));
        &self.entries[k].1
    }
}

/// `m:ss` of a duration, or `?`.
pub(crate) fn duration_text(s: Option<u64>) -> (r: Vec<char>)
    ensures
        r@ == fmt_duration(s),
{
    match s {
        Some(secs) => {
            let mut r = decimal_chars(secs / 60);
            r.push(':');
            let rest = secs % 60;
            if rest < 10 {
                r.push('0');
            }
            let digits = decimal_chars(rest);
            extend_chars(&mut r, digits.as_slice());
            proof {
                if rest < 10 {
                    assert(r@ =~= decimal((secs / 60) as nat) + seq![':'] + (seq!['0'] + decimal(
                        rest as nat,
                    )));
                } else {
                    assert(r@ =~= decimal((secs / 60) as nat) + seq![':'] + decimal(rest as nat));
                }
            }
            r
        },
        None => chars_of("?"),
    }
}

fn path_note(lead: &str, path: &String, dur: Option<u64>, tail: &str) -> (r: String)
    ensures
        r@ == lead@ + path@ + " ("@ + fmt_duration(dur) + tail@,
{
    let mut m = chars_of(lead);
    extend_str(&mut m, path.as_str());
    extend_str(&mut m, " (");
    let d = duration_text(dur);
    extend_chars(&mut m, d.as_slice());
    extend_str(&mut m, tail);
    string_of(m.as_slice())
}

fn copy_string(s: &String) -> (r: String)
    ensures
        r@ == s@,
{
    s.clone()
}

/// Classify a new file against the library index. `target` is the rendered
/// target path (or why it could not be rendered) and `target_exists` whether
/// something already occupies it.
pub fn classify_item(
    src: &str,
    target: Result<String, String>,
    target_exists: bool,
    meta: Option<&TrackMeta>,
    index: &mut Index,
) -> (item: ImportItem)
    ensures
        item@ == classify_spec(src@, str_result(target), target_exists, meta, old(index)@).0,
        final(index)@ == classify_spec(src@, str_result(target), target_exists, meta, old(index)@).1,
{
    let src_s = string_of(chars_of(src).as_slice());
    let dst = match target {
        Err(reason) => {
            return ImportItem {
                src: src_s,
                dst: None,
                replace: None,
                disposition: Disposition::Untagged,
                note: Some(reason),
            };
        },
        Ok(d) => d,
    };
    if target_exists {
        return ImportItem {
            src: src_s,
            dst: Some(dst),
            replace: None,
            disposition: Disposition::Conflict,
            note: Some(String::from_str("target already exists (imported before?)")),
        };
    }
    let (m, id) = match meta {
        Some(m) => match identity(m) {
            Some(id) => (m, id),
            None => {
                return ImportItem {
                    src: src_s,
                    dst: Some(dst),
                    replace: None,
                    disposition: Disposition::New,
                    note: None,
                };
            },
        },
        None => {
            return ImportItem {
                src: src_s,
                dst: Some(dst),
                replace: None,
                disposition: Disposition::New,
                note: None,
            };
        },
    };
    let dur = m.duration;
    match index.find_first(&id.0, &id.1, dur, false) {
        Some(first) => {
            match index.find_first(&id.0, &id.1, dur, true) {
                Some(k) => {
                    let e = index.entry_at(k);
                    let note = path_note("library already has ", &e.path, e.duration_secs, ")");
                    ImportItem {
                        src: src_s,
                        dst: Some(dst),
                        replace: Some(copy_string(&e.path)),
                        disposition: Disposition::Duplicate,
                        note: Some(note),
                    }
                },
                None => {
                    let e = index.entry_at(first);
                    let note = path_note(
                        "library has ",
                        &e.path,
                        e.duration_secs,
                        "), duration differs; importing as alternate version",
                    );
                    ImportItem {
                        src: src_s,
                        dst: Some(dst),
                        replace: None,
                        disposition: Disposition::AltVersion,
                        note: Some(note),
                    }
                },
            }
        },
        None => {
            // projected import: register so later files in the same batch
            // deduplicate against this one
            let projected = copy_string(&dst);
            index.push(id, LibEntry { path: projected, duration_secs: dur });
            ImportItem {
                src: src_s,
                dst: Some(dst),
                replace: None,
                disposition: Disposition::New,
                note: None,
            }
        },
    }
}

// ---------- placement ----------

/// Whether an item is placed by an execution: new files and alternate
/// versions always, duplicates and conflicts only when overwriting, untagged
/// files never.
pub open spec fn actionable(d: Disposition, overwrite: bool) -> bool {
    match d {
        Disposition::New | Disposition::AltVersion => true,
        Disposition::Conflict | Disposition::Duplicate => overwrite,
        Disposition::Untagged => false,
    }
}

pub fn is_actionable(d: Disposition, overwrite: bool) -> (r: bool)
    ensures
        r == actionable(d, overwrite),
{
    match d {
        Disposition::New | Disposition::AltVersion => true,
        Disposition::Conflict | Disposition::Duplicate => overwrite,
        Disposition::Untagged => false,
    }
}

/// The number of items of `items` that are actionable.
pub open spec fn actionable_count(items: Seq<ItemView>, overwrite: bool) -> nat
    decreases items.len(),
{
    if items.len() == 0 {
        0
    } else {
        actionable_count(items.drop_last(), overwrite) + if actionable(
            items.last().disposition,
            overwrite,
        ) {
            1nat
        } else {
            0nat
        }
    }
}

/// The models of a list of items.
pub open spec fn items_view(items: Seq<ImportItem>) -> Seq<ItemView> {
    items.map_values(|i: ImportItem| i@)
}

/// How many of the items an execution will place.
pub fn count_actionable(items: &Vec<ImportItem>, overwrite: bool) -> (n: usize)
    ensures
        n == actionable_count(items_view(items@), overwrite),
{
    let ghost all = items_view(items@);
    let mut n: usize = 0;
    let mut i: usize = 0;
    assert(all.take(0) =~= Seq::<ItemView>::empty());
    while i < items.len()
        invariant
            i <= items@.len(),
            all == items_view(items@),
            n == actionable_count(all.take(i as int), overwrite),
            n <= i,
        decreases items@.len() - i,
    {
        assert(all.take(i + 1).drop_last() =~= all.take(i as int));
        if is_actionable(items[i].disposition, overwrite) {
            n = n + 1;
        }
        i = i + 1;
    }
    assert(all.take(i as int) =~= all);
    n
}

/// Where an actionable item is placed: a duplicate replaces the matched
/// library file, everything else goes to its target path.
pub open spec fn placement_target(item: ItemView) -> Option<Seq<char>> {
    if item.disposition == Disposition::Duplicate {
        item.replace
    } else {
        item.dst
    }
}

/// Whether an execution may replace whatever occupies an item's target:
/// only a duplicate or a conflict, and only when overwriting was asked for.
pub open spec fn may_replace(d: Disposition, overwrite: bool) -> bool {
    overwrite && (d == Disposition::Conflict || d == Disposition::Duplicate)
}

/// What executing one item does.
pub enum Placement {
    /// the item is not placed by this execution (see [`actionable`])
    NotActionable,
    /// there is no path to place it at
    NoTarget,
    /// the source already is the library file at the target: left alone
    AlreadyInLibrary,
    /// something already occupies the target and may not be replaced: the
    /// item is skipped, counted neither as placed nor as failed
    TargetTaken,
    /// copy (or move) the source onto `target`; `replaces` when it refreshes
    /// an existing library file
    Place { target: String, replaces: bool },
}

/// The model of a [`Placement`].
pub enum PlacementView {
    NotActionable,
    NoTarget,
    AlreadyInLibrary,
    TargetTaken,
    Place { target: Seq<char>, replaces: bool },
}

impl View for Placement {
    type V = PlacementView;

    open spec fn view(&self) -> PlacementView {
        match self {
            Placement::NotActionable => PlacementView::NotActionable,
            Placement::NoTarget => PlacementView::NoTarget,
            Placement::AlreadyInLibrary => PlacementView::AlreadyInLibrary,
            Placement::TargetTaken => PlacementView::TargetTaken,
            Placement::Place { target, replaces } => PlacementView::Place {
                target: target@,
                replaces: *replaces,
            },
        }
    }
}

/// How an item is placed, given whether overwriting was asked for and
/// whether something occupies its target when it is placed:
/// - an item that is not actionable is not placed;
/// - without a target path there is nothing to do;
/// - a source that already is the target file is left alone;
/// - an occupied target is only replaced by a duplicate or a conflict under
///   overwrite; otherwise the item is skipped;
/// - else the source goes onto the target, as a replacement when the item is
///   a duplicate or a conflict.
pub open spec fn placement_of(item: ItemView, overwrite: bool, target_taken: bool) -> PlacementView {
    if !actionable(item.disposition, overwrite) {
        PlacementView::NotActionable
    } else {
        match placement_target(item) {
            None => PlacementView::NoTarget,
            Some(t) => if crate::paths::same_path(item.src, t) {
                PlacementView::AlreadyInLibrary
            } else if target_taken && !may_replace(item.disposition, overwrite) {
                PlacementView::TargetTaken
            } else {
                PlacementView::Place {
                    target: t,
                    replaces: item.disposition == Disposition::Conflict || item.disposition
                        == Disposition::Duplicate,
                }
            },
        }
    }
}

/// The path an item would be placed at (see [`placement_target`]), so that
/// the caller can tell whether something occupies it.
pub fn target_of(item: &ImportItem) -> (t: Option<String>)
    ensures
        opt_seq(t) == placement_target(item@),
{
    let target = match item.disposition {
        Disposition::Duplicate => &item.replace,
        _ => &item.dst,
    };
    match target {
        None => None,
        Some(t) => Some(copy_string(t)),
    }
}

/// Decide how an item is placed; `target_taken` tells whether something
/// occupies its target (see [`target_of`]) at the moment of placing.
pub fn placement(item: &ImportItem, overwrite: bool, target_taken: bool) -> (p: Placement)
    ensures
        p@ == placement_of(item@, overwrite, target_taken),
{
    if !is_actionable(item.disposition, overwrite) {
        return Placement::NotActionable;
    }
    let target = match item.disposition {
        Disposition::Duplicate => &item.replace,
        _ => &item.dst,
    };
    match target {
        None => Placement::NoTarget,
        Some(t) => {
            let replaces = match item.disposition {
                Disposition::Conflict | Disposition::Duplicate => true,
                _ => false,
            };
            if crate::paths::paths_equal(item.src.as_str(), t.as_str()) {
                Placement::AlreadyInLibrary
            } else if target_taken && !(overwrite && replaces) {
                Placement::TargetTaken
            } else {
                Placement::Place { target: copy_string(t), replaces }
            }
        },
    }
}

impl ImportSummary {
    pub fn new() -> (s: ImportSummary)
        ensures
            s.placed == 0 && s.failed == 0,
    {
        ImportSummary { placed: 0, failed: 0 }
    }

    /// Count the outcome of one placement: a failed copy counts as failed; a
    /// successful one as placed, and also as failed when the source of a move
    /// could not be removed afterwards.
    pub fn record(&mut self, placed_ok: bool, removal_failed: bool)
        requires
            old(self).placed < usize::MAX,
            old(self).failed < usize::MAX,
        ensures
            final(self).placed == old(self).placed + (if placed_ok {
                1int
            } else {
                0int
            }),
            final(self).failed == old(self).failed + (if !placed_ok || removal_failed {
                1int
            } else {
                0int
            }),
    {
        if placed_ok {
            self.placed = self.placed + 1;
            if removal_failed {
                self.failed = self.failed + 1;
            }
        } else {
            self.failed = self.failed + 1;
        }
    }

    /// The exit code of an execution: 1 when anything failed, else 0.
    pub fn exit_code(&self) -> (code: i32)
        ensures
            code == (if self.failed > 0 {
                1i32
            } else {
                0i32
            }),
    {
        if self.failed > 0 {
            1
        } else {
            0
        }
    }
}

// ---------- laws ----------

/// Durations close to each other are symmetric, and a duration is close to
/// itself.
pub proof fn lemma_close_symmetric(a: Option<u64>, b: Option<u64>)
    ensures
        durations_close(a, a),
        durations_close(a, b) == durations_close(b, a),
{
}

proof fn lemma_first_close_found(
    idx: Seq<EntryView>,
    id: (Seq<char>, Seq<char>),
    dur: Option<u64>,
    from: int,
    k: int,
)
    requires
        0 <= from <= k < idx.len(),
        idx[k].artist == id.0 && idx[k].title == id.1 && durations_close(idx[k].duration, dur),
    ensures
        first_close_of_identity(idx, id, dur, from) is Some,
    decreases k - from,
{
    if from < k && !(idx[from].artist == id.0 && idx[from].title == id.1 && durations_close(
        idx[from].duration,
        dur,
    )) {
        lemma_first_close_found(idx, id, dur, from + 1, k);
    }
}

proof fn lemma_first_found(idx: Seq<EntryView>, id: (Seq<char>, Seq<char>), from: int, k: int)
    requires
        0 <= from <= k < idx.len(),
        idx[k].artist == id.0 && idx[k].title == id.1,
    ensures
        first_of_identity(idx, id, from) is Some,
    decreases k - from,
{
    if from < k && !(idx[from].artist == id.0 && idx[from].title == id.1) {
        lemma_first_found(idx, id, from + 1, k);
    }
}

/// With no indexed file of an identity from `from` on, a file of that
/// identity appended to the index is the first close match found from `from`.
proof fn lemma_appended_is_first_close(
    idx: Seq<EntryView>,
    e: EntryView,
    id: (Seq<char>, Seq<char>),
    dur: Option<u64>,
    from: int,
)
    requires
        0 <= from <= idx.len(),
        first_of_identity(idx, id, from) is None,
        e.artist == id.0 && e.title == id.1 && durations_close(e.duration, dur),
    ensures
        first_close_of_identity(idx.push(e), id, dur, from) == Some(idx.len() as int),
    decreases idx.len() - from,
{
    if from < idx.len() {
        assert(idx.push(e)[from] == idx[from]);
        lemma_appended_is_first_close(idx, e, id, dur, from + 1);
    }
}

/// Duplicates within one batch are caught: once a file has been classified
/// as new (and indexed under its identity), a later file of the same
/// identity whose duration is close to it, and whose own target is free, is
/// classified as a duplicate of the first file's projected target, which an
/// overwrite would replace.
pub proof fn lemma_batch_duplicates_caught(
    src_a: Seq<char>,
    target_a: Result<Seq<char>, Seq<char>>,
    meta_a: Option<&TrackMeta>,
    src_b: Seq<char>,
    target_b: Result<Seq<char>, Seq<char>>,
    meta_b: Option<&TrackMeta>,
    idx: Seq<EntryView>,
)
    requires
        classify_spec(src_a, target_a, false, meta_a, idx).0.disposition == Disposition::New,
        identity_of(meta_artist(meta_a), meta_title(meta_a)) is Some,
        identity_of(meta_artist(meta_b), meta_title(meta_b)) == identity_of(
            meta_artist(meta_a),
            meta_title(meta_a),
        ),
        durations_close(meta_duration(meta_a), meta_duration(meta_b)),
        target_b is Ok,
    ensures
        ({
            let item_b = classify_spec(
                src_b,
                target_b,
                false,
                meta_b,
                classify_spec(src_a, target_a, false, meta_a, idx).1,
            ).0;
            &&& item_b.disposition == Disposition::Duplicate
            &&& target_a matches Ok(dst_a) && item_b.replace == Some(dst_a)
        }),
{
    let id = identity_of(meta_artist(meta_a), meta_title(meta_a)).unwrap();
    let dst_a = target_a->Ok_0;
    let e = EntryView { artist: id.0, title: id.1, path: dst_a, duration: meta_duration(meta_a) };
    let after = classify_spec(src_a, target_a, false, meta_a, idx).1;
    assert(after == idx.push(e));
    let k = idx.len() as int;
    lemma_close_symmetric(meta_duration(meta_a), meta_duration(meta_b));
    lemma_first_found(after, id, 0, k);
    lemma_appended_is_first_close(idx, e, id, meta_duration(meta_b), 0);
}

/// Classifying never forgets an indexed file: the index stays as it was,
/// except that a file classified as new (with an identity) is appended.
pub proof fn lemma_index_only_grows(
    src: Seq<char>,
    target: Result<Seq<char>, Seq<char>>,
    target_exists: bool,
    meta: Option<&TrackMeta>,
    idx: Seq<EntryView>,
)
    ensures
        ({
            let (item, after) = classify_spec(src, target, target_exists, meta, idx);
            ||| after == idx
            ||| item.disposition == Disposition::New && after.len() == idx.len() + 1
                && after.take(idx.len() as int) == idx && after.last().path == item.dst->0
        }),
{
    let (item, after) = classify_spec(src, target, target_exists, meta, idx);
    if after != idx {
        assert(after.take(idx.len() as int) =~= idx);
    }
}

/// An occupied target is never overwritten unless overwriting was asked
/// for: a file whose target exists is a conflict, and a conflict is only
/// placed when overwriting; untagged files are never placed.
pub proof fn lemma_conflicts_need_overwrite(
    src: Seq<char>,
    dst: Seq<char>,
    meta: Option<&TrackMeta>,
    idx: Seq<EntryView>,
)
    ensures
        classify_spec(src, Ok(dst), true, meta, idx).0.disposition == Disposition::Conflict,
        !actionable(Disposition::Conflict, false),
        !actionable(Disposition::Duplicate, false),
        !actionable(Disposition::Untagged, true),
{
}

/// A target that already exists is never overwritten unless overwriting was
/// asked for: whatever the item, a placement onto an occupied target happens
/// only under overwrite, and only for a duplicate or a conflict; and only
/// actionable items are ever placed.
pub proof fn lemma_occupied_target_needs_overwrite(item: ItemView, overwrite: bool, target_taken: bool)
    ensures
        !(placement_of(item, false, true) is Place),
        placement_of(item, overwrite, true) is Place ==> overwrite && (item.disposition
            == Disposition::Conflict || item.disposition == Disposition::Duplicate),
        placement_of(item, overwrite, target_taken) is Place ==> actionable(
            item.disposition,
            overwrite,
        ),
{
}

} // verus!
