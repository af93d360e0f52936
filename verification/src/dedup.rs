//! Duplicate detection over a scanned library. Files with identical content
//! form "identical" groups; of the rest, files with the same normalized
//! artist + title whose durations lie close together form "same-identity"
//! groups. In each group one file is kept and the others are the losers.

use sha2::Digest;
use vstd::multiset::Multiset;
use vstd::prelude::*;
use vstd::utf8::encode_utf8;

use crate::group::{
    bucket_values, buckets, group_by_key, item_values, key_view, keyed_view, reversed, KeyView,
};
use crate::paths::{extension, extension_of, join, joined, path_before, path_less};
use crate::scan::display_name;
use crate::{run_mode, Error, RunMode};
use crate::quality::Quality;
use crate::sorting::{slot, stable_sort, strict_order};
use crate::import::meta_duration;
use crate::tags::{identity, identity_of, identity_view, opt_str, TrackMeta};
use crate::text::{
    chars_equal, chars_of, decimal, decimal_chars, extend_chars, extend_str, join as join_text,
    join_pieces, pieces_view, seq_less, signed_decimal, signed_decimal_chars, str_less, string_of,
    sub_chars,
};

verus! {

/// Same artist + title with durations within this many seconds counts as one song.
pub const DURATION_TOLERANCE_SECS: u64 = 2;

/// Which file of a group is kept.
#[derive(Clone, Copy, Debug, PartialEq, Eq, Structural)]
pub enum KeepMode {
    /// the file with the best quality rank
    Best,
    /// the file whose path comes first
    First,
}

/// The quality measurements a plan records for a file.
#[derive(Clone, Copy, Debug, PartialEq, Eq, Structural)]
pub struct ScoreDetail {
    pub format_rank: u32,
    pub bitrate: Option<u32>,
    pub sample_rate: Option<u32>,
    pub bits_per_sample: Option<u32>,
    pub has_cover: bool,
    pub has_lyrics: bool,
    pub tags_complete: bool,
    pub score: i64,
}

/// The measurements of a quality score, field by field.
pub open spec fn detail_of(q: &Quality) -> ScoreDetail {
    ScoreDetail {
        format_rank: q.format_rank,
        bitrate: q.bitrate,
        sample_rate: q.sample_rate,
        bits_per_sample: q.bits_per_sample,
        has_cover: q.has_cover,
        has_lyrics: q.has_lyrics,
        tags_complete: q.tags_complete,
        score: q.score,
    }
}

impl<'a> From<&'a Quality> for ScoreDetail {
    fn from(q: &'a Quality) -> (s: ScoreDetail) {
        ScoreDetail {
            format_rank: q.format_rank,
            bitrate: q.bitrate,
            sample_rate: q.sample_rate,
            bits_per_sample: q.bits_per_sample,
            has_cover: q.has_cover,
            has_lyrics: q.has_lyrics,
            tags_complete: q.tags_complete,
            score: q.score,
        }
    }
}

impl<'a> vstd::std_specs::convert::FromSpecImpl<&'a Quality> for ScoreDetail {
    open spec fn obeys_from_spec() -> bool {
        true
    }

    open spec fn from_spec(q: &'a Quality) -> ScoreDetail {
        detail_of(q)
    }
}

/// One measured file of the library.
pub struct FileEntry {
    pub path: String,
    pub size: u64,
    pub mtime_secs: u64,
    /// lowercase hex SHA-256 of the content
    pub sha256: String,
    pub score: ScoreDetail,
    pub duration_secs: Option<u64>,
    /// normalized (artist, title)
    pub identity: Option<(String, String)>,
}

/// The model of a [`FileEntry`].
pub struct FileView {
    pub path: Seq<char>,
    pub size: u64,
    pub mtime: u64,
    pub sha256: Seq<char>,
    pub score: ScoreDetail,
    pub duration: Option<u64>,
    pub identity: Option<(Seq<char>, Seq<char>)>,
}

impl View for FileEntry {
    type V = FileView;

    open spec fn view(&self) -> FileView {
        FileView {
            path: self.path@,
            size: self.size,
            mtime: self.mtime_secs,
            sha256: self.sha256@,
            score: self.score,
            duration: self.duration_secs,
            identity: identity_view(self.identity),
        }
    }
}

/// The models of a list of files.
pub open spec fn files_view(s: Seq<FileEntry>) -> Seq<FileView> {
    s.map_values(|e: FileEntry| e@)
}

// ---------- orders ----------

/// The length of a path in UTF-8 bytes, as `str::len` reports it.
pub open spec fn byte_len(p: Seq<char>) -> usize {
    encode_utf8(p).len() as usize
}

/// `a` ranks ahead of `b`: higher score, then older (smaller mtime), then
/// shorter path (in bytes), then the lexicographically smaller path.
pub open spec fn rank_before(a: FileView, b: FileView) -> bool {
    if a.score.score != b.score.score {
        a.score.score > b.score.score
    } else if a.mtime != b.mtime {
        a.mtime < b.mtime
    } else if byte_len(a.path) != byte_len(b.path) {
        byte_len(a.path) < byte_len(b.path)
    } else {
        seq_less(a.path, b.path)
    }
}

/// An unknown duration comes first, then shorter durations.
pub open spec fn duration_less(a: Option<u64>, b: Option<u64>) -> bool {
    match (a, b) {
        (None, Some(_)) => true,
        (Some(x), Some(y)) => x < y,
        _ => false,
    }
}

/// The orders files are sorted by.
#[derive(Clone, Copy, Debug, PartialEq, Eq, Structural)]
pub enum FileOrder {
    /// best rank first
    Rank,
    /// path order
    Path,
    /// ascending duration, unknown first
    Duration,
}

/// The strict order "comes before" of a [`FileOrder`].
pub open spec fn order_before(o: FileOrder) -> spec_fn(FileView, FileView) -> bool {
    match o {
        FileOrder::Rank => |a: FileView, b: FileView| rank_before(a, b),
        FileOrder::Path => |a: FileView, b: FileView| path_less(a.path, b.path),
        FileOrder::Duration => |a: FileView, b: FileView| duration_less(a.duration, b.duration),
    }
}

/// Each [`FileOrder`] is a strict order.
pub proof fn lemma_file_order_strict(o: FileOrder)
    ensures
        strict_order(order_before(o)),
{
    let before = order_before(o);
    assert forall|a: FileView| !#[trigger] before(a, a) by {
        crate::text::lemma_seq_less_asym(a.path, a.path);
        crate::paths::lemma_path_less_order(a.path, a.path, a.path);
    }
    assert forall|a: FileView, b: FileView, c: FileView| #[trigger] before(a, b) && #[trigger] before(
        b,
        c,
    ) implies before(a, c) by {
        if seq_less(a.path, b.path) && seq_less(b.path, c.path) {
            crate::text::lemma_seq_less_trans(a.path, b.path, c.path);
        }
        crate::paths::lemma_path_less_order(a.path, b.path, c.path);
    }
}

fn rank_ahead(a: &FileEntry, b: &FileEntry) -> (r: bool)
    ensures
        r == rank_before(a@, b@),
{
    if a.score.score != b.score.score {
        return a.score.score > b.score.score;
    }
    if a.mtime_secs != b.mtime_secs {
        return a.mtime_secs < b.mtime_secs;
    }
    let pa = a.path.as_str();
    let pb = b.path.as_str();
    let la = pa.len();
    let lb = pb.len();
    assert(la == byte_len(a.path@) && lb == byte_len(b.path@));
    if la != lb {
        return la < lb;
    }
    str_less(a.path.as_str(), b.path.as_str())
}

fn duration_ahead(a: Option<u64>, b: Option<u64>) -> (r: bool)
    ensures
        r == duration_less(a, b),
{
    match (a, b) {
        (None, Some(_)) => true,
        (Some(x), Some(y)) => x < y,
        _ => false,
    }
}

fn ahead(o: FileOrder, a: &FileEntry, b: &FileEntry) -> (r: bool)
    ensures
        r == order_before(o)(a@, b@),
{
    match o {
        FileOrder::Rank => rank_ahead(a, b),
        FileOrder::Path => path_before(a.path.as_str(), b.path.as_str()),
        FileOrder::Duration => duration_ahead(a.duration_secs, b.duration_secs),
    }
}

/// The files, stably sorted by the order `o`.
pub fn sort_files(v: Vec<FileEntry>, o: FileOrder) -> (r: Vec<FileEntry>)
    ensures
        files_view(r@) == stable_sort(files_view(v@), order_before(o)),
{
    let ghost all = files_view(v@);
    let ghost n = all.len();
    let ghost before = order_before(o);
    let mut rest = reversed(v);
    let mut out: Vec<FileEntry> = Vec::new();
    assert(all.take(0) =~= Seq::<FileView>::empty());
    assert(files_view(out@) =~= Seq::<FileView>::empty());
    while rest.len() > 0
        invariant
            n == all.len(),
            rest@.len() <= n,
            before == order_before(o),
            forall|i: int| 0 <= i < rest@.len() ==> (#[trigger] rest@[i])@ == all[n - 1 - i],
            files_view(out@) == stable_sort(all.take(n - rest@.len()), before),
        decreases rest@.len(),
    {
        let ghost done = n - rest@.len();
        let x = rest.pop().unwrap();
        let ghost sv = files_view(out@);
        let mut j: usize = 0;
        while j < out.len() && !ahead(o, &x, &out[j])
            invariant
                j <= out@.len(),
                sv == files_view(out@),
                before == order_before(o),
                slot(sv, x@, before, 0) == slot(sv, x@, before, j as int),
            decreases out@.len() - j,
        {
            j = j + 1;
        }
        proof {
            assert(all.take(done + 1).drop_last() =~= all.take(done));
            assert(all.take(done + 1).last() == all[done]);
        }
        out.insert(j, x);
        assert(files_view(out@) =~= sv.insert(j as int, x@));
    }
    assert(all.take(n as int) =~= all);
    out
}

// ---------- groups ----------

/// Why the files of a group are duplicates.
#[derive(Clone, Copy, Debug, PartialEq, Eq, Structural)]
pub enum GroupKind {
    /// same content hash
    Identical,
    /// same normalized artist + title within the duration tolerance
    SameIdentity,
}

/// The name a plan gives a group kind.
pub open spec fn kind_name(k: GroupKind) -> Seq<char> {
    match k {
        GroupKind::Identical => "identical"@,
        GroupKind::SameIdentity => "same-identity"@,
    }
}

impl GroupKind {
    /// The name a plan gives this kind.
    pub fn as_str(&self) -> (r: &'static str)
        ensures
            r@ == kind_name(*self),
    {
        match self {
            GroupKind::Identical => "identical",
            GroupKind::SameIdentity => "same-identity",
        }
    }
}

/// A group of duplicates: the file kept and the files to remove.
pub struct Group {
    pub kind: GroupKind,
    /// the shared identity of a same-identity group
    pub identity: Option<(String, String)>,
    pub keep: FileEntry,
    pub losers: Vec<FileEntry>,
}

/// The model of a [`Group`].
pub struct GroupView {
    pub kind: GroupKind,
    pub identity: Option<(Seq<char>, Seq<char>)>,
    pub keep: FileView,
    pub losers: Seq<FileView>,
}

impl View for Group {
    type V = GroupView;

    open spec fn view(&self) -> GroupView {
        GroupView {
            kind: self.kind,
            identity: identity_view(self.identity),
            keep: self.keep@,
            losers: files_view(self.losers@),
        }
    }
}

/// The models of a list of groups.
pub open spec fn groups_view(gs: Seq<Group>) -> Seq<GroupView> {
    gs.map_values(|g: Group| g@)
}

/// The group formed by `files`: with [`KeepMode::Best`] the files are ranked
/// best first and the first is kept; with [`KeepMode::First`] the file whose
/// path comes first is kept and the losers are ranked best first.
pub open spec fn make_group_spec(
    kind: GroupKind,
    identity: Option<(Seq<char>, Seq<char>)>,
    files: Seq<FileView>,
    keep: KeepMode,
) -> GroupView {
    match keep {
        KeepMode::Best => {
            let s = stable_sort(files, order_before(FileOrder::Rank));
            GroupView { kind, identity, keep: s[0], losers: s.drop_first() }
        },
        KeepMode::First => {
            let s = stable_sort(files, order_before(FileOrder::Path));
            GroupView {
                kind,
                identity,
                keep: s[0],
                losers: stable_sort(s.drop_first(), order_before(FileOrder::Rank)),
            }
        },
    }
}

/// Order within a group: score desc, then mtime asc (oldest wins), then
/// shorter path, then the lexicographically smaller path; deterministic.
pub fn make_group(
    kind: GroupKind,
    identity: Option<(String, String)>,
    bucket: Vec<FileEntry>,
    keep: KeepMode,
) -> (g: Group)
    requires
        bucket@.len() > 0,
    ensures
        g@ == make_group_spec(kind, identity_view(identity), files_view(bucket@), keep),
{
    let ghost fv = files_view(bucket@);
    let order = match keep {
        KeepMode::Best => FileOrder::Rank,
        KeepMode::First => FileOrder::Path,
    };
    let mut sorted = sort_files(bucket, order);
    proof {
        lemma_file_order_strict(order);
        crate::sorting::lemma_stable_sort(fv, order_before(order));
    }
    let ghost sv = files_view(sorted@);
    let first = sorted.remove(0);
    assert(files_view(sorted@) =~= sv.drop_first());
    let losers = match keep {
        KeepMode::Best => sorted,
        KeepMode::First => sort_files(sorted, FileOrder::Rank),
    };
    Group { kind, identity, keep: first, losers }
}

/// Two neighbouring durations, in ascending order, belong together: the
/// later is at most the tolerance past the earlier, or either is unknown.
pub open spec fn contiguous(a: Option<u64>, b: Option<u64>) -> bool {
    match (a, b) {
        (Some(x), Some(y)) => y <= x + DURATION_TOLERANCE_SECS,
        _ => true,
    }
}

/// The maximal runs of neighbouring files whose durations are contiguous.
pub open spec fn clusters(s: Seq<FileView>) -> Seq<Seq<FileView>>
    decreases s.len(),
{
    if s.len() == 0 {
        Seq::empty()
    } else {
        let prev = clusters(s.drop_last());
        if s.len() >= 2 && contiguous(s[s.len() - 2].duration, s.last().duration) {
            prev.update(prev.len() - 1, prev.last().push(s.last()))
        } else {
            prev.push(seq![s.last()])
        }
    }
}

/// The last cluster ends with the last file.
pub proof fn lemma_clusters_last(s: Seq<FileView>)
    requires
        s.len() > 0,
    ensures
        clusters(s).len() > 0,
        clusters(s).last().len() > 0,
        clusters(s).last().last() == s.last(),
    decreases s.len(),
{
    if s.len() >= 2 {
        lemma_clusters_last(s.drop_last());
    }
}

/// The same-identity groups of one identity: its clusters of more than one file.
pub open spec fn cluster_groups(id: KeyView, cs: Seq<Seq<FileView>>, keep: KeepMode) -> Seq<GroupView>
    decreases cs.len(),
{
    if cs.len() == 0 {
        Seq::empty()
    } else {
        let prev = cluster_groups(id, cs.drop_last(), keep);
        if cs.last().len() > 1 {
            prev.push(make_group_spec(GroupKind::SameIdentity, Some(id), cs.last(), keep))
        } else {
            prev
        }
    }
}

/// The groups of files sharing identity `id`: sorted by duration, then
/// clustered.
pub open spec fn identity_bucket_groups(id: KeyView, files: Seq<FileView>, keep: KeepMode) -> Seq<
    GroupView,
> {
    cluster_groups(id, clusters(stable_sort(files, order_before(FileOrder::Duration))), keep)
}

fn copy_key(k: &(String, String)) -> (r: (String, String))
    ensures
        key_view(r) == key_view(*k),
{
    (k.0.clone(), k.1.clone())
}

/// The same-identity groups of the files that share identity `id`.
pub fn identity_groups_of(id: &(String, String), bucket: Vec<FileEntry>, keep: KeepMode) -> (r: Vec<
    Group,
>)
    ensures
        groups_view(r@) == identity_bucket_groups(key_view(*id), files_view(bucket@), keep),
{
    let ghost idv = key_view(*id);
    let sorted = sort_files(bucket, FileOrder::Duration);
    let ghost s = files_view(sorted@);
    let ghost n = s.len();
    let mut rest = reversed(sorted);
    let mut out: Vec<Group> = Vec::new();
    let mut cluster: Vec<FileEntry> = Vec::new();
    let ghost mut flushed: Seq<Seq<FileView>> = Seq::empty();
    assert(groups_view(out@) =~= Seq::<GroupView>::empty());
    while rest.len() > 0
        invariant
            n == s.len(),
            rest@.len() <= n,
            idv == key_view(*id),
            forall|i: int| 0 <= i < rest@.len() ==> (#[trigger] rest@[i])@ == s[n - 1 - i],
            groups_view(out@) == cluster_groups(idv, flushed, keep),
            rest@.len() == n ==> cluster@.len() == 0 && flushed.len() == 0,
            rest@.len() < n ==> cluster@.len() > 0 && clusters(s.take(n - rest@.len()))
                == flushed.push(files_view(cluster@)),
        decreases rest@.len(),
    {
        let ghost done = n - rest@.len();
        let ghost rv = rest@;
        let e = rest.pop().unwrap();
        assert(e@ == s[done]) by {
            assert(e == rv[rv.len() - 1]);
        }
        proof {
            assert(s.take(done + 1).drop_last() =~= s.take(done));
            assert(s.take(done + 1).last() == s[done]);
            if done > 0 {
                lemma_clusters_last(s.take(done));
                assert(s.take(done).last() == s[done - 1]);
                assert(s.take(done + 1)[done - 1] == s[done - 1]);
                assert(files_view(cluster@).last() == cluster@.last()@);
            }
        }
        let split = if cluster.len() == 0 {
            false
        } else {
            let last = cluster[cluster.len() - 1].duration_secs;
            match (last, e.duration_secs) {
                (Some(a), Some(b)) => b > a && b - a > DURATION_TOLERANCE_SECS,
                _ => false,
            }
        };
        if split {
            let ghost cv = files_view(cluster@);
            let ghost before = groups_view(out@);
            let done_cluster = cluster;
            cluster = Vec::new();
            if done_cluster.len() > 1 {
                let g = make_group(GroupKind::SameIdentity, Some(copy_key(id)), done_cluster, keep);
                out.push(g);
                assert(groups_view(out@) =~= before.push(
                    make_group_spec(GroupKind::SameIdentity, Some(idv), cv, keep),
                ));
            }
            proof {
                assert(flushed.push(cv).drop_last() =~= flushed);
                flushed = flushed.push(cv);
            }
        }
        let ghost cbefore = files_view(cluster@);
        let ghost ev = e@;
        cluster.push(e);
        assert(files_view(cluster@) =~= cbefore.push(ev));
        proof {
            let t = s.take(done + 1);
            assert(t.drop_last() =~= s.take(done));
            if done > 0 {
                assert(t[t.len() - 2] == s[done - 1]);
                if !split {
                    assert(clusters(t) =~~= flushed.push(files_view(cluster@)));
                } else {
                    assert(cbefore.len() == 0);
                    assert(files_view(cluster@) =~= seq![ev]);
                    assert(clusters(t) =~~= flushed.push(files_view(cluster@)));
                }
            } else {
                assert(cbefore.len() == 0);
                assert(files_view(cluster@) =~= seq![ev]);
                assert(clusters(s.take(done)) =~= Seq::<Seq<FileView>>::empty());
                assert(flushed =~= Seq::<Seq<FileView>>::empty());
                assert(clusters(t) =~~= flushed.push(files_view(cluster@)));
            }
        }
    }
    assert(s.take(n as int) =~= s);
    if cluster.len() > 0 {
        let ghost cv = files_view(cluster@);
        let ghost before = groups_view(out@);
        if cluster.len() > 1 {
            let g = make_group(GroupKind::SameIdentity, Some(copy_key(id)), cluster, keep);
            out.push(g);
            assert(groups_view(out@) =~= before.push(
                make_group_spec(GroupKind::SameIdentity, Some(idv), cv, keep),
            ));
        }
        assert(flushed.push(cv).drop_last() =~= flushed);
    }
    out
}

/// The files keyed by their content hash.
pub open spec fn hash_keyed(es: Seq<FileView>) -> Seq<(KeyView, FileView)> {
    es.map_values(|e: FileView| ((e.sha256, Seq::<char>::empty()), e))
}

/// The files bucketed by content hash, in hash order.
pub open spec fn hash_buckets(es: Seq<FileView>) -> Seq<(KeyView, Seq<FileView>)> {
    buckets(hash_keyed(es))
}

/// The identical-content groups: the hash buckets of more than one file.
pub open spec fn identical_groups(bs: Seq<(KeyView, Seq<FileView>)>, keep: KeepMode) -> Seq<GroupView>
    decreases bs.len(),
{
    if bs.len() == 0 {
        Seq::empty()
    } else {
        let prev = identical_groups(bs.drop_last(), keep);
        if bs.last().1.len() > 1 {
            prev.push(make_group_spec(GroupKind::Identical, None, bs.last().1, keep))
        } else {
            prev
        }
    }
}

/// The files of the hash buckets of at most one file, in hash order: the
/// files no identical group consumed.
pub open spec fn unshared_files(bs: Seq<(KeyView, Seq<FileView>)>) -> Seq<FileView>
    decreases bs.len(),
{
    if bs.len() == 0 {
        Seq::empty()
    } else {
        let prev = unshared_files(bs.drop_last());
        if bs.last().1.len() > 1 {
            prev
        } else {
            prev + bs.last().1
        }
    }
}

/// The files that have an identity, keyed by it, in order.
pub open spec fn identity_keyed(es: Seq<FileView>) -> Seq<(KeyView, FileView)>
    decreases es.len(),
{
    if es.len() == 0 {
        Seq::empty()
    } else {
        let prev = identity_keyed(es.drop_last());
        match es.last().identity {
            Some(id) => prev.push((id, es.last())),
            None => prev,
        }
    }
}

/// The same-identity groups of identity buckets, in identity order.
pub open spec fn identity_groups(bs: Seq<(KeyView, Seq<FileView>)>, keep: KeepMode) -> Seq<GroupView>
    decreases bs.len(),
{
    if bs.len() == 0 {
        Seq::empty()
    } else {
        identity_groups(bs.drop_last(), keep) + identity_bucket_groups(
            bs.last().0,
            bs.last().1,
            keep,
        )
    }
}

/// All duplicate groups of the measured files: first the identical-content
/// groups in hash order, then, among the files left, the same-identity
/// groups in identity order.
pub open spec fn dedup_groups(es: Seq<FileView>, keep: KeepMode) -> Seq<GroupView> {
    let hb = hash_buckets(es);
    identical_groups(hb, keep) + identity_groups(buckets(identity_keyed(unshared_files(hb))), keep)
}

fn copy_identity(o: &Option<(String, String)>) -> (r: Option<(String, String)>)
    ensures
        identity_view(r) == identity_view(*o),
{
    match o {
        Some(k) => Some(copy_key(k)),
        None => None,
    }
}

fn append_groups(out: &mut Vec<Group>, more: Vec<Group>)
    ensures
        groups_view(final(out)@) == groups_view(old(out)@) + groups_view(more@),
{
    let ghost start = groups_view(out@);
    let ghost mv = groups_view(more@);
    let ghost n = mv.len();
    let mut rest = reversed(more);
    while rest.len() > 0
        invariant
            n == mv.len(),
            rest@.len() <= n,
            forall|i: int| 0 <= i < rest@.len() ==> (#[trigger] rest@[i])@ == mv[n - 1 - i],
            groups_view(out@) == start + mv.take(n - rest@.len()),
        decreases rest@.len(),
    {
        let ghost done = n - rest@.len();
        let ghost rv = rest@;
        let g = rest.pop().unwrap();
        assert(g@ == mv[done]) by {
            assert(g == rv[rv.len() - 1]);
        }
        let ghost before = groups_view(out@);
        out.push(g);
        assert(groups_view(out@) =~= before.push(mv[done]));
        assert(mv.take(done + 1) =~= mv.take(done).push(mv[done]));
    }
    assert(mv.take(n as int) =~= mv);
}

fn append_files(out: &mut Vec<FileEntry>, more: Vec<FileEntry>)
    ensures
        files_view(final(out)@) == files_view(old(out)@) + files_view(more@),
{
    let ghost start = files_view(out@);
    let ghost mv = files_view(more@);
    let ghost n = mv.len();
    let mut rest = reversed(more);
    while rest.len() > 0
        invariant
            n == mv.len(),
            rest@.len() <= n,
            forall|i: int| 0 <= i < rest@.len() ==> (#[trigger] rest@[i])@ == mv[n - 1 - i],
            files_view(out@) == start + mv.take(n - rest@.len()),
        decreases rest@.len(),
    {
        let ghost done = n - rest@.len();
        let ghost rv = rest@;
        let e = rest.pop().unwrap();
        assert(e@ == mv[done]) by {
            assert(e == rv[rv.len() - 1]);
        }
        let ghost before = files_view(out@);
        out.push(e);
        assert(files_view(out@) =~= before.push(mv[done]));
        assert(mv.take(done + 1) =~= mv.take(done).push(mv[done]));
    }
    assert(mv.take(n as int) =~= mv);
}

/// Groups the measured files into duplicate groups: identical content hashes
/// first (those files are fully consumed), then the same normalized identity
/// clustered by duration, so that versions outside the tolerance are never
/// merged.
pub fn build_groups(entries: Vec<FileEntry>, keep: KeepMode) -> (groups: Vec<Group>)
    ensures
        groups_view(groups@) == dedup_groups(files_view(entries@), keep),
{
    let ghost all = files_view(entries@);
    let ghost n = all.len();
    // 1. bucket by content hash
    let mut keyed: Vec<((String, String), FileEntry)> = Vec::new();
    let mut rest = reversed(entries);
    assert(keyed_view(keyed@) =~= hash_keyed(all.take(0)));
    while rest.len() > 0
        invariant
            n == all.len(),
            rest@.len() <= n,
            forall|i: int| 0 <= i < rest@.len() ==> (#[trigger] rest@[i])@ == all[n - 1 - i],
            keyed_view(keyed@) == hash_keyed(all.take(n - rest@.len())),
        decreases rest@.len(),
    {
        let ghost done = n - rest@.len();
        let ghost rv = rest@;
        let e = rest.pop().unwrap();
        assert(e@ == all[done]) by {
            assert(e == rv[rv.len() - 1]);
        }
        let ghost before = keyed_view(keyed@);
        let key = (e.sha256.clone(), String::new());
        assert(key_view(key) == (all[done].sha256, Seq::<char>::empty()));
        keyed.push((key, e));
        assert(keyed_view(keyed@) =~= before.push(((all[done].sha256, Seq::<char>::empty()), all[done])));
        assert(all.take(done + 1) =~= all.take(done).push(all[done]));
        assert(hash_keyed(all.take(done + 1)) =~= hash_keyed(all.take(done)).push(
            ((all[done].sha256, Seq::<char>::empty()), all[done]),
        ));
    }
    assert(all.take(n as int) =~= all);
    let hb = group_by_key(keyed);
    let ghost hbv = crate::group::buckets_view(hb@);
    let ghost hn = hbv.len();
    assert(hbv == hash_buckets(all));
    let mut groups: Vec<Group> = Vec::new();
    let mut unshared: Vec<FileEntry> = Vec::new();
    let mut brest = reversed(hb);
    assert(groups_view(groups@) =~= identical_groups(hbv.take(0), keep));
    assert(files_view(unshared@) =~= unshared_files(hbv.take(0)));
    while brest.len() > 0
        invariant
            hn == hbv.len(),
            brest@.len() <= hn,
            forall|i: int|
                0 <= i < brest@.len() ==> (key_view((#[trigger] brest@[i]).0), files_view(
                    brest@[i].1@,
                )) == hbv[hn - 1 - i],
            groups_view(groups@) == identical_groups(hbv.take(hn - brest@.len()), keep),
            files_view(unshared@) == unshared_files(hbv.take(hn - brest@.len())),
        decreases brest@.len(),
    {
        let ghost done = hn - brest@.len();
        let ghost rv = brest@;
        let (key, bucket) = brest.pop().unwrap();
        assert((key_view(key), files_view(bucket@)) == hbv[done]) by {
            assert((key, bucket) == rv[rv.len() - 1]);
        }
        proof {
            assert(hbv.take(done + 1).drop_last() =~= hbv.take(done));
            assert(hbv.take(done + 1).last() == hbv[done]);
        }
        let ghost gbefore = groups_view(groups@);
        if bucket.len() > 1 {
            let ghost bv = files_view(bucket@);
            let g = make_group(GroupKind::Identical, None, bucket, keep);
            groups.push(g);
            assert(groups_view(groups@) =~= gbefore.push(
                make_group_spec(GroupKind::Identical, None, bv, keep),
            ));
        } else {
            append_files(&mut unshared, bucket);
        }
    }
    assert(hbv.take(hn as int) =~= hbv);
    // 2. same identity, clustered by duration
    let ghost uv = files_view(unshared@);
    let ghost un = uv.len();
    let mut ikeyed: Vec<((String, String), FileEntry)> = Vec::new();
    let mut urest = reversed(unshared);
    assert(keyed_view(ikeyed@) =~= identity_keyed(uv.take(0)));
    while urest.len() > 0
        invariant
            un == uv.len(),
            urest@.len() <= un,
            forall|i: int| 0 <= i < urest@.len() ==> (#[trigger] urest@[i])@ == uv[un - 1 - i],
            keyed_view(ikeyed@) == identity_keyed(uv.take(un - urest@.len())),
        decreases urest@.len(),
    {
        let ghost done = un - urest@.len();
        let ghost rv = urest@;
        let e = urest.pop().unwrap();
        assert(e@ == uv[done]) by {
            assert(e == rv[rv.len() - 1]);
        }
        proof {
            assert(uv.take(done + 1).drop_last() =~= uv.take(done));
            assert(uv.take(done + 1).last() == uv[done]);
        }
        let ghost before = keyed_view(ikeyed@);
        match copy_identity(&e.identity) {
            Some(id) => {
                let ghost ev = e@;
                ikeyed.push((id, e));
                assert(keyed_view(ikeyed@) =~= before.push((key_view(id), ev)));
            },
            None => {},
        }
    }
    assert(uv.take(un as int) =~= uv);
    let ib = group_by_key(ikeyed);
    let ghost ibv = crate::group::buckets_view(ib@);
    let ghost inn = ibv.len();
    let ghost first = groups_view(groups@);
    let mut irest = reversed(ib);
    assert(groups_view(groups@) =~= first + identity_groups(ibv.take(0), keep));
    while irest.len() > 0
        invariant
            inn == ibv.len(),
            irest@.len() <= inn,
            forall|i: int|
                0 <= i < irest@.len() ==> (key_view((#[trigger] irest@[i]).0), files_view(
                    irest@[i].1@,
                )) == ibv[inn - 1 - i],
            groups_view(groups@) == first + identity_groups(ibv.take(inn - irest@.len()), keep),
        decreases irest@.len(),
    {
        let ghost done = inn - irest@.len();
        let ghost rv = irest@;
        let (id, bucket) = irest.pop().unwrap();
        assert((key_view(id), files_view(bucket@)) == ibv[done]) by {
            assert((id, bucket) == rv[rv.len() - 1]);
        }
        proof {
            assert(ibv.take(done + 1).drop_last() =~= ibv.take(done));
            assert(ibv.take(done + 1).last() == ibv[done]);
        }
        let more = identity_groups_of(&id, bucket, keep);
        append_groups(&mut groups, more);
    }
    assert(ibv.take(inn as int) =~= ibv);
    groups
}

// ---------- measuring ----------

/// What a plan caches of a measured file, valid while its modification
/// time and size are unchanged.
pub struct CachedFile {
    pub mtime_secs: u64,
    pub size: u64,
    pub sha256: String,
    pub score: ScoreDetail,
}

impl CachedFile {
    /// The cached measurement of `e`.
    pub fn of(e: &FileEntry) -> (c: CachedFile)
        ensures
            c.mtime_secs == e.mtime_secs,
            c.size == e.size,
            c.sha256@ == e.sha256@,
            c.score == e.score,
    {
        CachedFile { mtime_secs: e.mtime_secs, size: e.size, sha256: e.sha256.clone(), score: e.score }
    }

    /// Whether the cache entry still describes a file with this modification
    /// time and size.
    pub fn matches(&self, mtime_secs: u64, size: u64) -> (r: bool)
        ensures
            r == (self.mtime_secs == mtime_secs && self.size == size),
    {
        self.mtime_secs == mtime_secs && self.size == size
    }
}

/// The identity of a file with these tags (none without tags).
pub open spec fn meta_identity(meta: Option<&TrackMeta>) -> Option<(Seq<char>, Seq<char>)> {
    match meta {
        Some(m) => identity_of(opt_str(m.artist), opt_str(m.title)),
        None => None,
    }
}

fn identity_of_meta(meta: Option<&TrackMeta>) -> (r: Option<(String, String)>)
    ensures
        identity_view(r) == meta_identity(meta),
{
    match meta {
        Some(m) => identity(m),
        None => None,
    }
}

fn duration_of_meta(meta: Option<&TrackMeta>) -> (r: Option<u64>)
    ensures
        r == meta_duration(meta),
{
    match meta {
        Some(m) => m.duration,
        None => None,
    }
}

/// The entry of a file whose hash and score come from the cache; duration
/// and identity are re-read from the tags.
pub fn entry_from_cache(path: &str, c: &CachedFile, meta: Option<&TrackMeta>) -> (e: FileEntry)
    ensures
        e@ == (FileView {
            path: path@,
            size: c.size,
            mtime: c.mtime_secs,
            sha256: c.sha256@,
            score: c.score,
            duration: meta_duration(meta),
            identity: meta_identity(meta),
        }),
{
    FileEntry {
        path: path.to_owned(),
        size: c.size,
        mtime_secs: c.mtime_secs,
        sha256: c.sha256.clone(),
        score: c.score,
        duration_secs: duration_of_meta(meta),
        identity: identity_of_meta(meta),
    }
}

/// The entry of a freshly measured file.
pub fn entry_from_measure(
    path: &str,
    size: u64,
    mtime_secs: u64,
    q: &Quality,
    sha256: String,
    meta: Option<&TrackMeta>,
) -> (e: FileEntry)
    ensures
        e@ == (FileView {
            path: path@,
            size,
            mtime: mtime_secs,
            sha256: sha256@,
            score: detail_of(q),
            duration: meta_duration(meta),
            identity: meta_identity(meta),
        }),
{
    FileEntry {
        path: path.to_owned(),
        size,
        mtime_secs,
        sha256,
        score: ScoreDetail::from(q),
        duration_secs: duration_of_meta(meta),
        identity: identity_of_meta(meta),
    }
}

/// The SHA-256 digest of `data`, as `sha2::Sha256::digest` computes it.
pub uninterp spec fn sha256_of(data: Seq<u8>) -> Seq<u8>;

/// Calls `sha2::Sha256::digest`, whose output type holds 32 bytes; the
/// digest is named `sha256_of(data@)`.
#[verifier::external_body]
fn sha256_digest(data: &[u8]) -> (r: Vec<u8>)
    ensures
        r@ == sha256_of(data@),
        r@.len() == 32,
{
    sha2::Sha256::digest(data).to_vec()
}

/// The lowercase hexadecimal digit for `d < 16`.
pub open spec fn hex_digit(d: int) -> char {
    if d < 10 {
        (48 + d) as char
    } else {
        (87 + d) as char
    }
}

/// Each byte as two lowercase hexadecimal digits, high nibble first.
pub open spec fn hex_of(bytes: Seq<u8>) -> Seq<char>
    decreases bytes.len(),
{
    if bytes.len() == 0 {
        Seq::empty()
    } else {
        hex_of(bytes.drop_last()) + seq![
            hex_digit(bytes.last() as int / 16),
            hex_digit(bytes.last() as int % 16),
        ]
    }
}

fn hex_char(d: u8) -> (c: char)
    requires
        d < 16,
    ensures
        c == hex_digit(d as int),
{
    if d < 10 {
        (d + 48u8) as char
    } else {
        (d + 87u8) as char
    }
}

/// The lowercase hex SHA-256 of `data`.
pub fn sha256_hex(data: &[u8]) -> (r: String)
    ensures
        r@ == hex_of(sha256_of(data@)),
{
    let digest = sha256_digest(data);
    let mut out: Vec<char> = Vec::new();
    let mut i: usize = 0;
    assert(digest@.take(0) =~= Seq::<u8>::empty());
    while i < digest.len()
        invariant
            i <= digest@.len(),
            out@ == hex_of(digest@.take(i as int)),
        decreases digest@.len() - i,
    {
        let b = digest[i];
        out.push(hex_char(b / 16));
        out.push(hex_char(b % 16));
        assert(digest@.take(i + 1).drop_last() =~= digest@.take(i as int));
        assert(out@ =~= hex_of(digest@.take(i + 1)));
        i = i + 1;
    }
    assert(digest@.take(i as int) =~= digest@);
    string_of(out.as_slice())
}

// ---------- report ----------

/// The value of an optional reading, 0 when absent.
pub open spec fn or_zero(o: Option<u32>) -> nat {
    match o {
        Some(v) => v as nat,
        None => 0,
    }
}

/// The parts of a score description: bitrate, then sample rate when known,
/// then the cover, lyrics and incomplete-tags markers that apply.
pub open spec fn describe_parts(s: ScoreDetail) -> Seq<Seq<char>> {
    let p0 = seq![decimal(or_zero(s.bitrate)) + "kbps"@];
    let p1 = match s.sample_rate {
        Some(sr) => p0.push(decimal(sr as nat) + "Hz"@),
        None => p0,
    };
    let p2 = if s.has_cover {
        p1.push("cover"@)
    } else {
        p1
    };
    let p3 = if s.has_lyrics {
        p2.push("lyrics"@)
    } else {
        p2
    };
    if !s.tags_complete {
        p3.push("incomplete-tags"@)
    } else {
        p3
    }
}

/// `score <n> (<parts joined by ", ">)`.
pub open spec fn describe_spec(s: ScoreDetail) -> Seq<char> {
    "score "@ + signed_decimal(s.score as int) + " ("@ + join_text(describe_parts(s), ", "@) + ")"@
}

fn word(s: &str) -> (v: Vec<char>)
    ensures
        v@ == s@,
{
    crate::text::chars_of(s)
}

/// A one-line description of a score, as the report prints it.
pub fn describe(score: &ScoreDetail) -> (r: String)
    ensures
        r@ == describe_spec(*score),
{
    let bitrate: u64 = match score.bitrate {
        Some(b) => b as u64,
        None => 0,
    };
    let mut first = decimal_chars(bitrate);
    extend_str(&mut first, "kbps");
    let mut parts: Vec<Vec<char>> = Vec::new();
    parts.push(first);
    let ghost p0 = pieces_view(parts@);
    assert(p0 =~= seq![decimal(or_zero(score.bitrate)) + "kbps"@]);
    if let Some(sr) = score.sample_rate {
        let mut p = decimal_chars(sr as u64);
        extend_str(&mut p, "Hz");
        parts.push(p);
    }
    let ghost p1 = pieces_view(parts@);
    assert(p1 =~= match score.sample_rate {
        Some(sr) => p0.push(decimal(sr as nat) + "Hz"@),
        None => p0,
    });
    if score.has_cover {
        parts.push(word("cover"));
    }
    let ghost p2 = pieces_view(parts@);
    assert(p2 =~= if score.has_cover {
        p1.push("cover"@)
    } else {
        p1
    });
    if score.has_lyrics {
        parts.push(word("lyrics"));
    }
    let ghost p3 = pieces_view(parts@);
    assert(p3 =~= if score.has_lyrics {
        p2.push("lyrics"@)
    } else {
        p2
    });
    if !score.tags_complete {
        parts.push(word("incomplete-tags"));
    }
    assert(pieces_view(parts@) =~= describe_parts(*score));
    let sep = word(", ");
    let joined = join_pieces(&parts, sep.as_slice());
    let mut out = word("score ");
    let num = signed_decimal_chars(score.score);
    extend_chars(&mut out, num.as_slice());
    extend_str(&mut out, " (");
    extend_chars(&mut out, joined.as_slice());
    extend_str(&mut out, ")");
    string_of(out.as_slice())
}

/// The number of groups of kind `k`.
pub open spec fn kind_total(gs: Seq<GroupView>, k: GroupKind) -> nat
    decreases gs.len(),
{
    if gs.len() == 0 {
        0
    } else {
        kind_total(gs.drop_last(), k) + (if gs.last().kind == k {
            1nat
        } else {
            0nat
        })
    }
}

/// The number of groups of kind `k`.
pub fn count_kind(groups: &Vec<Group>, k: GroupKind) -> (n: usize)
    ensures
        n == kind_total(groups_view(groups@), k),
{
    let ghost gv = groups_view(groups@);
    let mut n: usize = 0;
    let mut i: usize = 0;
    assert(gv.take(0) =~= Seq::<GroupView>::empty());
    while i < groups.len()
        invariant
            i <= groups@.len(),
            gv == groups_view(groups@),
            n == kind_total(gv.take(i as int), k),
            n <= i,
        decreases groups@.len() - i,
    {
        assert(gv.take(i + 1).drop_last() =~= gv.take(i as int));
        assert(gv[i as int] == groups@[i as int]@);
        if groups[i].kind == k {
            n = n + 1;
        }
        i = i + 1;
    }
    assert(gv.take(i as int) =~= gv);
    n
}

/// The total size of a list of files.
pub open spec fn bytes_total(fs: Seq<FileView>) -> nat
    decreases fs.len(),
{
    if fs.len() == 0 {
        0
    } else {
        bytes_total(fs.drop_last()) + fs.last().size as nat
    }
}

/// The total size of the losers of all groups: what removing them frees.
pub open spec fn reclaimable_total(gs: Seq<GroupView>) -> nat
    decreases gs.len(),
{
    if gs.len() == 0 {
        0
    } else {
        reclaimable_total(gs.drop_last()) + bytes_total(gs.last().losers)
    }
}

/// The total size of the losers of all groups, or `None` when it does not
/// fit in 64 bits.
pub fn reclaimable_bytes(groups: &Vec<Group>) -> (r: Option<u64>)
    ensures
        r == (if reclaimable_total(groups_view(groups@)) <= u64::MAX {
            Some(reclaimable_total(groups_view(groups@)) as u64)
        } else {
            None
        }),
{
    let ghost gv = groups_view(groups@);
    let mut total: u64 = 0;
    let mut i: usize = 0;
    assert(gv.take(0) =~= Seq::<GroupView>::empty());
    while i < groups.len()
        invariant
            i <= groups@.len(),
            gv == groups_view(groups@),
            total == reclaimable_total(gv.take(i as int)),
        decreases groups@.len() - i,
    {
        assert(gv.take(i + 1).drop_last() =~= gv.take(i as int));
        assert(gv[i as int] == groups@[i as int]@);
        let losers = &groups[i].losers;
        let ghost lv = files_view(losers@);
        let mut j: usize = 0;
        assert(lv.take(0) =~= Seq::<FileView>::empty());
        while j < losers.len()
            invariant
                i < groups@.len(),
                gv == groups_view(groups@),
                lv == gv[i as int].losers,
                losers == groups@[i as int].losers,
                j <= losers@.len(),
                lv == files_view(losers@),
                total == reclaimable_total(gv.take(i as int)) + bytes_total(lv.take(j as int)),
            decreases losers@.len() - j,
        {
            assert(lv.take(j + 1).drop_last() =~= lv.take(j as int));
            assert(lv[j as int] == losers@[j as int]@);
            match total.checked_add(losers[j].size) {
                Some(t) => {
                    total = t;
                },
                None => {
                    proof {
                        assert(bytes_total(lv.take(j + 1)) == bytes_total(lv.take(j as int))
                            + lv[j as int].size);
                        lemma_reclaimable_grows(gv, i as int, j as int);
                    }
                    return None;
                },
            }
            j = j + 1;
        }
        assert(lv.take(j as int) =~= lv);
        i = i + 1;
    }
    assert(gv.take(i as int) =~= gv);
    Some(total)
}

proof fn lemma_bytes_total_prefix(fs: Seq<FileView>, j: int)
    requires
        0 <= j <= fs.len(),
    ensures
        bytes_total(fs.take(j)) <= bytes_total(fs),
    decreases fs.len() - j,
{
    if j < fs.len() {
        lemma_bytes_total_prefix(fs, j + 1);
        assert(fs.take(j + 1).drop_last() =~= fs.take(j));
    } else {
        assert(fs.take(j) =~= fs);
    }
}

proof fn lemma_reclaimable_prefix(gs: Seq<GroupView>, i: int)
    requires
        0 <= i <= gs.len(),
    ensures
        reclaimable_total(gs.take(i)) <= reclaimable_total(gs),
    decreases gs.len() - i,
{
    if i < gs.len() {
        lemma_reclaimable_prefix(gs, i + 1);
        assert(gs.take(i + 1).drop_last() =~= gs.take(i));
    } else {
        assert(gs.take(i) =~= gs);
    }
}

proof fn lemma_reclaimable_grows(gs: Seq<GroupView>, i: int, j: int)
    requires
        0 <= i < gs.len(),
        0 <= j < gs[i].losers.len(),
    ensures
        reclaimable_total(gs.take(i)) + bytes_total(gs[i].losers.take(j + 1)) <= reclaimable_total(gs),
{
    lemma_bytes_total_prefix(gs[i].losers, j + 1);
    lemma_reclaimable_prefix(gs, i + 1);
    assert(gs.take(i + 1).drop_last() =~= gs.take(i));
}

// ---------- execution ----------

/// The options of a dedup run.
pub struct DedupOpts {
    pub root: Option<String>,
    pub execute: bool,
    /// execute this saved plan instead of analyzing again
    pub from: Option<String>,
    pub keep: KeepMode,
    pub trash: Option<String>,
    pub delete: bool,
    pub plan: String,
}

/// What the options ask for: `--from` only makes sense together with
/// `--execute` (a usage error otherwise).
pub fn dedup_run(opts: &DedupOpts) -> (r: Result<RunMode, Error>)
    ensures
        (opts.from is Some && !opts.execute) <==> r is Err,
        r matches Err(e) ==> e matches Error::Usage(m) && m@ == crate::from_without_execute_msg(),
        r matches Ok(m) ==> m == (if opts.execute {
            RunMode::Execute
        } else {
            RunMode::Analyze
        }),
{
    run_mode(opts.execute, opts.from.is_some())
}

/// The trash directory: the one given, or `.dedup-trash` under the root.
pub open spec fn trash_dir_of(root: Seq<char>, trash: Option<Seq<char>>) -> Seq<char> {
    match trash {
        Some(t) => t,
        None => joined(root, ".dedup-trash"@),
    }
}

/// The trash directory of a run.
pub fn trash_dir(root: &str, trash: &Option<String>) -> (r: String)
    ensures
        r@ == trash_dir_of(root@, crate::tags::opt_str(*trash)),
{
    match trash {
        Some(t) => t.clone(),
        None => join(root, ".dedup-trash"),
    }
}

/// The extension of a path with its dot, or nothing.
pub open spec fn dotted_ext(p: Seq<char>) -> Seq<char> {
    match extension_of(p) {
        Some(e) => seq!['.'] + e,
        None => Seq::empty(),
    }
}

/// `name` without the suffix `ext`, or `name` when it does not end with it.
pub open spec fn strip_suffix(name: Seq<char>, ext: Seq<char>) -> Seq<char> {
    if ext.len() <= name.len() && name.skip(name.len() - ext.len()) == ext {
        name.take(name.len() - ext.len())
    } else {
        name
    }
}

/// Where the `n`-th attempt moves `src` in the trash: `<trash>/<kind>/`
/// with the original file name first, then `<stem>-<n><ext>`.
pub open spec fn trash_candidate_of(src: Seq<char>, trash: Seq<char>, kind: GroupKind, n: nat) -> Seq<
    char,
> {
    let dir = joined(trash, kind_name(kind));
    let name = display_name(src);
    let ext = dotted_ext(src);
    if n == 0 {
        joined(dir, name)
    } else {
        joined(dir, strip_suffix(name, ext) + "-"@ + decimal(n) + ext)
    }
}

/// The `n`-th place tried for `src` in the trash (`n == 0` first); the
/// caller moves on to the next while the place is taken.
pub fn trash_candidate(src: &str, trash: &str, kind: GroupKind, n: u32) -> (r: String)
    ensures
        r@ == trash_candidate_of(src@, trash@, kind, n as nat),
{
    let dir = join(trash, kind.as_str());
    let name = crate::scan::file_name(src);
    if n == 0 {
        return join(dir.as_str(), name.as_str());
    }
    let mut ext: Vec<char> = Vec::new();
    if let Some(e) = extension(src) {
        ext.push('.');
        extend_str(&mut ext, e.as_str());
    }
    assert(ext@ =~= dotted_ext(src@));
    let nv = chars_of(name.as_str());
    let nl = nv.len();
    let el = ext.len();
    let mut leaf: Vec<char> = if el <= nl && chars_equal(sub_chars(nv.as_slice(), nl - el, nl).as_slice(), ext.as_slice()) {
        assert(nv@.subrange(nl - el, nl as int) =~= nv@.skip(nl - el));
        let stem = sub_chars(nv.as_slice(), 0, nl - el);
        assert(stem@ =~= nv@.take(nl - el));
        stem
    } else {
        proof {
            if el <= nl {
                assert(nv@.subrange(nl - el, nl as int) =~= nv@.skip(nl - el));
            }
        }
        nv
    };
    assert(leaf@ == strip_suffix(name@, ext@));
    leaf.push('-');
    let digits = decimal_chars(n as u64);
    extend_chars(&mut leaf, digits.as_slice());
    extend_chars(&mut leaf, ext.as_slice());
    assert(leaf@ =~= strip_suffix(name@, ext@) + "-"@ + decimal(n as nat) + ext@) by {
        reveal_strlit("-");
    }
    let leaf_s = string_of(leaf.as_slice());
    join(dir.as_str(), leaf_s.as_str())
}

/// What executing a plan does with one loser.
#[derive(Clone, Copy, Debug, PartialEq, Eq, Structural)]
pub enum DedupAction {
    /// the kept file is gone: the whole group is left untouched
    SkipGroup,
    /// the loser itself is gone
    SkipLoser,
    /// remove the loser
    Delete,
    /// move the loser into the trash
    MoveToTrash,
}

/// Decide what happens to a loser: never touch the losers when the kept
/// file is missing (the group might be the only surviving copy of the
/// song), skip losers that are gone, else delete or move to the trash.
pub fn dedup_action(keeper_present: bool, loser_present: bool, delete: bool) -> (a: DedupAction)
    ensures
        a == (if !keeper_present {
            DedupAction::SkipGroup
        } else if !loser_present {
            DedupAction::SkipLoser
        } else if delete {
            DedupAction::Delete
        } else {
            DedupAction::MoveToTrash
        }),
{
    if !keeper_present {
        DedupAction::SkipGroup
    } else if !loser_present {
        DedupAction::SkipLoser
    } else if delete {
        DedupAction::Delete
    } else {
        DedupAction::MoveToTrash
    }
}

/// The outcome counts of an execution.
pub struct DedupTally {
    pub removed: usize,
    pub skipped: usize,
    pub failed: usize,
    /// bytes freed by the removed losers
    pub freed: u64,
}

impl DedupTally {
    pub fn new() -> (t: DedupTally)
        ensures
            t.removed == 0 && t.skipped == 0 && t.failed == 0 && t.freed == 0,
    {
        DedupTally { removed: 0, skipped: 0, failed: 0, freed: 0 }
    }

    /// A group left untouched: all its losers count as skipped.
    pub fn record_group_skipped(&mut self, losers: usize)
        requires
            old(self).skipped + losers <= usize::MAX,
        ensures
            final(self).skipped == old(self).skipped + losers,
            final(self).removed == old(self).removed,
            final(self).failed == old(self).failed,
            final(self).freed == old(self).freed,
    {
        self.skipped = self.skipped + losers;
    }

    /// A loser that is gone.
    pub fn record_skipped(&mut self)
        requires
            old(self).skipped < usize::MAX,
        ensures
            final(self).skipped == old(self).skipped + 1,
            final(self).removed == old(self).removed,
            final(self).failed == old(self).failed,
            final(self).freed == old(self).freed,
    {
        self.skipped = self.skipped + 1;
    }

    /// A loser of `size` bytes was removed.
    pub fn record_removed(&mut self, size: u64)
        requires
            old(self).removed < usize::MAX,
            old(self).freed + size <= u64::MAX,
        ensures
            final(self).removed == old(self).removed + 1,
            final(self).freed == old(self).freed + size,
            final(self).skipped == old(self).skipped,
            final(self).failed == old(self).failed,
    {
        self.removed = self.removed + 1;
        self.freed = self.freed + size;
    }

    /// Removing a loser failed.
    pub fn record_failed(&mut self)
        requires
            old(self).failed < usize::MAX,
        ensures
            final(self).failed == old(self).failed + 1,
            final(self).removed == old(self).removed,
            final(self).skipped == old(self).skipped,
            final(self).freed == old(self).freed,
    {
        self.failed = self.failed + 1;
    }

    /// Whether to point the user at the trash: losers were moved there.
    pub fn moved_to_trash(&self, delete: bool) -> (r: bool)
        ensures
            r == (!delete && self.removed > 0),
    {
        !delete && self.removed > 0
    }

    /// The exit code of an execution: 1 when anything failed, else 0.
    pub fn exit_code(&self) -> (code: i32)
        ensures
            code == (if self.failed > 0 {
                1i32
            } else {
                0i32
            }),
    {
        if self.failed > 0 {
            1
        } else {
            0
        }
    }
}

// ---------- laws ----------

/// The files of a group: the one kept, then the losers.
pub open spec fn group_files(g: GroupView) -> Seq<FileView> {
    seq![g.keep] + g.losers
}

/// A group holds exactly the files it was made of, at least one of which is
/// a loser when there were two or more; the losers are ranked best first;
/// with [`KeepMode::Best`] no loser ranks ahead of the kept file, and with
/// [`KeepMode::First`] no loser's path comes before the kept file's.
pub proof fn lemma_make_group(
    kind: GroupKind,
    identity: Option<(Seq<char>, Seq<char>)>,
    files: Seq<FileView>,
    keep: KeepMode,
)
    requires
        files.len() > 0,
    ensures
        ({
            let g = make_group_spec(kind, identity, files, keep);
            &&& g.kind == kind
            &&& g.identity == identity
            &&& g.losers.len() + 1 == files.len()
            &&& group_files(g).to_multiset() == files.to_multiset()
            &&& crate::sorting::sorted_by(g.losers, order_before(FileOrder::Rank))
            &&& keep == KeepMode::Best ==> forall|k: int|
                0 <= k < g.losers.len() ==> !rank_before(#[trigger] g.losers[k], g.keep)
            &&& keep == KeepMode::First ==> forall|k: int|
                0 <= k < g.losers.len() ==> !path_less((#[trigger] g.losers[k]).path, g.keep.path)
        }),
{
    broadcast use vstd::seq_lib::lemma_multiset_commutative, vstd::seq_lib::to_multiset_contains;

    let g = make_group_spec(kind, identity, files, keep);
    let rank = order_before(FileOrder::Rank);
    lemma_file_order_strict(FileOrder::Rank);
    lemma_file_order_strict(FileOrder::Path);
    let order = match keep {
        KeepMode::Best => FileOrder::Rank,
        KeepMode::First => FileOrder::Path,
    };
    let s = stable_sort(files, order_before(order));
    crate::sorting::lemma_stable_sort(files, order_before(order));
    assert(s =~= seq![s[0]] + s.drop_first());
    assert(g.keep == s[0]);
    match keep {
        KeepMode::Best => {
            assert(g.losers == s.drop_first());
            assert(group_files(g) =~= s);
            assert forall|i: int, j: int| 0 <= i < j < g.losers.len() implies !rank(
                #[trigger] g.losers[j],
                #[trigger] g.losers[i],
            ) by {
                assert(g.losers[i] == s[i + 1] && g.losers[j] == s[j + 1]);
            }
            assert forall|k: int| 0 <= k < g.losers.len() implies !rank_before(
                #[trigger] g.losers[k],
                g.keep,
            ) by {
                assert(g.losers[k] == s[k + 1]);
                assert(!order_before(order)(s[k + 1], s[0]));
            }
        },
        KeepMode::First => {
            let rest = s.drop_first();
            crate::sorting::lemma_stable_sort(rest, rank);
            assert(g.losers == stable_sort(rest, rank));
            assert(group_files(g).to_multiset() =~= seq![s[0]].to_multiset().add(
                g.losers.to_multiset(),
            ));
            assert(s.to_multiset() =~= seq![s[0]].to_multiset().add(rest.to_multiset()));
            assert forall|k: int| 0 <= k < g.losers.len() implies !path_less(
                (#[trigger] g.losers[k]).path,
                g.keep.path,
            ) by {
                let f = g.losers[k];
                assert(g.losers.contains(f));
                assert(g.losers.to_multiset().count(f) > 0);
                assert(rest.contains(f));
                let j = choose|j: int| 0 <= j < rest.len() && rest[j] == f;
                assert(rest[j] == s[j + 1]);
                assert(!order_before(order)(s[j + 1], s[0]));
            }
        },
    }
}

/// The clusters of a sequence cover it in order and are not empty; within a
/// cluster each neighbouring pair of durations is contiguous, and where one
/// cluster ends and the next begins the durations are not: files whose
/// durations are further apart than the tolerance are never merged.
#[verifier::spinoff_prover]
#[verifier::rlimit(50)]
pub proof fn lemma_clusters(s: Seq<FileView>)
    ensures
        clusters(s).flatten() == s,
        forall|i: int| 0 <= i < clusters(s).len() ==> (#[trigger] clusters(s)[i]).len() > 0,
        forall|i: int, k: int|
            0 <= i < clusters(s).len() && 0 <= k < clusters(s)[i].len() ==> s.contains(
                #[trigger] clusters(s)[i][k],
            ),
        forall|i: int, k: int|
            0 <= i < clusters(s).len() && 0 < k < clusters(s)[i].len() ==> contiguous(
                clusters(s)[i][k - 1].duration,
                (#[trigger] clusters(s)[i][k]).duration,
            ),
        forall|i: int|
            0 < i < clusters(s).len() ==> !contiguous(
                clusters(s)[i - 1].last().duration,
                (#[trigger] clusters(s)[i])[0].duration,
            ),
    decreases s.len(),
{
    if s.len() > 0 {
        let prev = s.drop_last();
        let x = s.last();
        lemma_clusters(prev);
        let cs = clusters(prev);
        let r = clusters(s);
        if s.len() >= 2 {
            lemma_clusters_last(prev);
        }
        assert(s =~= prev.push(x));
        if s.len() >= 2 && contiguous(s[s.len() - 2].duration, x.duration) {
            let last = cs.len() - 1;
            assert(r == cs.update(last, cs[last].push(x)));
            assert(cs =~= cs.drop_last().push(cs[last]));
            assert(r =~= cs.drop_last().push(cs[last].push(x)));
            cs.drop_last().lemma_flatten_push(cs[last]);
            cs.drop_last().lemma_flatten_push(cs[last].push(x));
            assert(cs.drop_last().flatten() + cs[last].push(x) =~= (cs.drop_last().flatten()
                + cs[last]).push(x));
            assert forall|i: int, k: int|
                0 <= i < r.len() && 0 < k < r[i].len() implies contiguous(
                r[i][k - 1].duration,
                (#[trigger] r[i][k]).duration,
            ) by {
                if i == last && k == r[i].len() - 1 {
                    assert(r[i][k - 1] == cs[last].last());
                }
                if i == last && k < r[i].len() - 1 {
                    assert(r[i][k - 1] == cs[last][k - 1] && r[i][k] == cs[last][k]);
                }
            }
            assert forall|i: int| 0 < i < r.len() implies !contiguous(
                r[i - 1].last().duration,
                (#[trigger] r[i])[0].duration,
            ) by {
                if i == last {
                    assert(r[i][0] == cs[i][0]);
                }
            }
            assert forall|i: int, k: int|
                0 <= i < r.len() && 0 <= k < r[i].len() implies s.contains(#[trigger] r[i][k]) by {
                if i == last && k == r[i].len() - 1 {
                    assert(s[s.len() - 1] == x);
                } else {
                    assert(r[i][k] == cs[i][k]);
                    assert(prev.contains(cs[i][k]));
                    let m = choose|m: int| 0 <= m < prev.len() && prev[m] == cs[i][k];
                    assert(s[m] == prev[m]);
                }
            }
        } else {
            assert(r == cs.push(seq![x]));
            cs.lemma_flatten_push(seq![x]);
            assert(cs.flatten() + seq![x] =~= prev.push(x));
            assert forall|i: int| 0 < i < r.len() implies !contiguous(
                r[i - 1].last().duration,
                (#[trigger] r[i])[0].duration,
            ) by {
                if i == cs.len() {
                    assert(cs.last().last() == prev.last());
                    assert(prev.last() == s[s.len() - 2]);
                }
            }
            assert forall|i: int, k: int|
                0 <= i < r.len() && 0 <= k < r[i].len() implies s.contains(#[trigger] r[i][k]) by {
                if i == cs.len() {
                    assert(s[s.len() - 1] == x);
                } else {
                    assert(r[i][k] == cs[i][k]);
                    assert(prev.contains(cs[i][k]));
                    let m = choose|m: int| 0 <= m < prev.len() && prev[m] == cs[i][k];
                    assert(s[m] == prev[m]);
                }
            }
        }
    }
}

/// The kept file and the losers are in the right order: there is at least
/// one loser, the losers are ranked best first, and the kept file is the
/// best ranked ([`KeepMode::Best`]) or the first by path ([`KeepMode::First`]).
pub open spec fn well_kept(g: GroupView, keep: KeepMode) -> bool {
    &&& g.losers.len() >= 1
    &&& crate::sorting::sorted_by(g.losers, order_before(FileOrder::Rank))
    &&& keep == KeepMode::Best ==> forall|k: int|
        0 <= k < g.losers.len() ==> !rank_before(#[trigger] g.losers[k], g.keep)
    &&& keep == KeepMode::First ==> forall|k: int|
        0 <= k < g.losers.len() ==> !path_less((#[trigger] g.losers[k]).path, g.keep.path)
}

/// The files of a group share what made them duplicates: one content hash
/// for an identical group (which carries no identity), the group's identity
/// for a same-identity group.
pub open spec fn shares_key(g: GroupView) -> bool {
    match g.kind {
        GroupKind::Identical => g.identity is None && forall|k: int|
            0 <= k < group_files(g).len() ==> (#[trigger] group_files(g)[k]).sha256
                == g.keep.sha256,
        GroupKind::SameIdentity => g.identity is Some && forall|k: int|
            0 <= k < group_files(g).len() ==> (#[trigger] group_files(g)[k]).identity
                == g.identity,
    }
}

proof fn lemma_group_of(
    kind: GroupKind,
    identity: Option<(Seq<char>, Seq<char>)>,
    files: Seq<FileView>,
    keep: KeepMode,
    p: spec_fn(FileView) -> bool,
)
    requires
        files.len() > 1,
        forall|j: int| 0 <= j < files.len() ==> p(#[trigger] files[j]),
    ensures
        ({
            let g = make_group_spec(kind, identity, files, keep);
            &&& well_kept(g, keep)
            &&& g.kind == kind
            &&& g.identity == identity
            &&& forall|k: int| 0 <= k < group_files(g).len() ==> p(#[trigger] group_files(g)[k])
        }),
{
    broadcast use vstd::seq_lib::to_multiset_contains;

    let g = make_group_spec(kind, identity, files, keep);
    lemma_make_group(kind, identity, files, keep);
    assert forall|k: int| 0 <= k < group_files(g).len() implies p(#[trigger] group_files(g)[k]) by {
        let f = group_files(g)[k];
        assert(group_files(g).contains(f));
        assert(group_files(g).to_multiset().count(f) > 0);
        assert(files.contains(f));
    }
}

proof fn lemma_identical_groups(bs: Seq<(KeyView, Seq<FileView>)>, keep: KeepMode)
    requires
        forall|i: int, j: int|
            0 <= i < bs.len() && 0 <= j < bs[i].1.len() ==> (#[trigger] bs[i].1[j]).sha256
                == bs[i].0.0,
    ensures
        forall|i: int|
            0 <= i < identical_groups(bs, keep).len() ==> well_kept(
                #[trigger] identical_groups(bs, keep)[i],
                keep,
            ) && shares_key(identical_groups(bs, keep)[i])
                && identical_groups(bs, keep)[i].kind == GroupKind::Identical,
    decreases bs.len(),
{
    if bs.len() > 0 {
        let prev = bs.drop_last();
        lemma_identical_groups(prev, keep);
        let b = bs.last();
        if b.1.len() > 1 {
            let p = |f: FileView| f.sha256 == b.0.0;
            assert forall|j: int| 0 <= j < b.1.len() implies p(#[trigger] b.1[j]) by {
                assert(bs[bs.len() - 1].1[j] == b.1[j]);
            }
            lemma_group_of(GroupKind::Identical, None, b.1, keep, p);
            let g = make_group_spec(GroupKind::Identical, None, b.1, keep);
            assert(group_files(g)[0] == g.keep);
            assert(p(group_files(g)[0]));
        }
    }
}

proof fn lemma_cluster_groups(id: KeyView, cs: Seq<Seq<FileView>>, keep: KeepMode)
    requires
        forall|i: int, k: int|
            0 <= i < cs.len() && 0 <= k < cs[i].len() ==> (#[trigger] cs[i][k]).identity == Some(
                id,
            ),
    ensures
        forall|i: int|
            0 <= i < cluster_groups(id, cs, keep).len() ==> well_kept(
                #[trigger] cluster_groups(id, cs, keep)[i],
                keep,
            ) && shares_key(cluster_groups(id, cs, keep)[i])
                && cluster_groups(id, cs, keep)[i].kind == GroupKind::SameIdentity,
    decreases cs.len(),
{
    if cs.len() > 0 {
        lemma_cluster_groups(id, cs.drop_last(), keep);
        let c = cs.last();
        if c.len() > 1 {
            let p = |f: FileView| f.identity == Some(id);
            assert forall|j: int| 0 <= j < c.len() implies p(#[trigger] c[j]) by {
                assert(cs[cs.len() - 1][j] == c[j]);
            }
            lemma_group_of(GroupKind::SameIdentity, Some(id), c, keep, p);
        }
    }
}

proof fn lemma_identity_bucket_groups(id: KeyView, files: Seq<FileView>, keep: KeepMode)
    requires
        forall|j: int| 0 <= j < files.len() ==> (#[trigger] files[j]).identity == Some(id),
    ensures
        forall|i: int|
            0 <= i < identity_bucket_groups(id, files, keep).len() ==> well_kept(
                #[trigger] identity_bucket_groups(id, files, keep)[i],
                keep,
            ) && shares_key(identity_bucket_groups(id, files, keep)[i])
                && identity_bucket_groups(id, files, keep)[i].kind == GroupKind::SameIdentity,
{
    broadcast use vstd::seq_lib::to_multiset_contains;

    let s = stable_sort(files, order_before(FileOrder::Duration));
    lemma_file_order_strict(FileOrder::Duration);
    crate::sorting::lemma_stable_sort(files, order_before(FileOrder::Duration));
    let cs = clusters(s);
    lemma_clusters(s);
    assert forall|i: int, k: int| 0 <= i < cs.len() && 0 <= k < cs[i].len() implies (
    #[trigger] cs[i][k]).identity == Some(id) by {
        let f = cs[i][k];
        assert(s.contains(f));
        assert(s.to_multiset().count(f) > 0);
        assert(files.contains(f));
    }
    lemma_cluster_groups(id, cs, keep);
}

proof fn lemma_identity_groups(bs: Seq<(KeyView, Seq<FileView>)>, keep: KeepMode)
    requires
        forall|i: int, j: int|
            0 <= i < bs.len() && 0 <= j < bs[i].1.len() ==> (#[trigger] bs[i].1[j]).identity
                == Some(bs[i].0),
    ensures
        forall|i: int|
            0 <= i < identity_groups(bs, keep).len() ==> well_kept(
                #[trigger] identity_groups(bs, keep)[i],
                keep,
            ) && shares_key(identity_groups(bs, keep)[i])
                && identity_groups(bs, keep)[i].kind == GroupKind::SameIdentity,
    decreases bs.len(),
{
    if bs.len() > 0 {
        let prev = bs.drop_last();
        lemma_identity_groups(prev, keep);
        let b = bs.last();
        assert forall|j: int| 0 <= j < b.1.len() implies (#[trigger] b.1[j]).identity == Some(
            b.0,
        ) by {
            assert(bs[bs.len() - 1].1[j] == b.1[j]);
        }
        lemma_identity_bucket_groups(b.0, b.1, keep);
        let a = identity_groups(prev, keep);
        let c = identity_bucket_groups(b.0, b.1, keep);
        assert forall|i: int| 0 <= i < (a + c).len() implies well_kept(#[trigger] (a + c)[i], keep)
            && shares_key((a + c)[i]) && (a + c)[i].kind == GroupKind::SameIdentity by {
            if i < a.len() {
                assert((a + c)[i] == a[i]);
            } else {
                assert((a + c)[i] == c[i - a.len()]);
            }
        }
    }
}

proof fn lemma_identity_keyed(es: Seq<FileView>)
    ensures
        forall|m: int|
            0 <= m < identity_keyed(es).len() ==> (#[trigger] identity_keyed(es)[m]).1.identity
                == Some(identity_keyed(es)[m].0),
    decreases es.len(),
{
    if es.len() > 0 {
        lemma_identity_keyed(es.drop_last());
    }
}

/// Every duplicate group has at least one loser, losers ranked best first
/// and the kept file chosen by the keep mode; an identical group's files
/// all have one content hash, a same-identity group's files all carry the
/// group's identity; the identical groups come first.
pub proof fn lemma_dedup_groups(es: Seq<FileView>, keep: KeepMode)
    ensures
        forall|i: int|
            0 <= i < dedup_groups(es, keep).len() ==> well_kept(
                #[trigger] dedup_groups(es, keep)[i],
                keep,
            ) && shares_key(dedup_groups(es, keep)[i]),
        forall|i: int, j: int|
            0 <= i < j < dedup_groups(es, keep).len() && dedup_groups(es, keep)[j].kind
                == GroupKind::Identical ==> #[trigger] dedup_groups(es, keep)[i].kind
                == #[trigger] dedup_groups(es, keep)[j].kind,
        forall|i: int|
            0 <= i < dedup_groups(es, keep).len() ==> ((#[trigger] dedup_groups(es, keep)[i]).kind
                == GroupKind::Identical <==> i < identical_groups(hash_buckets(es), keep).len()),
{
    let items = hash_keyed(es);
    let hb = hash_buckets(es);
    crate::group::lemma_buckets_are_ordered_groups(items);
    assert forall|i: int, j: int| 0 <= i < hb.len() && 0 <= j < hb[i].1.len() implies (
    #[trigger] hb[i].1[j]).sha256 == hb[i].0.0 by {
        crate::group::lemma_values_with_key_added(items, hb[i].0);
        assert(items.contains((hb[i].0, hb[i].1[j])));
        let m = choose|m: int| 0 <= m < items.len() && items[m] == (hb[i].0, hb[i].1[j]);
        assert(items[m] == ((es[m].sha256, Seq::<char>::empty()), es[m]));
    }
    lemma_identical_groups(hb, keep);
    let items2 = identity_keyed(unshared_files(hb));
    let ib = buckets(items2);
    crate::group::lemma_buckets_are_ordered_groups(items2);
    lemma_identity_keyed(unshared_files(hb));
    assert forall|i: int, j: int| 0 <= i < ib.len() && 0 <= j < ib[i].1.len() implies (
    #[trigger] ib[i].1[j]).identity == Some(ib[i].0) by {
        crate::group::lemma_values_with_key_added(items2, ib[i].0);
        assert(items2.contains((ib[i].0, ib[i].1[j])));
        let m = choose|m: int| 0 <= m < items2.len() && items2[m] == (ib[i].0, ib[i].1[j]);
    }
    lemma_identity_groups(ib, keep);
    let a = identical_groups(hb, keep);
    let c = identity_groups(ib, keep);
    let gs = dedup_groups(es, keep);
    assert(gs == a + c);
    assert forall|i: int| 0 <= i < gs.len() implies well_kept(#[trigger] gs[i], keep) && shares_key(
        gs[i],
    ) && (i < a.len() <==> gs[i].kind == GroupKind::Identical) by {
        if i < a.len() {
            assert(gs[i] == a[i]);
        } else {
            assert(gs[i] == c[i - a.len()]);
        }
    }
}

/// Each identical group is made of one hash bucket of more than one file.
proof fn lemma_identical_groups_from(bs: Seq<(KeyView, Seq<FileView>)>, keep: KeepMode)
    ensures
        forall|i: int|
            0 <= i < identical_groups(bs, keep).len() ==> exists|j: int|
                0 <= j < bs.len() && bs[j].1.len() > 1 && #[trigger] identical_groups(bs, keep)[i]
                    == make_group_spec(GroupKind::Identical, None, bs[j].1, keep),
    decreases bs.len(),
{
    if bs.len() > 0 {
        let prev = bs.drop_last();
        lemma_identical_groups_from(prev, keep);
        let gs = identical_groups(bs, keep);
        assert forall|i: int| 0 <= i < gs.len() implies exists|j: int|
            0 <= j < bs.len() && bs[j].1.len() > 1 && #[trigger] gs[i] == make_group_spec(
                GroupKind::Identical,
                None,
                bs[j].1,
                keep,
            ) by {
            if i < identical_groups(prev, keep).len() {
                let j = choose|j: int|
                    0 <= j < prev.len() && prev[j].1.len() > 1 && #[trigger] identical_groups(
                        prev,
                        keep,
                    )[i] == make_group_spec(GroupKind::Identical, None, prev[j].1, keep);
                assert(prev[j] == bs[j]);
            } else {
                assert(bs[bs.len() - 1] == bs.last());
            }
        }
    }
}

/// An identical group holds every measured file with its content hash: no
/// file of the same content is left out of the group that keeps one copy.
pub proof fn lemma_identical_groups_complete(es: Seq<FileView>, keep: KeepMode)
    ensures
        forall|i: int, m: int|
            0 <= i < dedup_groups(es, keep).len() && 0 <= m < es.len() && dedup_groups(
                es,
                keep,
            )[i].kind == GroupKind::Identical && (#[trigger] es[m]).sha256 == (
            #[trigger] dedup_groups(es, keep)[i]).keep.sha256 ==> group_files(
                dedup_groups(es, keep)[i],
            ).contains(es[m]),
{
    broadcast use vstd::seq_lib::to_multiset_contains;

    let items = hash_keyed(es);
    let hb = hash_buckets(es);
    let a = identical_groups(hb, keep);
    let gs = dedup_groups(es, keep);
    lemma_dedup_groups(es, keep);
    lemma_identical_groups_from(hb, keep);
    crate::group::lemma_buckets_are_ordered_groups(items);
    assert forall|i: int, m: int|
        0 <= i < gs.len() && 0 <= m < es.len() && gs[i].kind == GroupKind::Identical && (
        #[trigger] es[m]).sha256 == (#[trigger] gs[i]).keep.sha256 implies group_files(
        gs[i],
    ).contains(es[m]) by {
        assert(i < a.len());
        assert(gs[i] == a[i]);
        let j = choose|j: int|
            0 <= j < hb.len() && hb[j].1.len() > 1 && #[trigger] a[i] == make_group_spec(
                GroupKind::Identical,
                None,
                hb[j].1,
                keep,
            );
        let g = a[i];
        let k = hb[j].0;
        lemma_make_group(GroupKind::Identical, None, hb[j].1, keep);
        // the kept file is one of the bucket's files, all stored under the
        // key of their own hash
        assert(group_files(g)[0] == g.keep);
        assert(group_files(g).contains(g.keep));
        assert(group_files(g).to_multiset().count(g.keep) > 0);
        assert(hb[j].1.contains(g.keep));
        let t = choose|t: int| 0 <= t < hb[j].1.len() && hb[j].1[t] == g.keep;
        crate::group::lemma_values_with_key_added(items, k);
        assert(items.contains((k, hb[j].1[t])));
        let n = choose|n: int| 0 <= n < items.len() && items[n] == (k, hb[j].1[t]);
        assert(items[n] == ((es[n].sha256, Seq::<char>::empty()), es[n]));
        assert(k == (g.keep.sha256, Seq::<char>::empty()));
        // so es[m] is stored under the same key, and lands in the bucket
        assert(items[m] == (k, es[m]));
        let pred = crate::group::has_key::<FileView>(k);
        items.lemma_filter_contains(pred, m);
        let f = items.filter(pred);
        let u = choose|u: int| 0 <= u < f.len() && f[u] == items[m];
        assert(crate::group::values_with_key(items, k)[u] == es[m]);
        assert(hb[j].1.contains(es[m]));
        assert(hb[j].1.to_multiset().count(es[m]) > 0);
        assert(group_files(g).to_multiset().count(es[m]) > 0);
    }
}

/// All files of the groups, counted with multiplicity.
pub open spec fn files_in_groups(gs: Seq<GroupView>) -> Multiset<FileView>
    decreases gs.len(),
{
    if gs.len() == 0 {
        Multiset::empty()
    } else {
        files_in_groups(gs.drop_last()).add(group_files(gs.last()).to_multiset())
    }
}

proof fn lemma_files_in_groups_concat(a: Seq<GroupView>, b: Seq<GroupView>)
    ensures
        files_in_groups(a + b) == files_in_groups(a).add(files_in_groups(b)),
    decreases b.len(),
{
    broadcast use vstd::multiset::group_multiset_axioms;

    if b.len() == 0 {
        assert(a + b =~= a);
        assert(files_in_groups(a).add(files_in_groups(b)) =~= files_in_groups(a));
    } else {
        lemma_files_in_groups_concat(a, b.drop_last());
        assert((a + b).drop_last() =~= a + b.drop_last());
        assert((a + b).last() == b.last());
        assert(files_in_groups(a + b) =~= files_in_groups(a).add(files_in_groups(b)));
    }
}

proof fn lemma_identical_consume(bs: Seq<(KeyView, Seq<FileView>)>, keep: KeepMode)
    ensures
        files_in_groups(identical_groups(bs, keep)).add(unshared_files(bs).to_multiset())
            == bucket_values(bs),
    decreases bs.len(),
{
    broadcast use vstd::multiset::group_multiset_axioms, vstd::seq_lib::lemma_multiset_commutative;

    if bs.len() == 0 {
        crate::group::lemma_empty_multiset::<FileView>();
        assert(files_in_groups(identical_groups(bs, keep)).add(unshared_files(bs).to_multiset())
            =~= Multiset::empty());
    } else {
        let prev = bs.drop_last();
        let b = bs.last();
        lemma_identical_consume(prev, keep);
        let pg = files_in_groups(identical_groups(prev, keep));
        let pu = unshared_files(prev).to_multiset();
        assert(bucket_values(bs) == bucket_values(prev).add(b.1.to_multiset()));
        if b.1.len() > 1 {
            lemma_make_group(GroupKind::Identical, None, b.1, keep);
            let g = make_group_spec(GroupKind::Identical, None, b.1, keep);
            assert(identical_groups(bs, keep) == identical_groups(prev, keep).push(g));
            assert(identical_groups(bs, keep).drop_last() =~= identical_groups(prev, keep));
            assert(files_in_groups(identical_groups(bs, keep)) == pg.add(b.1.to_multiset()));
            assert(unshared_files(bs) == unshared_files(prev));
            assert(pg.add(b.1.to_multiset()).add(pu) =~= pg.add(pu).add(b.1.to_multiset()));
        } else {
            assert(identical_groups(bs, keep) == identical_groups(prev, keep));
            assert(unshared_files(bs) == unshared_files(prev) + b.1);
            assert((unshared_files(prev) + b.1).to_multiset() == pu.add(b.1.to_multiset()));
            assert(pg.add(pu.add(b.1.to_multiset())) =~= pg.add(pu).add(b.1.to_multiset()));
        }
    }
}

proof fn lemma_identity_keyed_sub(es: Seq<FileView>)
    ensures
        item_values(identity_keyed(es)).to_multiset().subset_of(es.to_multiset()),
    decreases es.len(),
{
    broadcast use vstd::multiset::group_multiset_axioms, vstd::seq_lib::to_multiset_build;

    if es.len() == 0 {
        crate::group::lemma_empty_multiset::<FileView>();
        assert(item_values(identity_keyed(es)) =~= Seq::<FileView>::empty());
    } else {
        let prev = es.drop_last();
        let x = es.last();
        lemma_identity_keyed_sub(prev);
        assert(es =~= prev.push(x));
        match x.identity {
            Some(id) => {
                assert(item_values(identity_keyed(es)) =~= item_values(identity_keyed(prev)).push(x));
            },
            None => {},
        }
    }
}

proof fn lemma_cluster_groups_sub(id: KeyView, cs: Seq<Seq<FileView>>, keep: KeepMode)
    ensures
        files_in_groups(cluster_groups(id, cs, keep)).subset_of(cs.flatten().to_multiset()),
    decreases cs.len(),
{
    broadcast use vstd::multiset::group_multiset_axioms, vstd::seq_lib::lemma_multiset_commutative;

    if cs.len() == 0 {
        crate::group::lemma_empty_multiset::<FileView>();
    } else {
        let prev = cs.drop_last();
        let c = cs.last();
        lemma_cluster_groups_sub(id, prev, keep);
        assert(cs =~= prev.push(c));
        prev.lemma_flatten_push(c);
        let fp = prev.flatten().to_multiset();
        let pg = files_in_groups(cluster_groups(id, prev, keep));
        assert(cs.flatten() == prev.flatten() + c);
        assert((prev.flatten() + c).to_multiset() == fp.add(c.to_multiset()));
        if c.len() > 1 {
            lemma_make_group(GroupKind::SameIdentity, Some(id), c, keep);
            let g = make_group_spec(GroupKind::SameIdentity, Some(id), c, keep);
            assert(cluster_groups(id, cs, keep).drop_last() =~= cluster_groups(id, prev, keep));
            assert(files_in_groups(cluster_groups(id, cs, keep)) == pg.add(c.to_multiset()));
        } else {
            assert(cluster_groups(id, cs, keep) == cluster_groups(id, prev, keep));
        }
    }
}

proof fn lemma_identity_groups_sub(bs: Seq<(KeyView, Seq<FileView>)>, keep: KeepMode)
    ensures
        files_in_groups(identity_groups(bs, keep)).subset_of(bucket_values(bs)),
    decreases bs.len(),
{
    broadcast use vstd::multiset::group_multiset_axioms;

    if bs.len() > 0 {
        let prev = bs.drop_last();
        let b = bs.last();
        lemma_identity_groups_sub(prev, keep);
        let s = stable_sort(b.1, order_before(FileOrder::Duration));
        lemma_file_order_strict(FileOrder::Duration);
        crate::sorting::lemma_stable_sort(b.1, order_before(FileOrder::Duration));
        lemma_clusters(s);
        lemma_cluster_groups_sub(b.0, clusters(s), keep);
        lemma_files_in_groups_concat(
            identity_groups(prev, keep),
            identity_bucket_groups(b.0, b.1, keep),
        );
    }
}

/// The groups neither invent nor repeat files: counted with multiplicity,
/// the files of all groups are among the measured files. In particular a
/// file consumed by an identical-content group is in no same-identity group.
pub proof fn lemma_groups_conserve_files(es: Seq<FileView>, keep: KeepMode)
    ensures
        files_in_groups(dedup_groups(es, keep)).subset_of(es.to_multiset()),
{
    broadcast use vstd::multiset::group_multiset_axioms;

    let hb = hash_buckets(es);
    let u = unshared_files(hb);
    let items2 = identity_keyed(u);
    crate::group::lemma_bucket_values(hash_keyed(es));
    assert(item_values(hash_keyed(es)) =~= es);
    lemma_identical_consume(hb, keep);
    lemma_identity_keyed_sub(u);
    crate::group::lemma_bucket_values(items2);
    lemma_identity_groups_sub(buckets(items2), keep);
    lemma_files_in_groups_concat(identical_groups(hb, keep), identity_groups(buckets(items2), keep));
}

} // verus!
