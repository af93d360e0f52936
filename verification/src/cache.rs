//! The measurement cache of the duplicate finder: what was measured of each
//! file (content hash and quality score) by path, kept in path order and
//! valid while the file's modification time and size are unchanged.

use vstd::prelude::*;

use crate::dedup::{CachedFile, ScoreDetail};
use crate::text::{chars_equal, chars_less, chars_of, seq_less};

verus! {

/// The model of a cached measurement.
pub struct CachedView {
    pub mtime: u64,
    pub size: u64,
    pub sha256: Seq<char>,
    pub score: ScoreDetail,
}

impl View for CachedFile {
    type V = CachedView;

    open spec fn view(&self) -> CachedView {
        CachedView { mtime: self.mtime_secs, size: self.size, sha256: self.sha256@, score: self.score }
    }
}

/// The map held by a list of (path, measurement) entries: later entries
/// win over earlier ones with the same path.
pub open spec fn map_of(s: Seq<(String, CachedFile)>) -> Map<Seq<char>, CachedView>
    decreases s.len(),
{
    if s.len() == 0 {
        Map::empty()
    } else {
        map_of(s.drop_last()).insert(s.last().0@, s.last().1@)
    }
}

/// The paths of the entries strictly increase (so no path occurs twice).
pub open spec fn paths_increase(s: Seq<(String, CachedFile)>) -> bool {
    forall|i: int, j: int| 0 <= i < j < s.len() ==> seq_less(#[trigger] s[i].0@, #[trigger] s[j].0@)
}

/// Measurements by path, in path order.
pub struct MeasureCache {
    entries: Vec<(String, CachedFile)>,
}

impl View for MeasureCache {
    type V = Map<Seq<char>, CachedView>;

    closed spec fn view(&self) -> Map<Seq<char>, CachedView> {
        map_of(self.entries@)
    }
}

proof fn lemma_map_of_keys(s: Seq<(String, CachedFile)>, k: Seq<char>)
    ensures
        map_of(s).contains_key(k) <==> exists|i: int| 0 <= i < s.len() && #[trigger] s[i].0@ == k,
    decreases s.len(),
{
    if s.len() > 0 {
        lemma_map_of_keys(s.drop_last(), k);
        if map_of(s.drop_last()).contains_key(k) {
            let i = choose|i: int| 0 <= i < s.drop_last().len() && #[trigger] s.drop_last()[i].0@ == k;
            assert(s[i].0@ == k);
        }
        if exists|i: int| 0 <= i < s.len() && #[trigger] s[i].0@ == k {
            let i = choose|i: int| 0 <= i < s.len() && #[trigger] s[i].0@ == k;
            if i < s.len() - 1 {
                assert(s.drop_last()[i].0@ == k);
            }
        }
    }
}

proof fn lemma_map_of_value(s: Seq<(String, CachedFile)>, i: int)
    requires
        paths_increase(s),
        0 <= i < s.len(),
    ensures
        map_of(s).contains_key(s[i].0@),
        map_of(s)[s[i].0@] == s[i].1@,
    decreases s.len(),
{
    if i < s.len() - 1 {
        lemma_map_of_value(s.drop_last(), i);
        assert(s.drop_last()[i] == s[i]);
        crate::text::lemma_seq_less_asym(s[i].0@, s.last().0@);
        assert(seq_less(s[i].0@, s[s.len() - 1].0@));
    }
}

proof fn lemma_map_of_update(s: Seq<(String, CachedFile)>, j: int, e: (String, CachedFile))
    requires
        paths_increase(s),
        0 <= j < s.len(),
        s[j].0@ == e.0@,
    ensures
        map_of(s.update(j, e)) == map_of(s).insert(e.0@, e.1@),
    decreases s.len(),
{
    let t = s.update(j, e);
    if j == s.len() - 1 {
        assert(t.drop_last() =~= s.drop_last());
        assert(map_of(t) =~= map_of(s).insert(e.0@, e.1@));
    } else {
        lemma_map_of_update(s.drop_last(), j, e);
        assert(t.drop_last() =~= s.drop_last().update(j, e));
        crate::text::lemma_seq_less_asym(s[j].0@, s.last().0@);
        assert(seq_less(s[j].0@, s[s.len() - 1].0@));
        assert(s.last().0@ != e.0@);
        assert(map_of(t) =~= map_of(s).insert(e.0@, e.1@));
    }
}

proof fn lemma_map_of_insert(s: Seq<(String, CachedFile)>, j: int, e: (String, CachedFile))
    requires
        0 <= j <= s.len(),
        forall|i: int| 0 <= i < s.len() ==> (#[trigger] s[i]).0@ != e.0@,
    ensures
        map_of(s.insert(j, e)) == map_of(s).insert(e.0@, e.1@),
    decreases s.len(),
{
    let t = s.insert(j, e);
    if j == s.len() {
        assert(t.drop_last() =~= s);
    } else {
        lemma_map_of_insert(s.drop_last(), j, e);
        assert(t.drop_last() =~= s.drop_last().insert(j, e));
        assert(t.last() == s.last());
        assert(s.last().0@ != e.0@);
        assert(map_of(t) =~= map_of(s).insert(e.0@, e.1@));
    }
}

fn copy_cached(c: &CachedFile) -> (r: CachedFile)
    ensures
        r@ == c@,
{
    CachedFile { mtime_secs: c.mtime_secs, size: c.size, sha256: c.sha256.clone(), score: c.score }
}

impl MeasureCache {
    /// The entries are in strictly increasing path order.
    pub closed spec fn well_formed(&self) -> bool {
        paths_increase(self.entries@)
    }

    /// An empty cache.
    pub fn new() -> (c: MeasureCache)
        ensures
            c.well_formed(),
            c@ == Map::<Seq<char>, CachedView>::empty(),
    {
        let c = MeasureCache { entries: Vec::new() };
        assert(c@ =~= Map::<Seq<char>, CachedView>::empty());
        c
    }

    /// The number of cached files.
    pub fn len(&self) -> (n: usize)
        requires
            self.well_formed(),
        ensures
            n == self@.len(),
    {
        proof {
            self.lemma_len();
        }
        self.entries.len()
    }

    proof fn lemma_len(&self)
        requires
            self.well_formed(),
        ensures
            self@.len() == self.entries@.len(),
            self@.dom().finite(),
    {
        lemma_map_of_len(self.entries@);
    }

    fn position(&self, path: &str) -> (r: Option<usize>)
        requires
            self.well_formed(),
        ensures
            match r {
                Some(i) => i < self.entries@.len() && self.entries@[i as int].0@ == path@,
                None => forall|i: int| 0 <= i < self.entries@.len() ==> (#[trigger] self.entries@[i]).0@ != path@,
            },
    {
        let p = chars_of(path);
        let mut i: usize = 0;
        while i < self.entries.len()
            invariant
                i <= self.entries@.len(),
                p@ == path@,
                forall|m: int| 0 <= m < i ==> (#[trigger] self.entries@[m]).0@ != path@,
            decreases self.entries@.len() - i,
        {
            let k = chars_of(self.entries[i].0.as_str());
            if chars_equal(k.as_slice(), p.as_slice()) {
                return Some(i);
            }
            i = i + 1;
        }
        None
    }

    /// The measurement cached for `path`, if any.
    pub fn get(&self, path: &str) -> (r: Option<&CachedFile>)
        requires
            self.well_formed(),
        ensures
            match r {
                Some(c) => self@.contains_key(path@) && c@ == self@[path@],
                None => !self@.contains_key(path@),
            },
    {
        proof {
            lemma_map_of_keys(self.entries@, path@);
        }
        match self.position(path) {
            Some(i) => {
                proof {
                    lemma_map_of_value(self.entries@, i as int);
                }
                Some(&self.entries[i].1)
            },
            None => None,
        }
    }

    /// The measurement cached for `path`, when it is still valid for a file
    /// with this modification time and size.
    pub fn lookup(&self, path: &str, mtime_secs: u64, size: u64) -> (r: Option<&CachedFile>)
        requires
            self.well_formed(),
        ensures
            match r {
                Some(c) => self@.contains_key(path@) && c@ == self@[path@] && c.mtime_secs
                    == mtime_secs && c.size == size,
                None => !(self@.contains_key(path@) && self@[path@].mtime == mtime_secs
                    && self@[path@].size == size),
            },
    {
        match self.get(path) {
            Some(c) => if c.matches(mtime_secs, size) {
                Some(c)
            } else {
                None
            },
            None => None,
        }
    }

    /// Cache the measurement of `path`, replacing what was cached for it.
    pub fn insert(&mut self, path: String, c: CachedFile)
        requires
            old(self).well_formed(),
        ensures
            final(self).well_formed(),
            final(self)@ == old(self)@.insert(path@, c@),
    {
        let ghost before = self.entries@;
        let ghost e = (path, c);
        let p = chars_of(path.as_str());
        let mut j: usize = 0;
        while j < self.entries.len() && chars_less(chars_of(self.entries[j].0.as_str()).as_slice(), p.as_slice())
            invariant
                j <= self.entries@.len(),
                self.entries@ == before,
                p@ == path@,
                paths_increase(before),
                forall|m: int| 0 <= m < j ==> seq_less((#[trigger] before[m]).0@, path@),
            decreases self.entries@.len() - j,
        {
            j = j + 1;
        }
        let found = j < self.entries.len() && chars_equal(
            chars_of(self.entries[j].0.as_str()).as_slice(),
            p.as_slice(),
        );
        if found {
            proof {
                lemma_map_of_update(before, j as int, e);
            }
            self.entries.set(j, (path, c));
            assert(self.entries@ == before.update(j as int, e));
            assert forall|a: int, b: int| 0 <= a < b < self.entries@.len() implies seq_less(
                #[trigger] self.entries@[a].0@,
                #[trigger] self.entries@[b].0@,
            ) by {
                assert(before[a].0@ == self.entries@[a].0@ || a == j);
                assert(before[b].0@ == self.entries@[b].0@ || b == j);
            }
        } else {
            proof {
                if j < before.len() {
                    crate::text::lemma_seq_less_total(before[j as int].0@, path@);
                }
                assert forall|i: int| 0 <= i < before.len() implies (#[trigger] before[i]).0@ != path@ by {
                    if i < j {
                        crate::text::lemma_seq_less_asym(before[i].0@, path@);
                    } else if i > j {
                        crate::text::lemma_seq_less_asym(before[j as int].0@, before[j as int].0@);
                        if before[i].0@ == path@ {
                            crate::text::lemma_seq_less_trans(path@, before[j as int].0@, before[i].0@);
                            crate::text::lemma_seq_less_asym(path@, path@);
                        }
                    }
                }
                lemma_map_of_insert(before, j as int, e);
            }
            self.entries.insert(j, (path, c));
            assert(self.entries@ == before.insert(j as int, e));
            assert forall|a: int, b: int| 0 <= a < b < self.entries@.len() implies seq_less(
                #[trigger] self.entries@[a].0@,
                #[trigger] self.entries@[b].0@,
            ) by {
                let s = self.entries@;
                if a < j && b < j {
                    assert(s[a] == before[a] && s[b] == before[b]);
                } else if a < j && b == j {
                    assert(s[a] == before[a]);
                } else if a < j {
                    assert(s[a] == before[a] && s[b] == before[b - 1]);
                    if b - 1 > j {
                        crate::text::lemma_seq_less_trans(path@, before[j as int].0@, before[b - 1].0@);
                    }
                    crate::text::lemma_seq_less_trans(before[a].0@, path@, before[b - 1].0@);
                } else if a == j {
                    assert(s[b] == before[b - 1]);
                    if b - 1 > j {
                        crate::text::lemma_seq_less_trans(path@, before[j as int].0@, before[b - 1].0@);
                    }
                } else {
                    assert(s[a] == before[a - 1] && s[b] == before[b - 1]);
                }
            }
        }
    }

    /// The cached entries in path order, as (path, measurement) pairs.
    pub fn entries(&self) -> (r: Vec<(String, CachedFile)>)
        requires
            self.well_formed(),
        ensures
            paths_increase(r@),
            map_of(r@) == self@,
            r@.len() == self@.len(),
    {
        let mut r: Vec<(String, CachedFile)> = Vec::new();
        let mut i: usize = 0;
        assert(self.entries@.take(0) =~= Seq::<(String, CachedFile)>::empty());
        while i < self.entries.len()
            invariant
                i <= self.entries@.len(),
                self.well_formed(),
                r@.len() == i,
                forall|m: int| 0 <= m < i ==> (#[trigger] r@[m]).0@ == self.entries@[m].0@ && r@[m].1@
                    == self.entries@[m].1@,
            decreases self.entries@.len() - i,
        {
            let e = &self.entries[i];
            r.push((e.0.clone(), copy_cached(&e.1)));
            i = i + 1;
        }
        proof {
            lemma_map_of_same(r@, self.entries@);
            self.lemma_len();
        }
        r
    }
}

proof fn lemma_map_of_len(s: Seq<(String, CachedFile)>)
    requires
        paths_increase(s),
    ensures
        map_of(s).dom().finite(),
        map_of(s).len() == s.len(),
    decreases s.len(),
{
    if s.len() > 0 {
        let p = s.drop_last();
        assert(paths_increase(p));
        lemma_map_of_len(p);
        lemma_map_of_keys(p, s.last().0@);
        if map_of(p).contains_key(s.last().0@) {
            let i = choose|i: int| 0 <= i < p.len() && #[trigger] p[i].0@ == s.last().0@;
            assert(seq_less(s[i].0@, s[s.len() - 1].0@));
            crate::text::lemma_seq_less_asym(s[i].0@, s[i].0@);
        }
    }
}

proof fn lemma_map_of_same(a: Seq<(String, CachedFile)>, b: Seq<(String, CachedFile)>)
    requires
        a.len() == b.len(),
        forall|m: int| 0 <= m < a.len() ==> (#[trigger] a[m]).0@ == b[m].0@ && a[m].1@ == b[m].1@,
        paths_increase(b),
    ensures
        map_of(a) == map_of(b),
        paths_increase(a),
    decreases a.len(),
{
    if a.len() > 0 {
        lemma_map_of_same(a.drop_last(), b.drop_last());
        assert(a.last().0@ == b.last().0@);
    }
    assert forall|i: int, j: int| 0 <= i < j < a.len() implies seq_less(#[trigger] a[i].0@, #[trigger] a[j].0@) by {
        assert(a[i].0@ == b[i].0@ && a[j].0@ == b[j].0@);
    }
}

/// What is cached for a path is what was last cached for it: after caching a
/// measurement, looking the path up with the measured modification time
/// and size gives the measurement back, and other paths are unaffected.
pub proof fn lemma_cache_read_after_write(
    m: Map<Seq<char>, CachedView>,
    path: Seq<char>,
    c: CachedView,
    other: Seq<char>,
)
    requires
        other != path,
    ensures
        m.insert(path, c).contains_key(path),
        m.insert(path, c)[path] == c,
        m.insert(path, c).contains_key(other) == m.contains_key(other),
        m.contains_key(other) ==> m.insert(path, c)[other] == m[other],
{
}

} // verus!
