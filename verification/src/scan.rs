//! Which files of a library walk count as audio, which directory entries
//! are hidden, and the order the scan yields files in.

use vstd::prelude::*;

use crate::paths::{extension, extension_of, file_name_of, path_before, path_less};
use crate::sorting::{slot, stable_sort};
use crate::text::{ascii_lower, chars_equal, chars_of, to_ascii_lower};

verus! {

/// The audio extensions, compared case-insensitively: mp3, flac, m4a, aac,
/// wav, aiff and aif.
pub open spec fn audio_ext(e: Seq<char>) -> bool {
    let l = ascii_lower(e);
    l == "mp3"@ || l == "flac"@ || l == "m4a"@ || l == "aac"@ || l == "wav"@ || l == "aiff"@ || l
        == "aif"@
}

/// A path is an audio file when its extension is an audio extension.
pub open spec fn is_audio_path(p: Seq<char>) -> bool {
    match extension_of(p) {
        Some(e) => audio_ext(e),
        None => false,
    }
}

fn is_ext(v: &Vec<char>, ext: &str) -> (r: bool)
    ensures
        r == (v@ == ext@),
{
    let w = chars_of(ext);
    chars_equal(v.as_slice(), w.as_slice())
}

/// Whether the path names an audio file, by its extension.
pub fn is_audio(p: &str) -> (r: bool)
    ensures
        r == is_audio_path(p@),
{
    match extension(p) {
        Some(e) => {
            let l = to_ascii_lower(e.as_str());
            is_ext(&l, "mp3") || is_ext(&l, "flac") || is_ext(&l, "m4a") || is_ext(&l, "aac")
                || is_ext(&l, "wav") || is_ext(&l, "aiff") || is_ext(&l, "aif")
        },
        None => false,
    }
}

/// Whether a directory entry with this file name is hidden: the name starts
/// with a dot.
pub fn is_hidden(name: &str) -> (r: bool)
    ensures
        r == (name@.len() > 0 && name@[0] == '.'),
{
    let v = chars_of(name);
    v.len() > 0 && v[0] == '.'
}

/// The file name shown for a path: its final component, or `?` when it has
/// none.
pub open spec fn display_name(p: Seq<char>) -> Seq<char> {
    match file_name_of(p) {
        Some(n) => n,
        None => "?"@,
    }
}

/// The file name of a path, or `?` when it has none.
pub fn file_name(p: &str) -> (r: String)
    ensures
        r@ == display_name(p@),
{
    match crate::paths::file_name(p) {
        Some(n) => n,
        None => "?".to_owned(),
    }
}

/// The order of the scan's results: the order of paths.
pub open spec fn path_order() -> spec_fn(Seq<char>, Seq<char>) -> bool {
    |a: Seq<char>, b: Seq<char>| path_less(a, b)
}

/// The models of a list of paths.
pub open spec fn paths_view(v: Seq<String>) -> Seq<Seq<char>> {
    v.map_values(|s: String| s@)
}

/// The audio files among walked paths, in walk order.
pub open spec fn audio_only(v: Seq<Seq<char>>) -> Seq<Seq<char>>
    decreases v.len(),
{
    if v.len() == 0 {
        Seq::empty()
    } else if is_audio_path(v.last()) {
        audio_only(v.drop_last()).push(v.last())
    } else {
        audio_only(v.drop_last())
    }
}

/// The paths, stably sorted in path order.
pub fn sort_paths(v: Vec<String>) -> (r: Vec<String>)
    ensures
        paths_view(r@) == stable_sort(paths_view(v@), path_order()),
{
    let ghost all = paths_view(v@);
    let ghost n = all.len();
    let ghost before = path_order();
    let mut rest = crate::group::reversed(v);
    let mut out: Vec<String> = Vec::new();
    assert(all.take(0) =~= Seq::<Seq<char>>::empty());
    assert(paths_view(out@) =~= Seq::<Seq<char>>::empty());
    while rest.len() > 0
        invariant
            n == all.len(),
            rest@.len() <= n,
            before == path_order(),
            forall|i: int| 0 <= i < rest@.len() ==> (#[trigger] rest@[i])@ == all[n - 1 - i],
            paths_view(out@) == stable_sort(all.take(n - rest@.len()), before),
        decreases rest@.len(),
    {
        let ghost done = n - rest@.len();
        let ghost rv = rest@;
        let x = rest.pop().unwrap();
        assert(x@ == all[done]) by {
            assert(x == rv[rv.len() - 1]);
        }
        let ghost sv = paths_view(out@);
        let mut j: usize = 0;
        while j < out.len() && !path_before(x.as_str(), out[j].as_str())
            invariant
                j <= out@.len(),
                sv == paths_view(out@),
                before == path_order(),
                slot(sv, x@, before, 0) == slot(sv, x@, before, j as int),
            decreases out@.len() - j,
        {
            j = j + 1;
        }
        proof {
            assert(all.take(done + 1).drop_last() =~= all.take(done));
            assert(all.take(done + 1).last() == all[done]);
        }
        out.insert(j, x);
        assert(paths_view(out@) =~= sv.insert(j as int, x@));
    }
    assert(all.take(n as int) =~= all);
    out
}

/// The result of a library scan from the walked file paths: the audio
/// files, sorted in path order.
pub fn select_audio(walked: Vec<String>) -> (r: Vec<String>)
    ensures
        paths_view(r@) == stable_sort(audio_only(paths_view(walked@)), path_order()),
{
    let ghost all = paths_view(walked@);
    let ghost n = all.len();
    let mut rest = crate::group::reversed(walked);
    let mut kept: Vec<String> = Vec::new();
    assert(all.take(0) =~= Seq::<Seq<char>>::empty());
    assert(paths_view(kept@) =~= Seq::<Seq<char>>::empty());
    while rest.len() > 0
        invariant
            n == all.len(),
            rest@.len() <= n,
            forall|i: int| 0 <= i < rest@.len() ==> (#[trigger] rest@[i])@ == all[n - 1 - i],
            paths_view(kept@) == audio_only(all.take(n - rest@.len())),
        decreases rest@.len(),
    {
        let ghost done = n - rest@.len();
        let ghost rv = rest@;
        let x = rest.pop().unwrap();
        assert(x@ == all[done]) by {
            assert(x == rv[rv.len() - 1]);
        }
        proof {
            assert(all.take(done + 1).drop_last() =~= all.take(done));
            assert(all.take(done + 1).last() == all[done]);
        }
        let ghost before = paths_view(kept@);
        if is_audio(x.as_str()) {
            let ghost xv = x@;
            kept.push(x);
            assert(paths_view(kept@) =~= before.push(xv));
        }
    }
    assert(all.take(n as int) =~= all);
    sort_paths(kept)
}

/// A scan yields only audio files, each as often as it was walked, in path
/// order.
pub proof fn lemma_scan_result(walked: Seq<Seq<char>>)
    ensures
        ({
            let r = stable_sort(audio_only(walked), path_order());
            &&& crate::sorting::sorted_by(r, path_order())
            &&& r.to_multiset() == audio_only(walked).to_multiset()
            &&& forall|i: int| 0 <= i < r.len() ==> is_audio_path(#[trigger] r[i])
        }),
{
    broadcast use vstd::seq_lib::to_multiset_contains;

    let a = audio_only(walked);
    let before = path_order();
    assert forall|x: Seq<char>| !#[trigger] before(x, x) by {
        crate::paths::lemma_path_less_order(x, x, x);
    }
    assert forall|x: Seq<char>, y: Seq<char>, z: Seq<char>| #[trigger] before(x, y) && #[trigger] before(
        y,
        z,
    ) implies before(x, z) by {
        crate::paths::lemma_path_less_order(x, y, z);
    }
    crate::sorting::lemma_stable_sort(a, before);
    lemma_audio_only(walked);
    let r = stable_sort(a, before);
    assert forall|i: int| 0 <= i < r.len() implies is_audio_path(#[trigger] r[i]) by {
        assert(r.contains(r[i]));
        assert(r.to_multiset().count(r[i]) > 0);
        assert(a.contains(r[i]));
    }
}

proof fn lemma_audio_only(v: Seq<Seq<char>>)
    ensures
        forall|i: int| 0 <= i < audio_only(v).len() ==> is_audio_path(#[trigger] audio_only(v)[i]),
    decreases v.len(),
{
    if v.len() > 0 {
        let prev = audio_only(v.drop_last());
        lemma_audio_only(v.drop_last());
        if is_audio_path(v.last()) {
            assert forall|i: int| 0 <= i < audio_only(v).len() implies is_audio_path(
                #[trigger] audio_only(v)[i],
            ) by {
                if i < prev.len() {
                    assert(audio_only(v)[i] == prev[i]);
                }
            }
        }
    }
}

} // verus!
