//! Where a file lands in the library: the template rendered with the file's
//! tags, name and extension, joined onto the library root.

use vstd::prelude::*;

use crate::paths::{extension, extension_of, file_stem, join, joined, stem_of};
use crate::tags::{opt_str, TrackMeta};
use crate::template::{render_all, RenderValues, Template, ValuesView};
use crate::text::{ascii_lower, string_of, to_ascii_lower};

verus! {

/// One of the text tags of optional metadata.
pub open spec fn meta_primary_artist(meta: Option<&TrackMeta>) -> Option<Seq<char>> {
    match meta {
        Some(m) => opt_str(m.primary_artist),
        None => None,
    }
}

pub open spec fn meta_artist(meta: Option<&TrackMeta>) -> Option<Seq<char>> {
    match meta {
        Some(m) => opt_str(m.artist),
        None => None,
    }
}

pub open spec fn meta_title(meta: Option<&TrackMeta>) -> Option<Seq<char>> {
    match meta {
        Some(m) => opt_str(m.title),
        None => None,
    }
}

pub open spec fn meta_album(meta: Option<&TrackMeta>) -> Option<Seq<char>> {
    match meta {
        Some(m) => opt_str(m.album),
        None => None,
    }
}

/// The values a file's target is rendered with: its tags, its file stem
/// (empty when it has none) and its lowercased extension (empty when none).
pub open spec fn target_values(src: Seq<char>, meta: Option<&TrackMeta>) -> ValuesView {
    ValuesView {
        primary_artist: meta_primary_artist(meta),
        artist: meta_artist(meta),
        title: meta_title(meta),
        album: meta_album(meta),
        filename: match stem_of(src) {
            Some(s) => s,
            None => Seq::empty(),
        },
        ext: match extension_of(src) {
            Some(e) => ascii_lower(e),
            None => Seq::empty(),
        },
    }
}

/// The components joined onto `root`, in order.
pub open spec fn joined_all(root: Seq<char>, cs: Seq<Seq<char>>) -> Seq<char>
    decreases cs.len(),
{
    if cs.len() == 0 {
        root
    } else {
        joined(joined_all(root, cs.drop_last()), cs.last())
    }
}

/// The target path of `src` under `root`, or why the template cannot be
/// rendered for it.
pub open spec fn target_of(
    root: Seq<char>,
    template: Seq<Seq<crate::template::PartView>>,
    src: Seq<char>,
    meta: Option<&TrackMeta>,
) -> Result<Seq<char>, Seq<char>> {
    match render_all(template, target_values(src, meta)) {
        Ok(cs) => Ok(joined_all(root, cs)),
        Err(e) => Err(e),
    }
}

/// The model of a result holding strings.
pub open spec fn str_result(r: Result<String, String>) -> Result<Seq<char>, Seq<char>> {
    match r {
        Ok(s) => Ok(s@),
        Err(e) => Err(e@),
    }
}

fn field<'a>(o: &'a Option<String>) -> (r: Option<&'a str>)
    ensures
        crate::template::opt_view(r) == opt_str(*o),
{
    match o {
        Some(s) => Some(s.as_str()),
        None => None,
    }
}

/// Render the target path of `src` below `root`.
pub fn render_target(root: &str, template: &Template, src: &str, meta: Option<&TrackMeta>) -> (r:
    Result<String, String>)
    ensures
        str_result(r) == target_of(root@, template@, src@, meta),
{
    let ext = match extension(src) {
        Some(e) => string_of(to_ascii_lower(e.as_str()).as_slice()),
        None => String::new(),
    };
    let filename = match file_stem(src) {
        Some(s) => s,
        None => String::new(),
    };
    let (primary_artist, artist, title, album) = match meta {
        Some(m) => (field(&m.primary_artist), field(&m.artist), field(&m.title), field(&m.album)),
        None => (None, None, None, None),
    };
    let vals = RenderValues {
        primary_artist,
        artist,
        title,
        album,
        filename: filename.as_str(),
        ext: ext.as_str(),
    };
    assert(crate::template::values_view(vals) == target_values(src@, meta));
    let components = match template.render(&vals) {
        Ok(c) => c,
        Err(e) => return Err(e),
    };
    let ghost cs = components@.map_values(|c: String| c@);
    let mut path = string_of(crate::text::chars_of(root).as_slice());
    let mut i: usize = 0;
    assert(cs.take(0) =~= Seq::<Seq<char>>::empty());
    while i < components.len()
        invariant
            i <= components@.len(),
            cs == components@.map_values(|c: String| c@),
            path@ == joined_all(root@, cs.take(i as int)),
        decreases components@.len() - i,
    {
        assert(cs.take(i + 1).drop_last() =~= cs.take(i as int));
        path = join(path.as_str(), components[i].as_str());
        i = i + 1;
    }
    assert(cs.take(i as int) =~= cs);
    Ok(path)
}

// ---------- laws ----------

/// Whether `s` holds no ASCII upper-case letter.
pub open spec fn no_ascii_upper(s: Seq<char>) -> bool {
    forall|i: int| 0 <= i < s.len() ==> !('A' <= #[trigger] s[i] && s[i] <= 'Z')
}

/// Extensions that differ only in the case of ASCII letters.
pub open spec fn same_ext_up_to_case(a: Option<Seq<char>>, b: Option<Seq<char>>) -> bool {
    match (a, b) {
        (Some(x), Some(y)) => ascii_lower(x) == ascii_lower(y),
        (None, None) => true,
        _ => false,
    }
}

/// Lowercasing leaves no ASCII upper-case letter, and leaves a string that
/// has none unchanged.
proof fn lemma_ascii_lower(s: Seq<char>)
    ensures
        no_ascii_upper(ascii_lower(s)),
        no_ascii_upper(s) ==> ascii_lower(s) == s,
{
    assert forall|i: int| 0 <= i < ascii_lower(s).len() implies !('A' <= #[trigger] ascii_lower(
        s,
    )[i] && ascii_lower(s)[i] <= 'Z') by {
        let c = s[i];
        if 'A' <= c && c <= 'Z' {
            assert('A' as u32 <= c as u32 && c as u32 <= 'Z' as u32);
            assert((((c as u32) + 32) as char) as u32 == (c as u32) + 32);
        }
    }
    if no_ascii_upper(s) {
        assert(ascii_lower(s) =~= s);
    }
}

/// A target is rendered with the file's tags, its file stem (empty when it
/// has none) and the ASCII-lowercased extension of its path (empty when it
/// has none): the `{ext}` value never holds an ASCII upper-case letter, and
/// is the extension itself when that is already lower case.
pub proof fn lemma_target_uses_lowercased_extension(
    root: Seq<char>,
    template: Seq<Seq<crate::template::PartView>>,
    src: Seq<char>,
    meta: Option<&TrackMeta>,
)
    ensures
        exists|v: ValuesView|
            {
                &&& v.primary_artist == meta_primary_artist(meta)
                &&& v.artist == meta_artist(meta)
                &&& v.title == meta_title(meta)
                &&& v.album == meta_album(meta)
                &&& v.filename == (match stem_of(src) {
                    Some(s) => s,
                    None => Seq::<char>::empty(),
                })
                &&& v.ext == (match extension_of(src) {
                    Some(e) => ascii_lower(e),
                    None => Seq::<char>::empty(),
                })
                &&& no_ascii_upper(v.ext)
                &&& (match extension_of(src) {
                    Some(e) => no_ascii_upper(e) ==> v.ext == e,
                    None => true,
                })
                &&& target_of(root, template, src, meta) == (match render_all(template, v) {
                    Ok(cs) => Ok(joined_all(root, cs)),
                    Err(e) => Err(e),
                })
            },
{
    let v = target_values(src, meta);
    match extension_of(src) {
        Some(e) => lemma_ascii_lower(e),
        None => {},
    }
    assert(no_ascii_upper(v.ext));
}

/// Rendering does not depend on the case of the file's extension: two files
/// with the same stem whose extensions differ only in ASCII case get the
/// same target (or the same reason why there is none).
pub proof fn lemma_target_ignores_extension_case(
    root: Seq<char>,
    template: Seq<Seq<crate::template::PartView>>,
    a: Seq<char>,
    b: Seq<char>,
    meta: Option<&TrackMeta>,
)
    requires
        stem_of(a) == stem_of(b),
        same_ext_up_to_case(extension_of(a), extension_of(b)),
    ensures
        target_of(root, template, a, meta) == target_of(root, template, b, meta),
{
    assert(target_values(a, meta) == target_values(b, meta));
}

} // verus!
