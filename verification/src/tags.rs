//! Track metadata as read from the audio tags, and the normalized identity
//! (artist, title) used to recognize the same song across files.

use vstd::prelude::*;

use crate::text::{
    split_by, split_chars, split_pred, SplitSet,
    chars_of, char_pred, join, join_pieces, lowercase_of, pieces_view, split_words, str_to_lowercase,
    string_of, trim_whitespace, trim_ws, words,
};

verus! {

/// The metadata of one track.
pub struct TrackMeta {
    pub artist: Option<String>,
    /// album artist (TPE2) when tagged
    pub album_artist: Option<String>,
    /// album artist, or the first of the (slash-separated) artist list
    pub primary_artist: Option<String>,
    pub title: Option<String>,
    pub album: Option<String>,
    /// the track length in whole seconds; None when the length is zero or unknown
    pub duration: Option<u64>,
}

/// The model of an optional string.
pub open spec fn opt_str(o: Option<String>) -> Option<Seq<char>> {
    match o {
        Some(s) => Some(s@),
        None => None,
    }
}

/// The model of an optional string slice.
pub open spec fn opt_slice(o: Option<&str>) -> Option<Seq<char>> {
    match o {
        Some(s) => Some(s@),
        None => None,
    }
}

/// A tag value as kept: trimmed, and absent when nothing remains.
pub open spec fn clean_tag(o: Option<Seq<char>>) -> Option<Seq<char>> {
    match o {
        Some(v) => if trim_ws(v).len() > 0 {
            Some(trim_ws(v))
        } else {
            None
        },
        None => None,
    }
}

/// Normalize a tag value for identity comparisons: whitespace runs collapsed
/// to one space, no leading or trailing whitespace, lowercase.
pub open spec fn normalized(s: Seq<char>) -> Seq<char> {
    lowercase_of(join(words(s), seq![' ']))
}

/// The identity key of a track: normalized (artist, title), when both are
/// present and non-empty after normalizing.
pub open spec fn identity_of(artist: Option<Seq<char>>, title: Option<Seq<char>>) -> Option<
    (Seq<char>, Seq<char>),
> {
    match (artist, title) {
        (Some(a), Some(t)) => if normalized(a).len() > 0 && normalized(t).len() > 0 {
            Some((normalized(a), normalized(t)))
        } else {
            None
        },
        _ => None,
    }
}

/// The pieces of an artist list between its separators (`/` and the
/// ideographic comma).
pub open spec fn artist_list_pieces(s: Seq<char>) -> Seq<Seq<char>> {
    split_by(s, split_pred(SplitSet::ListSeparators))
}

/// The first piece that is non-empty after trimming, trimmed.
pub open spec fn first_trimmed_nonempty(pieces: Seq<Seq<char>>) -> Option<Seq<char>>
    decreases pieces.len(),
{
    if pieces.len() == 0 {
        None
    } else if trim_ws(pieces[0]).len() > 0 {
        Some(trim_ws(pieces[0]))
    } else {
        first_trimmed_nonempty(pieces.drop_first())
    }
}

/// The artist a release is filed under: the album artist when present (and
/// not "Various Artists"), else the first of the separated artist list.
pub open spec fn primary_artist_of(album_artist: Option<Seq<char>>, artist: Option<Seq<char>>) -> Option<
    Seq<char>,
> {
    let filed = match album_artist {
        Some(aa) => if trim_ws(aa).len() > 0 && normalized(trim_ws(aa)) != "various artists"@ {
            Some(trim_ws(aa))
        } else {
            None
        },
        None => None,
    };
    if filed is Some {
        filed
    } else {
        match artist {
            Some(a) => first_trimmed_nonempty(artist_list_pieces(a)),
            None => None,
        }
    }
}

/// Normalize a tag value for identity comparisons: lowercase, collapse whitespace.
pub fn normalize(s: &str) -> (r: String)
    ensures
        r@ == normalized(s@),
{
    let chars = chars_of(s);
    let pieces = split_words(chars.as_slice());
    let mut space: Vec<char> = Vec::new();
    space.push(' ');
    assert(space@ =~= seq![' ']);
    let joined = join_pieces(&pieces, space.as_slice());
    let joined_str = string_of(joined.as_slice());
    str_to_lowercase(joined_str.as_str())
}

fn clean_value(o: Option<String>) -> (r: Option<String>)
    ensures
        opt_str(r) == clean_tag(opt_str(o)),
{
    match o {
        Some(v) => {
            let chars = chars_of(v.as_str());
            let t = trim_whitespace(chars.as_slice());
            if t.len() > 0 {
                Some(string_of(t.as_slice()))
            } else {
                None
            }
        },
        None => None,
    }
}

fn normalized_nonempty(o: &Option<String>) -> (r: Option<String>)
    ensures
        match r {
            Some(n) => opt_str(*o) matches Some(v) && n@ == normalized(v) && n@.len() > 0,
            None => opt_str(*o) matches Some(v) ==> normalized(v).len() == 0,
        },
{
    match o {
        Some(v) => {
            let n = normalize(v.as_str());
            if n.as_str().is_empty() {
                None
            } else {
                Some(n)
            }
        },
        None => None,
    }
}

/// Identity key for duplicate detection: normalized (artist, title).
pub fn identity(meta: &TrackMeta) -> (r: Option<(String, String)>)
    ensures
        identity_view(r) == identity_of(opt_str(meta.artist), opt_str(meta.title)),
{
    let artist = match normalized_nonempty(&meta.artist) {
        Some(a) => a,
        None => return None,
    };
    let title = match normalized_nonempty(&meta.title) {
        Some(t) => t,
        None => return None,
    };
    Some((artist, title))
}

/// The model of an identity key.
pub open spec fn identity_view(r: Option<(String, String)>) -> Option<(Seq<char>, Seq<char>)> {
    match r {
        Some((a, t)) => Some((a@, t@)),
        None => None,
    }
}

fn first_listed_artist(artist: &str) -> (r: Option<String>)
    ensures
        opt_str(r) == first_trimmed_nonempty(artist_list_pieces(artist@)),
{
    let chars = chars_of(artist);
    let pieces = split_chars(chars.as_slice(), SplitSet::ListSeparators);
    let ghost all = pieces_view(pieces@);
    let mut i: usize = 0;
    assert(all.skip(0) =~= all);
    while i < pieces.len()
        invariant
            i <= pieces@.len(),
            all == pieces_view(pieces@),
            all == artist_list_pieces(artist@),
            first_trimmed_nonempty(all) == first_trimmed_nonempty(all.skip(i as int)),
        decreases pieces@.len() - i,
    {
        let t = trim_whitespace(pieces[i].as_slice());
        proof {
            assert(all.skip(i as int)[0] == pieces@[i as int]@);
            assert(all.skip(i as int).drop_first() =~= all.skip(i + 1));
        }
        if t.len() > 0 {
            return Some(string_of(t.as_slice()));
        }
        i = i + 1;
    }
    assert(all.skip(i as int).len() == 0);
    None
}

/// The artist a release is filed under: the album artist when present (and
/// not "Various Artists"), else the first of the slash-separated artist list.
pub fn primary_artist(album_artist: Option<&str>, artist: Option<&str>) -> (r: Option<String>)
    ensures
        opt_str(r) == primary_artist_of(opt_slice(album_artist), opt_slice(artist)),
{
    if let Some(aa) = album_artist {
        let chars = chars_of(aa);
        let t = trim_whitespace(chars.as_slice());
        if t.len() > 0 {
            let filed = string_of(t.as_slice());
            let n = normalize(filed.as_str());
            if !crate::text::str_equal(n.as_str(), "various artists") {
                return Some(filed);
            }
        }
    }
    match artist {
        Some(a) => first_listed_artist(a),
        None => None,
    }
}

impl TrackMeta {
    /// Builds the metadata from the raw tag values and the track length
    /// (whole seconds plus the sub-second nanoseconds): every text value is
    /// trimmed and dropped when empty, the primary artist is derived, and a
    /// zero length counts as unknown.
    pub fn from_tags(
        artist: Option<String>,
        album_artist: Option<String>,
        title: Option<String>,
        album: Option<String>,
        duration_secs: u64,
        duration_subsec_nanos: u32,
    ) -> (m: TrackMeta)
        ensures
            opt_str(m.artist) == clean_tag(opt_str(artist)),
            opt_str(m.album_artist) == clean_tag(opt_str(album_artist)),
            opt_str(m.title) == clean_tag(opt_str(title)),
            opt_str(m.album) == clean_tag(opt_str(album)),
            opt_str(m.primary_artist) == primary_artist_of(
                clean_tag(opt_str(album_artist)),
                clean_tag(opt_str(artist)),
            ),
            m.duration == (if duration_secs == 0 && duration_subsec_nanos == 0 {
                None
            } else {
                Some(duration_secs)
            }),
    {
        let artist = clean_value(artist);
        let album_artist = clean_value(album_artist);
        let title = clean_value(title);
        let album = clean_value(album);
        let primary = {
            let aa: Option<&str> = match &album_artist {
                Some(s) => Some(s.as_str()),
                None => None,
            };
            let a: Option<&str> = match &artist {
                Some(s) => Some(s.as_str()),
                None => None,
            };
            primary_artist(aa, a)
        };
        let duration = if duration_secs == 0 && duration_subsec_nanos == 0 {
            None
        } else {
            Some(duration_secs)
        };
        TrackMeta { artist, album_artist, primary_artist: primary, title, album, duration }
    }
}

} // verus!
