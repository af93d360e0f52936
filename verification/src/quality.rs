//! Quality score of an audio file: format, bitrate, sample rate, bit depth,
//! cover art, lyrics and tag completeness, combined into one number whose
//! tiers never outweigh each other.

use vstd::prelude::*;

use crate::text::{ascii_lower, chars_equal, chars_of, to_ascii_lower, trim_whitespace, trim_ws};

verus! {

/// The rank of a file format by its extension (case-insensitive); lossless /
/// archival formats first, higher rank wins.
pub open spec fn format_rank_of(ext: Seq<char>) -> u32 {
    let e = ascii_lower(ext);
    if e == "flac"@ {
        6
    } else if e == "wav"@ {
        5
    } else if e == "aiff"@ || e == "aif"@ {
        4
    } else if e == "m4a"@ {
        3
    } else if e == "aac"@ {
        2
    } else if e == "mp3"@ {
        1
    } else {
        0
    }
}

fn is_word(v: &Vec<char>, word: &str) -> (r: bool)
    ensures
        r == (v@ == word@),
{
    let w = chars_of(word);
    chars_equal(v.as_slice(), w.as_slice())
}

/// Lossless / archival formats first; higher rank wins.
pub fn format_rank(ext: &str) -> (r: u32)
    ensures
        r == format_rank_of(ext@),
{
    let e = to_ascii_lower(ext);
    if is_word(&e, "flac") {
        6
    } else if is_word(&e, "wav") {
        5
    } else if is_word(&e, "aiff") || is_word(&e, "aif") {
        4
    } else if is_word(&e, "m4a") {
        3
    } else if is_word(&e, "aac") {
        2
    } else if is_word(&e, "mp3") {
        1
    } else {
        0
    }
}

/// The value of an optional reading, 0 when absent.
pub open spec fn reading(o: Option<u32>) -> int {
    match o {
        Some(v) => v as int,
        None => 0,
    }
}

/// The smaller of two numbers.
pub open spec fn min_int(a: int, b: int) -> int {
    if a <= b {
        a
    } else {
        b
    }
}

/// The bitrate tier: kbps capped at 2000, in 32 kbps buckets.
pub open spec fn bitrate_bucket(bitrate: Option<u32>) -> int {
    min_int(reading(bitrate), 2000) / 32
}

/// The sample rate tier: whole kHz, capped at 199 kHz.
pub open spec fn khz_tier(sample_rate: Option<u32>) -> int {
    min_int(reading(sample_rate), 199_000) / 1000
}

/// The bit depth tier: bits capped at 64.
pub open spec fn bits_tier(bits_per_sample: Option<u32>) -> int {
    min_int(reading(bits_per_sample), 64)
}

/// 1 for true, 0 for false.
pub open spec fn flag(b: bool) -> int {
    if b {
        1
    } else {
        0
    }
}

/// The composite score: format (1e10 step) > bitrate bucket (1e7) > kHz
/// (1e4) > bit depth (1e2) > cover (10) > lyrics (5) > tag completeness (2).
pub open spec fn score_of(
    format_rank: u32,
    bitrate: Option<u32>,
    sample_rate: Option<u32>,
    bits_per_sample: Option<u32>,
    has_cover: bool,
    has_lyrics: bool,
    tags_complete: bool,
) -> int {
    format_rank * 10_000_000_000 + bitrate_bucket(bitrate) * 10_000_000 + khz_tier(sample_rate)
        * 10_000 + bits_tier(bits_per_sample) * 100 + flag(has_cover) * 10 + flag(has_lyrics) * 5
        + flag(tags_complete) * 2
}

#[derive(Debug, Clone, Copy, PartialEq, Eq, Structural)]
pub struct Quality {
    pub format_rank: u32,
    pub bitrate: Option<u32>,
    pub sample_rate: Option<u32>,
    pub bits_per_sample: Option<u32>,
    pub has_cover: bool,
    pub has_lyrics: bool,
    pub tags_complete: bool,
    pub score: i64,
}

fn reading_or_zero(o: Option<u32>) -> (r: u32)
    ensures
        r == reading(o),
{
    match o {
        Some(v) => v,
        None => 0,
    }
}

impl Quality {
    /// Deterministic composite score. Weights are step-separated so a higher
    /// tier can never be outweighed by lower ones:
    /// format (1e10 step) > bitrate (1e7) > sample rate (1e4) > bit depth
    /// (1e2) > cover > lyrics > tag completeness.
    pub fn new(
        ext: &str,
        bitrate: Option<u32>,
        sample_rate: Option<u32>,
        bits_per_sample: Option<u32>,
        has_cover: bool,
        has_lyrics: bool,
        tags_complete: bool,
    ) -> (q: Quality)
        ensures
            q.format_rank == format_rank_of(ext@),
            q.bitrate == bitrate,
            q.sample_rate == sample_rate,
            q.bits_per_sample == bits_per_sample,
            q.has_cover == has_cover,
            q.has_lyrics == has_lyrics,
            q.tags_complete == tags_complete,
            q.score == score_of(
                format_rank_of(ext@),
                bitrate,
                sample_rate,
                bits_per_sample,
                has_cover,
                has_lyrics,
                tags_complete,
            ),
    {
        let format_rank = format_rank(ext);
        let br = reading_or_zero(bitrate);
        let bitrate_bucket: u32 = (if br < 2000 {
            br
        } else {
            2000
        }) / 32;
        let sr = reading_or_zero(sample_rate);
        let khz: u32 = (if sr < 199_000 {
            sr
        } else {
            199_000
        }) / 1000;
        let bps = reading_or_zero(bits_per_sample);
        let bits: u32 = if bps < 64 {
            bps
        } else {
            64
        };
        let cover: i64 = if has_cover {
            1
        } else {
            0
        };
        let lyrics: i64 = if has_lyrics {
            1
        } else {
            0
        };
        let complete: i64 = if tags_complete {
            1
        } else {
            0
        };
        let score = format_rank as i64 * 10_000_000_000 + bitrate_bucket as i64 * 10_000_000
            + khz as i64 * 10_000 + bits as i64 * 100 + cover * 10 + lyrics * 5 + complete * 2;
        Quality {
            format_rank,
            bitrate,
            sample_rate,
            bits_per_sample,
            has_cover,
            has_lyrics,
            tags_complete,
            score,
        }
    }

    /// Scores what a probe of the file reported: zero readings count as
    /// absent, the cover is present when the tag holds a picture, lyrics when
    /// the lyrics value is not blank, and the tags are complete when artist,
    /// title and album are all non-blank. Without a tag none of these hold.
    pub fn from_probe(
        ext: &str,
        overall_bitrate: Option<u32>,
        sample_rate: Option<u32>,
        bit_depth: Option<u8>,
        tag: Option<&TagSummary>,
    ) -> (q: Quality)
        ensures
            q.format_rank == format_rank_of(ext@),
            q.bitrate == nonzero(overall_bitrate),
            q.sample_rate == nonzero(sample_rate),
            q.bits_per_sample == nonzero_depth(bit_depth),
            q.has_cover == (tag matches Some(t) && t.picture_count > 0),
            q.has_lyrics == (tag matches Some(t) && filled(t.lyrics)),
            q.tags_complete == (tag matches Some(t) && filled(t.artist) && filled(t.title)
                && filled(t.album)),
            q.score == score_of(
                q.format_rank,
                q.bitrate,
                q.sample_rate,
                q.bits_per_sample,
                q.has_cover,
                q.has_lyrics,
                q.tags_complete,
            ),
    {
        let bitrate = match overall_bitrate {
            Some(v) => if v != 0 {
                Some(v)
            } else {
                None
            },
            None => None,
        };
        let rate = match sample_rate {
            Some(v) => if v != 0 {
                Some(v)
            } else {
                None
            },
            None => None,
        };
        let bits = match bit_depth {
            Some(v) => if v != 0 {
                Some(v as u32)
            } else {
                None
            },
            None => None,
        };
        let (has_cover, has_lyrics, tags_complete) = match tag {
            Some(t) => (
                t.picture_count > 0,
                is_filled(&t.lyrics),
                is_filled(&t.artist) && is_filled(&t.title) && is_filled(&t.album),
            ),
            None => (false, false, false),
        };
        Quality::new(ext, bitrate, rate, bits, has_cover, has_lyrics, tags_complete)
    }
}

/// What the primary (or first) tag of a file says, as far as scoring reads it.
pub struct TagSummary {
    pub picture_count: usize,
    pub lyrics: Option<String>,
    pub artist: Option<String>,
    pub title: Option<String>,
    pub album: Option<String>,
}

/// A reading with 0 counted as absent.
pub open spec fn nonzero(o: Option<u32>) -> Option<u32> {
    match o {
        Some(v) => if v != 0 {
            Some(v)
        } else {
            None
        },
        None => None,
    }
}

/// A bit depth with 0 counted as absent.
pub open spec fn nonzero_depth(o: Option<u8>) -> Option<u32> {
    match o {
        Some(v) => if v != 0 {
            Some(v as u32)
        } else {
            None
        },
        None => None,
    }
}

/// A tag value that is present and not blank.
pub open spec fn filled(o: Option<String>) -> bool {
    o matches Some(v) && trim_ws(v@).len() > 0
}

fn is_filled(o: &Option<String>) -> (r: bool)
    ensures
        r == filled(*o),
{
    match o {
        Some(v) => {
            let chars = chars_of(v.as_str());
            trim_whitespace(chars.as_slice()).len() > 0
        },
        None => false,
    }
}

/// The tiers of a score, highest first.
pub open spec fn tiers(
    format_rank: u32,
    bitrate: Option<u32>,
    sample_rate: Option<u32>,
    bits_per_sample: Option<u32>,
    has_cover: bool,
    has_lyrics: bool,
    tags_complete: bool,
) -> Seq<int> {
    seq![
        format_rank as int,
        bitrate_bucket(bitrate),
        khz_tier(sample_rate),
        bits_tier(bits_per_sample),
        flag(has_cover),
        flag(has_lyrics),
        flag(tags_complete),
    ]
}

/// `a` is greater than `b` in the lexicographic order of integer sequences
/// of the same length.
pub open spec fn lex_greater(a: Seq<int>, b: Seq<int>) -> bool {
    exists|k: int|
        0 <= k < a.len() && a[k] > b[k] && forall|j: int| 0 <= j < k ==> a[j] == b[j]
}

/// The score never lets a lower tier outweigh a higher one: one score is
/// greater than another exactly when its tiers (format rank, bitrate bucket,
/// kHz, bit depth, cover, lyrics, tag completeness) are lexicographically
/// greater, and two scores are equal exactly when all tiers are.
pub proof fn lemma_score_is_tier_order(
    rank_a: u32,
    bitrate_a: Option<u32>,
    rate_a: Option<u32>,
    bits_a: Option<u32>,
    cover_a: bool,
    lyrics_a: bool,
    complete_a: bool,
    rank_b: u32,
    bitrate_b: Option<u32>,
    rate_b: Option<u32>,
    bits_b: Option<u32>,
    cover_b: bool,
    lyrics_b: bool,
    complete_b: bool,
)
    requires
        rank_a <= 6,
        rank_b <= 6,
    ensures
        ({
            let ta = tiers(rank_a, bitrate_a, rate_a, bits_a, cover_a, lyrics_a, complete_a);
            let tb = tiers(rank_b, bitrate_b, rate_b, bits_b, cover_b, lyrics_b, complete_b);
            let sa = score_of(rank_a, bitrate_a, rate_a, bits_a, cover_a, lyrics_a, complete_a);
            let sb = score_of(rank_b, bitrate_b, rate_b, bits_b, cover_b, lyrics_b, complete_b);
            &&& (sa > sb <==> lex_greater(ta, tb))
            &&& (sa == sb <==> ta == tb)
        }),
{
    let ta = tiers(rank_a, bitrate_a, rate_a, bits_a, cover_a, lyrics_a, complete_a);
    let tb = tiers(rank_b, bitrate_b, rate_b, bits_b, cover_b, lyrics_b, complete_b);
    let sa = score_of(rank_a, bitrate_a, rate_a, bits_a, cover_a, lyrics_a, complete_a);
    let sb = score_of(rank_b, bitrate_b, rate_b, bits_b, cover_b, lyrics_b, complete_b);
    assert(0 <= bitrate_bucket(bitrate_a) <= 62);
    assert(0 <= bitrate_bucket(bitrate_b) <= 62);
    assert(0 <= khz_tier(rate_a) <= 199);
    assert(0 <= khz_tier(rate_b) <= 199);
    if ta == tb {
        assert(sa == sb);
    } else {
        // the first tier that differs decides
        let k = choose|k: int| 0 <= k < 7 && ta[k] != tb[k] && forall|j: int| 0 <= j < k ==> ta[j] == tb[j];
        assert(exists|k: int| 0 <= k < 7 && ta[k] != tb[k] && forall|j: int| 0 <= j < k ==> ta[j] == tb[j]) by {
            if ta[0] != tb[0] {
                assert(forall|j: int| 0 <= j < 0 ==> ta[j] == tb[j]);
            } else if ta[1] != tb[1] {
                assert(forall|j: int| 0 <= j < 1 ==> ta[j] == tb[j]);
            } else if ta[2] != tb[2] {
                assert(forall|j: int| 0 <= j < 2 ==> ta[j] == tb[j]);
            } else if ta[3] != tb[3] {
                assert(forall|j: int| 0 <= j < 3 ==> ta[j] == tb[j]);
            } else if ta[4] != tb[4] {
                assert(forall|j: int| 0 <= j < 4 ==> ta[j] == tb[j]);
            } else if ta[5] != tb[5] {
                assert(forall|j: int| 0 <= j < 5 ==> ta[j] == tb[j]);
            } else {
                assert(ta[6] != tb[6]);
                assert(forall|j: int| 0 <= j < 6 ==> ta[j] == tb[j]);
            }
        }
        assert(ta[0] == tb[0] ==> k > 0);
        if ta[k] > tb[k] {
            assert(sa > sb);
            assert(lex_greater(ta, tb));
            assert(!(sb > sa));
        } else {
            assert(sb > sa);
            assert(lex_greater(tb, ta));
        }
        if lex_greater(ta, tb) {
            let m = choose|m: int|
                0 <= m < ta.len() && ta[m] > tb[m] && forall|j: int| 0 <= j < m ==> ta[j] == tb[j];
            assert(m == k) by {
                if m < k {
                    assert(ta[m] == tb[m]);
                }
                if k < m {
                    assert(ta[k] == tb[k]);
                }
            }
        }
        assert(ta != tb);
    }
}

} // verus!
