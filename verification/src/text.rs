//! Character-level text helpers shared by the tag, template and report code:
//! whitespace trimming and splitting, joining, decimal formatting, and the
//! conversions between `str`/`String` and `Vec<char>`.

use vstd::prelude::*;

verus! {

/// Whether `c` has the Unicode White_Space property, as `char::is_whitespace`
/// documents: U+0009..=U+000D, U+0020, U+0085, U+00A0, U+1680,
/// U+2000..=U+200A, U+2028, U+2029, U+202F, U+205F and U+3000.
#[verifier::opaque]
pub open spec fn is_white_space(c: char) -> bool {
    let v = c as u32;
    ||| 0x09 <= v <= 0x0d
    ||| v == 0x20
    ||| v == 0x85
    ||| v == 0xa0
    ||| v == 0x1680
    ||| 0x2000 <= v <= 0x200a
    ||| v == 0x2028
    ||| v == 0x2029
    ||| v == 0x202f
    ||| v == 0x205f
    ||| v == 0x3000
}

/// Whether `c` is a control code: general category Cc, which Unicode fixes as
/// U+0000..=U+001F and U+007F..=U+009F.
pub open spec fn is_control_char(c: char) -> bool {
    (c as u32) <= 0x1f || (0x7f <= (c as u32) && (c as u32) <= 0x9f)
}

/// What `str::to_lowercase` returns for a string made of these characters.
pub uninterp spec fn lowercase_of(s: Seq<char>) -> Seq<char>;

/// Whether `c` is white space (see [`is_white_space`]).
pub fn char_is_whitespace(c: char) -> (r: bool)
    ensures
        r == is_white_space(c),
{
    proof {
        reveal(is_white_space);
    }
    let v = c as u32;
    (0x09 <= v && v <= 0x0d) || v == 0x20 || v == 0x85 || v == 0xa0 || v == 0x1680 || (0x2000 <= v
        && v <= 0x200a) || v == 0x2028 || v == 0x2029 || v == 0x202f || v == 0x205f || v == 0x3000
}

/// Whether `c` is a control code (see [`is_control_char`]).
pub fn char_is_control(c: char) -> (r: bool)
    ensures
        r == is_control_char(c),
{
    let v = c as u32;
    v <= 0x1f || (0x7f <= v && v <= 0x9f)
}

/// Calls `str::to_lowercase`; the result is named `lowercase_of(s@)`.
#[verifier::external_body]
pub(crate) fn str_to_lowercase(s: &str) -> (r: String)
    ensures
        r@ == lowercase_of(s@),
{
    s.to_lowercase()
}

/// Calls `String::push`, which appends one character.
#[verifier::external_body]
pub(crate) fn push_char(s: &mut String, c: char)
    ensures
        final(s)@ == old(s)@.push(c),
{
    s.push(c)
}

/// The characters of `s`, in order.
pub fn chars_of(s: &str) -> (v: Vec<char>)
    ensures
        v@ == s@,
{
    let mut v: Vec<char> = Vec::new();
    for c in it: s.chars()
        invariant
            v@ == it.seq().take(it.index() as int),
    {
        v.push(c);
    }
    v
}

/// A `String` holding exactly the characters of `v`.
pub fn string_of(v: &[char]) -> (s: String)
    ensures
        s@ == v@,
{
    let mut s = String::new();
    let mut i: usize = 0;
    while i < v.len()
        invariant
            i <= v@.len(),
            s@ == v@.take(i as int),
        decreases v@.len() - i,
    {
        push_char(&mut s, v[i]);
        i = i + 1;
        assert(s@ =~= v@.take(i as int));
    }
    assert(v@.take(i as int) =~= v@);
    s
}

/// Appends the characters of `w` to `v`.
pub fn extend_chars(v: &mut Vec<char>, w: &[char])
    ensures
        final(v)@ == old(v)@ + w@,
{
    let ghost start = v@;
    let mut i: usize = 0;
    while i < w.len()
        invariant
            i <= w@.len(),
            v@ == start + w@.take(i as int),
        decreases w@.len() - i,
    {
        v.push(w[i]);
        i = i + 1;
        assert(v@ =~= start + w@.take(i as int));
    }
    assert(w@.take(i as int) =~= w@);
}

/// Appends the characters of `s` to `v`.
pub fn extend_str(v: &mut Vec<char>, s: &str)
    ensures
        final(v)@ == old(v)@ + s@,
{
    let w = chars_of(s);
    extend_chars(v, w.as_slice());
}

/// `s` without its leading characters that satisfy `p`.
pub open spec fn trim_start_by(s: Seq<char>, p: spec_fn(char) -> bool) -> Seq<char>
    decreases s.len(),
{
    if s.len() > 0 && p(s[0]) {
        trim_start_by(s.drop_first(), p)
    } else {
        s
    }
}

/// `s` without its trailing characters that satisfy `p`.
pub open spec fn trim_end_by(s: Seq<char>, p: spec_fn(char) -> bool) -> Seq<char>
    decreases s.len(),
{
    if s.len() > 0 && p(s.last()) {
        trim_end_by(s.drop_last(), p)
    } else {
        s
    }
}

/// `s` without its leading and trailing characters that satisfy `p`.
pub open spec fn trim_by(s: Seq<char>, p: spec_fn(char) -> bool) -> Seq<char> {
    trim_end_by(trim_start_by(s, p), p)
}

/// The predicate `char::is_whitespace` (see [`is_white_space`]).
pub open spec fn white_space_pred() -> spec_fn(char) -> bool {
    |c: char| is_white_space(c)
}

/// The predicate "equals `sep`".
pub open spec fn char_pred(sep: char) -> spec_fn(char) -> bool {
    |c: char| c == sep
}

/// The predicate "is not empty".
pub open spec fn nonempty_pred() -> spec_fn(Seq<char>) -> bool {
    |w: Seq<char>| w.len() > 0
}

/// What `str::trim` returns: `s` without leading and trailing whitespace.
pub open spec fn trim_ws(s: Seq<char>) -> Seq<char> {
    trim_by(s, trim_pred(TrimSet::WhiteSpace))
}

/// Whether nothing but whitespace is in `s` (`s.trim().is_empty()`).
pub open spec fn is_blank(s: Seq<char>) -> bool {
    trim_ws(s).len() == 0
}

/// The pieces of `s` between the characters that satisfy `p` (as `str::split`
/// with a character predicate): one more piece than separators, empty pieces kept.
pub open spec fn split_by(s: Seq<char>, p: spec_fn(char) -> bool) -> Seq<Seq<char>>
    decreases s.len(),
{
    if s.len() == 0 {
        seq![Seq::<char>::empty()]
    } else {
        let prev = split_by(s.drop_last(), p);
        if p(s.last()) {
            prev.push(Seq::<char>::empty())
        } else {
            prev.update(prev.len() - 1, prev.last().push(s.last()))
        }
    }
}

/// The pieces joined with `sep` between consecutive pieces.
pub open spec fn join(pieces: Seq<Seq<char>>, sep: Seq<char>) -> Seq<char>
    decreases pieces.len(),
{
    if pieces.len() == 0 {
        Seq::<char>::empty()
    } else if pieces.len() == 1 {
        pieces[0]
    } else {
        join(pieces.drop_last(), sep) + sep + pieces.last()
    }
}

/// The view of a vector of character vectors.
pub open spec fn pieces_view(v: Seq<Vec<char>>) -> Seq<Seq<char>> {
    v.map_values(|w: Vec<char>| w@)
}

/// What `str::split_whitespace` yields: the non-empty runs of non-whitespace.
pub open spec fn words(s: Seq<char>) -> Seq<Seq<char>> {
    split_by(s, white_space_pred()).filter(nonempty_pred())
}

pub proof fn lemma_split_by_len(s: Seq<char>, p: spec_fn(char) -> bool)
    ensures
        split_by(s, p).len() >= 1,
    decreases s.len(),
{
    if s.len() > 0 {
        lemma_split_by_len(s.drop_last(), p);
    }
}

proof fn lemma_trim_start_step(s: Seq<char>, i: int, p: spec_fn(char) -> bool)
    requires
        0 <= i < s.len(),
        p(s[i]),
    ensures
        trim_start_by(s.skip(i), p) == trim_start_by(s.skip(i + 1), p),
{
    assert(s.skip(i).drop_first() =~= s.skip(i + 1));
}

proof fn lemma_trim_end_step(s: Seq<char>, a: int, b: int, p: spec_fn(char) -> bool)
    requires
        0 <= a < b <= s.len(),
        p(s[b - 1]),
    ensures
        trim_end_by(s.subrange(a, b), p) == trim_end_by(s.subrange(a, b - 1), p),
{
    assert(s.subrange(a, b).drop_last() =~= s.subrange(a, b - 1));
}

/// The character sets that the trimming functions strip.
#[derive(Clone, Copy, PartialEq, Eq, Debug, Structural)]
pub enum TrimSet {
    /// whitespace, as `str::trim` strips it
    WhiteSpace,
    /// spaces and dots, as path components are trimmed
    SpaceDot,
}

/// The predicate of the characters that `k` strips.
pub open spec fn trim_pred(k: TrimSet) -> spec_fn(char) -> bool {
    match k {
        TrimSet::WhiteSpace => white_space_pred(),
        TrimSet::SpaceDot => space_dot_pred(),
    }
}

/// The predicate "is a space or a dot".
pub open spec fn space_dot_pred() -> spec_fn(char) -> bool {
    |c: char| c == ' ' || c == '.'
}

fn in_trim_set(k: TrimSet, c: char) -> (r: bool)
    ensures
        r == trim_pred(k)(c),
{
    match k {
        TrimSet::WhiteSpace => char_is_whitespace(c),
        TrimSet::SpaceDot => c == ' ' || c == '.',
    }
}

/// `trim_start_by` removes a prefix, and what remains does not start with a
/// character satisfying `p`.
pub proof fn lemma_trim_start_shape(s: Seq<char>, p: spec_fn(char) -> bool) -> (k: int)
    ensures
        0 <= k <= s.len(),
        trim_start_by(s, p) == s.skip(k),
        trim_start_by(s, p).len() > 0 ==> !p(trim_start_by(s, p)[0]),
    decreases s.len(),
{
    if s.len() > 0 && p(s[0]) {
        let k = lemma_trim_start_shape(s.drop_first(), p);
        assert(s.drop_first().skip(k) =~= s.skip(k + 1));
        k + 1
    } else {
        assert(s.skip(0) =~= s);
        0
    }
}

/// `trim_end_by` removes a suffix, and what remains does not end with a
/// character satisfying `p`.
pub proof fn lemma_trim_end_shape(s: Seq<char>, p: spec_fn(char) -> bool) -> (k: int)
    ensures
        0 <= k <= s.len(),
        trim_end_by(s, p) == s.take(k),
        trim_end_by(s, p).len() > 0 ==> !p(trim_end_by(s, p).last()),
    decreases s.len(),
{
    if s.len() > 0 && p(s.last()) {
        let k = lemma_trim_end_shape(s.drop_last(), p);
        assert(s.drop_last().take(k) =~= s.take(k));
        k
    } else {
        assert(s.take(s.len() as int) =~= s);
        s.len() as int
    }
}

/// A string that neither starts nor ends with a character satisfying `p` is
/// left as it is by `trim_by`.
pub proof fn lemma_trim_by_fixed(s: Seq<char>, p: spec_fn(char) -> bool)
    requires
        s.len() > 0 ==> !p(s[0]) && !p(s.last()),
    ensures
        trim_by(s, p) == s,
{
}

/// The result of `trim_by` neither starts nor ends with a character satisfying
/// `p`, and it is a contiguous piece of `s`.
pub proof fn lemma_trim_by_shape(s: Seq<char>, p: spec_fn(char) -> bool) -> (ab: (int, int))
    ensures
        0 <= ab.0 <= ab.1 <= s.len(),
        trim_by(s, p) == s.subrange(ab.0, ab.1),
        trim_by(s, p).len() > 0 ==> !p(trim_by(s, p)[0]) && !p(trim_by(s, p).last()),
{
    let a = lemma_trim_start_shape(s, p);
    let t = trim_start_by(s, p);
    let b = lemma_trim_end_shape(t, p);
    assert(t.take(b) =~= s.subrange(a, a + b));
    if b > 0 {
        assert(t.take(b)[0] == t[0]);
    }
    (a, a + b)
}

/// `v` without the leading and trailing characters of the set `k`.
pub fn trim_chars(v: &[char], k: TrimSet) -> (r: Vec<char>)
    ensures
        r@ == trim_by(v@, trim_pred(k)),
{
    let ghost p = trim_pred(k);
    let len = v.len();
    let mut start: usize = 0;
    assert(v@.skip(0) =~= v@);
    while start < len && in_trim_set(k, v[start])
        invariant
            len == v@.len(),
            p == trim_pred(k),
            start <= len,
            trim_start_by(v@, p) == trim_start_by(v@.skip(start as int), p),
        decreases len - start,
    {
        proof {
            lemma_trim_start_step(v@, start as int, p);
        }
        start = start + 1;
    }
    proof {
        if start == len {
            assert(v@.skip(start as int) =~= Seq::<char>::empty());
        }
        assert(trim_start_by(v@, p) == v@.skip(start as int));
        assert(v@.skip(start as int) =~= v@.subrange(start as int, len as int));
    }
    let mut end: usize = len;
    while end > start && in_trim_set(k, v[end - 1])
        invariant
            len == v@.len(),
            p == trim_pred(k),
            start <= end <= len,
            trim_end_by(v@.subrange(start as int, len as int), p) == trim_end_by(
                v@.subrange(start as int, end as int),
                p,
            ),
        decreases end,
    {
        proof {
            lemma_trim_end_step(v@, start as int, end as int, p);
        }
        end = end - 1;
    }
    proof {
        if end == start {
            assert(v@.subrange(start as int, end as int) =~= Seq::<char>::empty());
        }
    }
    sub_chars(v, start, end)
}

/// `v` without leading and trailing whitespace (`str::trim`).
pub fn trim_whitespace(v: &[char]) -> (r: Vec<char>)
    ensures
        r@ == trim_ws(v@),
{
    trim_chars(v, TrimSet::WhiteSpace)
}

/// The characters of `v` from index `a` up to (not including) `b`.
pub fn sub_chars(v: &[char], a: usize, b: usize) -> (r: Vec<char>)
    requires
        a <= b <= v@.len(),
    ensures
        r@ == v@.subrange(a as int, b as int),
{
    let mut r: Vec<char> = Vec::new();
    let mut i: usize = a;
    while i < b
        invariant
            a <= i <= b <= v@.len(),
            r@ == v@.subrange(a as int, i as int),
        decreases b - i,
    {
        r.push(v[i]);
        i = i + 1;
        assert(r@ =~= v@.subrange(a as int, i as int));
    }
    r
}

/// The separator sets that strings are split at.
#[derive(Clone, Copy, PartialEq, Eq, Debug, Structural)]
pub enum SplitSet {
    /// one given character
    Char(char),
    /// whitespace (`char::is_whitespace`)
    WhiteSpace,
    /// the separators of an artist list: `/` and the ideographic comma
    ListSeparators,
}

/// The predicate "is a separator of the artist list".
pub open spec fn list_sep_pred() -> spec_fn(char) -> bool {
    |c: char| c == '/' || c == '\u{3001}'
}

/// The predicate of the separators of `k`.
pub open spec fn split_pred(k: SplitSet) -> spec_fn(char) -> bool {
    match k {
        SplitSet::Char(c) => char_pred(c),
        SplitSet::WhiteSpace => white_space_pred(),
        SplitSet::ListSeparators => list_sep_pred(),
    }
}

fn in_split_set(k: SplitSet, c: char) -> (r: bool)
    ensures
        r == split_pred(k)(c),
{
    match k {
        SplitSet::Char(sep) => c == sep,
        SplitSet::WhiteSpace => char_is_whitespace(c),
        SplitSet::ListSeparators => c == '/' || c == '\u{3001}',
    }
}

/// `v` split at the separators of `k`, empty pieces kept (`str::split`).
pub fn split_chars(v: &[char], k: SplitSet) -> (r: Vec<Vec<char>>)
    ensures
        pieces_view(r@) == split_by(v@, split_pred(k)),
        r@.len() >= 1,
{
    let ghost p = split_pred(k);
    let mut r: Vec<Vec<char>> = Vec::new();
    r.push(Vec::new());
    let mut i: usize = 0;
    proof {
        assert(v@.take(0) =~= Seq::<char>::empty());
        assert(pieces_view(r@) =~= split_by(v@.take(0), p));
    }
    while i < v.len()
        invariant
            i <= v@.len(),
            pieces_view(r@) == split_by(v@.take(i as int), p),
            r@.len() >= 1,
            p == split_pred(k),
        decreases v@.len() - i,
    {
        let c = v[i];
        let ghost before = r@;
        proof {
            assert(v@.take(i + 1).drop_last() =~= v@.take(i as int));
            lemma_split_by_len(v@.take(i as int), p);
        }
        if in_split_set(k, c) {
            r.push(Vec::new());
            assert(pieces_view(r@) =~= pieces_view(before).push(Seq::<char>::empty()));
        } else {
            let last = r.len() - 1;
            let mut w = r.pop().unwrap();
            w.push(c);
            r.push(w);
            assert(pieces_view(r@) =~= pieces_view(before).update(
                last as int,
                pieces_view(before).last().push(c),
            ));
        }
        i = i + 1;
    }
    assert(v@.take(i as int) =~= v@);
    r
}

/// The non-empty runs of non-whitespace characters (`str::split_whitespace`).
pub fn split_words(v: &[char]) -> (r: Vec<Vec<char>>)
    ensures
        pieces_view(r@) == words(v@),
{
    let pieces = split_chars(v, SplitSet::WhiteSpace);
    let ghost all = pieces_view(pieces@);
    let ghost nonempty = nonempty_pred();
    let mut r: Vec<Vec<char>> = Vec::new();
    let mut i: usize = 0;
    proof {
        assert(all.take(0) =~= Seq::<Seq<char>>::empty());
        reveal(Seq::filter);
        assert(pieces_view(r@) =~= all.take(0).filter(nonempty));
    }
    while i < pieces.len()
        invariant
            i <= pieces@.len(),
            all == pieces_view(pieces@),
            nonempty == nonempty_pred(),
            pieces_view(r@) == all.take(i as int).filter(nonempty),
        decreases pieces@.len() - i,
    {
        let ghost before = r@;
        proof {
            assert(all.take(i + 1) =~= all.take(i as int).push(all[i as int]));
            all.take(i as int).lemma_filter_push(all[i as int], nonempty);
        }
        if pieces[i].len() > 0 {
            r.push(pieces[i].clone());
            assert(pieces_view(r@) =~= pieces_view(before).push(all[i as int]));
        } else {
            assert(pieces_view(r@) =~= pieces_view(before));
        }
        i = i + 1;
    }
    assert(all.take(i as int) =~= all);
    r
}

/// The pieces joined with `sep` between consecutive pieces.
pub fn join_pieces(pieces: &Vec<Vec<char>>, sep: &[char]) -> (r: Vec<char>)
    ensures
        r@ == join(pieces_view(pieces@), sep@),
{
    let ghost all = pieces_view(pieces@);
    let mut r: Vec<char> = Vec::new();
    let mut i: usize = 0;
    proof {
        assert(all.take(0) =~= Seq::<Seq<char>>::empty());
    }
    while i < pieces.len()
        invariant
            i <= pieces@.len(),
            all == pieces_view(pieces@),
            r@ == join(all.take(i as int), sep@),
        decreases pieces@.len() - i,
    {
        let ghost before = r@;
        proof {
            assert(all.take(i + 1).drop_last() =~= all.take(i as int));
        }
        if i > 0 {
            extend_chars(&mut r, sep);
        }
        extend_chars(&mut r, pieces[i].as_slice());
        proof {
            if i == 0 {
                assert(r@ =~= all[0]);
            } else {
                assert(r@ =~= before + sep@ + all[i as int]);
            }
        }
        i = i + 1;
    }
    assert(all.take(i as int) =~= all);
    r
}

/// The decimal digit character for `d < 10`.
pub open spec fn digit_char(d: int) -> char {
    (48 + d) as char
}

/// The decimal representation of `n`, without leading zeros.
pub open spec fn decimal(n: nat) -> Seq<char>
    decreases n,
{
    if n < 10 {
        seq![digit_char(n as int)]
    } else {
        decimal(n / 10).push(digit_char((n % 10) as int))
    }
}

/// The decimal representation of `n` (as `format!("{}", n)` writes it).
pub fn decimal_chars(n: u64) -> (r: Vec<char>)
    ensures
        r@ == decimal(n as nat),
    decreases n,
{
    if n < 10 {
        let c = ((n as u8) + 48u8) as char;
        let mut r = Vec::new();
        r.push(c);
        assert(r@ =~= seq![digit_char(n as int)]);
        r
    } else {
        let mut r = decimal_chars(n / 10);
        let d = ((n % 10) as u8 + 48u8) as char;
        r.push(d);
        r
    }
}

/// The decimal representation of a signed number: a `-` before the digits
/// of its magnitude when it is negative.
pub open spec fn signed_decimal(n: int) -> Seq<char> {
    if n < 0 {
        seq!['-'] + decimal((-n) as nat)
    } else {
        decimal(n as nat)
    }
}

/// The decimal representation of `n` (as `format!("{}", n)` writes it).
pub fn signed_decimal_chars(n: i64) -> (r: Vec<char>)
    ensures
        r@ == signed_decimal(n as int),
{
    if n < 0 {
        let magnitude: u64 = (0i128 - (n as i128)) as u64;
        let digits = decimal_chars(magnitude);
        let mut r = Vec::new();
        r.push('-');
        extend_chars(&mut r, digits.as_slice());
        assert(r@ =~= seq!['-'] + decimal((-n) as nat));
        r
    } else {
        decimal_chars(n as u64)
    }
}

/// The character with ASCII uppercase letters mapped to lowercase and every
/// other character unchanged (`char::to_ascii_lowercase`).
pub open spec fn ascii_lower_char(c: char) -> char {
    if 'A' <= c && c <= 'Z' {
        ((c as u32) + 32) as char
    } else {
        c
    }
}

/// The string with ASCII uppercase letters mapped to lowercase
/// (`str::to_ascii_lowercase`).
pub open spec fn ascii_lower(s: Seq<char>) -> Seq<char> {
    s.map_values(|c: char| ascii_lower_char(c))
}

/// The characters of `s` with ASCII letters lowercased.
pub fn to_ascii_lower(s: &str) -> (r: Vec<char>)
    ensures
        r@ == ascii_lower(s@),
{
    let v = chars_of(s);
    let mut r: Vec<char> = Vec::new();
    let mut i: usize = 0;
    while i < v.len()
        invariant
            i <= v@.len(),
            v@ == s@,
            r@ == ascii_lower(v@.take(i as int)),
        decreases v@.len() - i,
    {
        let c = v[i];
        if 'A' <= c && c <= 'Z' {
            let code: u32 = c as u32;
            let byte: u8 = (code as u8) + 32u8;
            let lower = byte as char;
            assert(code as u8 == code);
            assert(lower == ascii_lower_char(c));
            r.push(lower);
        } else {
            r.push(c);
        }
        i = i + 1;
        assert(r@ =~= ascii_lower(v@.take(i as int)));
    }
    assert(v@.take(i as int) =~= v@);
    r
}

/// `a` comes before `b` in the lexicographic order of character codes (the
/// order of `String`, whose UTF-8 bytes preserve code point order).
pub open spec fn seq_less(a: Seq<char>, b: Seq<char>) -> bool
    decreases a.len(),
{
    if a.len() == 0 {
        b.len() > 0
    } else if b.len() == 0 {
        false
    } else if a[0] != b[0] {
        a[0] < b[0]
    } else {
        seq_less(a.drop_first(), b.drop_first())
    }
}

/// `seq_less` is irreflexive and asymmetric.
pub proof fn lemma_seq_less_asym(a: Seq<char>, b: Seq<char>)
    ensures
        !seq_less(a, a),
        seq_less(a, b) ==> !seq_less(b, a),
    decreases a.len(),
{
    if a.len() > 0 {
        lemma_seq_less_asym(a.drop_first(), a.drop_first());
        if b.len() > 0 {
            lemma_seq_less_asym(a.drop_first(), b.drop_first());
        }
    }
}

/// Any two different strings are ordered one way or the other by `seq_less`.
pub proof fn lemma_seq_less_total(a: Seq<char>, b: Seq<char>)
    ensures
        a != b ==> seq_less(a, b) || seq_less(b, a),
    decreases a.len(),
{
    if a.len() == 0 && b.len() == 0 {
        assert(a =~= b);
    } else if a.len() > 0 && b.len() > 0 && a[0] == b[0] {
        lemma_seq_less_total(a.drop_first(), b.drop_first());
        if a.drop_first() == b.drop_first() {
            assert(a =~= seq![a[0]] + a.drop_first());
            assert(b =~= seq![b[0]] + b.drop_first());
        }
    } else if a.len() > 0 && b.len() > 0 {
    }
}

/// `seq_less` is transitive.
pub proof fn lemma_seq_less_trans(a: Seq<char>, b: Seq<char>, c: Seq<char>)
    requires
        seq_less(a, b),
        seq_less(b, c),
    ensures
        seq_less(a, c),
    decreases a.len(),
{
    if a.len() > 0 && b.len() > 0 && c.len() > 0 && a[0] == b[0] && b[0] == c[0] {
        lemma_seq_less_trans(a.drop_first(), b.drop_first(), c.drop_first());
    }
}

/// Whether `a` comes before `b` character-wise (`String`'s order).
pub fn chars_less(a: &[char], b: &[char]) -> (r: bool)
    ensures
        r == seq_less(a@, b@),
{
    let mut i: usize = 0;
    assert(a@.skip(0) =~= a@);
    assert(b@.skip(0) =~= b@);
    while i < a.len() && i < b.len() && a[i] == b[i]
        invariant
            i <= a@.len(),
            i <= b@.len(),
            seq_less(a@, b@) == seq_less(a@.skip(i as int), b@.skip(i as int)),
        decreases a@.len() - i,
    {
        assert(a@.skip(i as int).drop_first() =~= a@.skip(i + 1));
        assert(b@.skip(i as int).drop_first() =~= b@.skip(i + 1));
        i = i + 1;
    }
    if i == a.len() {
        i < b.len()
    } else if i == b.len() {
        false
    } else {
        a[i] < b[i]
    }
}

/// Whether `a` comes before `b` character-wise (`String`'s order).
pub fn str_less(a: &str, b: &str) -> (r: bool)
    ensures
        r == seq_less(a@, b@),
{
    let va = chars_of(a);
    let vb = chars_of(b);
    chars_less(va.as_slice(), vb.as_slice())
}

/// Whether `s` starts with `prefix`.
pub open spec fn starts_with(s: Seq<char>, prefix: Seq<char>) -> bool {
    prefix.len() <= s.len() && s.take(prefix.len() as int) == prefix
}

/// Whether the characters of `a` and `b` are the same.
pub fn chars_equal(a: &[char], b: &[char]) -> (r: bool)
    ensures
        r == (a@ == b@),
{
    if a.len() != b.len() {
        return false;
    }
    let mut i: usize = 0;
    while i < a.len()
        invariant
            i <= a@.len(),
            a@.len() == b@.len(),
            forall|j: int| 0 <= j < i ==> a@[j] == b@[j],
        decreases a@.len() - i,
    {
        if a[i] != b[i] {
            return false;
        }
        i = i + 1;
    }
    assert(a@ =~= b@);
    true
}

/// Whether `a` and `b` hold the same characters.
pub fn str_equal(a: &str, b: &str) -> (r: bool)
    ensures
        r == (a@ == b@),
{
    let va = chars_of(a);
    let vb = chars_of(b);
    chars_equal(va.as_slice(), vb.as_slice())
}

/// `s` from position `i` on, with every non-overlapping occurrence of the
/// non-empty `pat`, found left to right, replaced by `rep`.
pub open spec fn replace_from(s: Seq<char>, pat: Seq<char>, rep: Seq<char>, i: int) -> Seq<char>
    decreases s.len() - i,
{
    if i < 0 || i >= s.len() || pat.len() == 0 {
        Seq::empty()
    } else if i + pat.len() <= s.len() && s.subrange(i, i + pat.len()) == pat {
        rep + replace_from(s, pat, rep, i + pat.len())
    } else {
        seq![s[i]] + replace_from(s, pat, rep, i + 1)
    }
}

/// `rep` before every character of `s` and at its end: what replacing the
/// empty pattern gives.
pub open spec fn interleave(s: Seq<char>, rep: Seq<char>) -> Seq<char>
    decreases s.len(),
{
    if s.len() == 0 {
        rep
    } else {
        interleave(s.drop_last(), rep) + seq![s.last()] + rep
    }
}

/// What `str::replace(s, pat, rep)` returns.
pub open spec fn replace_all(s: Seq<char>, pat: Seq<char>, rep: Seq<char>) -> Seq<char> {
    if pat.len() == 0 {
        interleave(s, rep)
    } else {
        replace_from(s, pat, rep, 0)
    }
}

fn matches_at(v: &[char], pat: &[char], i: usize) -> (r: bool)
    requires
        i <= v@.len(),
    ensures
        r == (i + pat@.len() <= v@.len() && v@.subrange(i as int, i + pat@.len()) == pat@),
{
    if pat.len() > v.len() - i {
        return false;
    }
    let mut k: usize = 0;
    while k < pat.len()
        invariant
            k <= pat@.len(),
            i + pat@.len() <= v@.len(),
            v@.len() == v.len(),
            forall|m: int| 0 <= m < k ==> v@[i + m] == pat@[m],
        decreases pat@.len() - k,
    {
        if v[i + k] != pat[k] {
            assert(v@.subrange(i as int, i + pat@.len())[k as int] != pat@[k as int]);
            return false;
        }
        k = k + 1;
    }
    assert(v@.subrange(i as int, i + pat@.len()) =~= pat@);
    true
}

/// `s` with every occurrence of `pat` replaced by `rep` (`str::replace`).
pub fn replace_text(s: &str, pat: &str, rep: &str) -> (r: String)
    ensures
        r@ == replace_all(s@, pat@, rep@),
{
    let v = chars_of(s);
    let p = chars_of(pat);
    let w = chars_of(rep);
    let mut out: Vec<char> = Vec::new();
    if p.len() == 0 {
        extend_chars(&mut out, w.as_slice());
        let mut i: usize = 0;
        assert(out@ =~= interleave(v@.take(0), w@));
        while i < v.len()
            invariant
                i <= v@.len(),
                out@ == interleave(v@.take(i as int), w@),
            decreases v@.len() - i,
        {
            out.push(v[i]);
            extend_chars(&mut out, w.as_slice());
            assert(v@.take(i + 1).drop_last() =~= v@.take(i as int));
            assert(out@ =~= interleave(v@.take(i + 1), w@));
            i = i + 1;
        }
        assert(v@.take(i as int) =~= v@);
        return string_of(out.as_slice());
    }
    let mut i: usize = 0;
    while i < v.len()
        invariant
            i <= v@.len(),
            p@.len() > 0,
            out@ + replace_from(v@, p@, w@, i as int) == replace_from(v@, p@, w@, 0),
        decreases v@.len() - i,
    {
        let ghost before = out@;
        if matches_at(v.as_slice(), p.as_slice(), i) {
            extend_chars(&mut out, w.as_slice());
            assert(before + replace_from(v@, p@, w@, i as int) =~= out@ + replace_from(
                v@,
                p@,
                w@,
                i + p@.len(),
            ));
            i = i + p.len();
        } else {
            out.push(v[i]);
            assert(before + replace_from(v@, p@, w@, i as int) =~= out@ + replace_from(
                v@,
                p@,
                w@,
                i + 1,
            ));
            i = i + 1;
        }
    }
    assert(out@ =~= out@ + replace_from(v@, p@, w@, i as int));
    string_of(out.as_slice())
}

} // verus!
