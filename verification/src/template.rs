//! Path template: e.g. "{artist}/{filename}.{ext}", relative to the library
//! root. Each `/`-separated segment becomes one path component; a segment may
//! mix literal text with `{placeholders}`.

use vstd::prelude::*;

use crate::text::{
    lemma_trim_by_fixed, lemma_trim_by_shape,
    char_is_control,
    is_control_char, space_dot_pred, trim_by, trim_chars, TrimSet,
    chars_equal, chars_of, char_pred, extend_chars, extend_str, pieces_view, split_chars, SplitSet, split_by,
    str_equal, string_of, sub_chars, trim_whitespace, trim_ws,
};

verus! {

/// A placeholder of a template segment.
#[derive(Clone, Copy, PartialEq, Eq, Debug, Structural)]
pub enum Ph {
    /// primary artist: album artist, or first of the artist list
    Artist,
    /// full artist list as stored in the tag
    Artists,
    Title,
    Album,
    Filename,
    Ext,
}

/// The placeholder written `{name}` in a template, if `name` is one.
pub open spec fn ph_named(name: Seq<char>) -> Option<Ph> {
    if name == "artist"@ {
        Some(Ph::Artist)
    } else if name == "artists"@ {
        Some(Ph::Artists)
    } else if name == "title"@ {
        Some(Ph::Title)
    } else if name == "album"@ {
        Some(Ph::Album)
    } else if name == "filename"@ {
        Some(Ph::Filename)
    } else if name == "ext"@ {
        Some(Ph::Ext)
    } else {
        None
    }
}

/// The name a placeholder is written with.
pub open spec fn ph_name(ph: Ph) -> Seq<char> {
    match ph {
        Ph::Artist => "artist"@,
        Ph::Artists => "artists"@,
        Ph::Title => "title"@,
        Ph::Album => "album"@,
        Ph::Filename => "filename"@,
        Ph::Ext => "ext"@,
    }
}

impl Ph {
    pub fn parse(name: &str) -> (r: Option<Ph>)
        ensures
            r == ph_named(name@),
    {
        if str_equal(name, "artist") {
            Some(Ph::Artist)
        } else if str_equal(name, "artists") {
            Some(Ph::Artists)
        } else if str_equal(name, "title") {
            Some(Ph::Title)
        } else if str_equal(name, "album") {
            Some(Ph::Album)
        } else if str_equal(name, "filename") {
            Some(Ph::Filename)
        } else if str_equal(name, "ext") {
            Some(Ph::Ext)
        } else {
            None
        }
    }

    pub fn name(&self) -> (r: &'static str)
        ensures
            r@ == ph_name(*self),
    {
        match self {
            Ph::Artist => "artist",
            Ph::Artists => "artists",
            Ph::Title => "title",
            Ph::Album => "album",
            Ph::Filename => "filename",
            Ph::Ext => "ext",
        }
    }
}

/// One piece of a template segment.
pub enum Part {
    Text(String),
    Placeholder(Ph),
}

/// The model of a [`Part`].
pub enum PartView {
    Text(Seq<char>),
    Placeholder(Ph),
}

impl View for Part {
    type V = PartView;

    open spec fn view(&self) -> PartView {
        match self {
            Part::Text(t) => PartView::Text(t@),
            Part::Placeholder(ph) => PartView::Placeholder(*ph),
        }
    }
}

/// The model of a sequence of parts.
pub open spec fn parts_view(ps: Seq<Part>) -> Seq<PartView> {
    ps.map_values(|p: Part| p@)
}

/// A parsed path template: one list of parts per `/`-separated segment.
pub struct Template {
    segments: Vec<Vec<Part>>,
}

impl View for Template {
    type V = Seq<Seq<PartView>>;

    closed spec fn view(&self) -> Seq<Seq<PartView>> {
        segments_view(self.segments@)
    }
}

/// The model of the segments of a template.
pub open spec fn segments_view(segs: Seq<Vec<Part>>) -> Seq<Seq<PartView>> {
    segs.map_values(|ps: Vec<Part>| parts_view(ps@))
}

/// The values a template is rendered with.
pub struct RenderValues<'a> {
    pub primary_artist: Option<&'a str>,
    pub artist: Option<&'a str>,
    pub title: Option<&'a str>,
    pub album: Option<&'a str>,
    pub filename: &'a str,
    pub ext: &'a str,
}

/// The view of an optional string.
pub open spec fn opt_view(o: Option<&str>) -> Option<Seq<char>> {
    match o {
        Some(s) => Some(s@),
        None => None,
    }
}

/// The model of the values a template is rendered with.
pub struct ValuesView {
    pub primary_artist: Option<Seq<char>>,
    pub artist: Option<Seq<char>>,
    pub title: Option<Seq<char>>,
    pub album: Option<Seq<char>>,
    pub filename: Seq<char>,
    pub ext: Seq<char>,
}

/// The model of render values.
pub open spec fn values_view(vals: RenderValues) -> ValuesView {
    ValuesView {
        primary_artist: opt_view(vals.primary_artist),
        artist: opt_view(vals.artist),
        title: opt_view(vals.title),
        album: opt_view(vals.album),
        filename: vals.filename@,
        ext: vals.ext@,
    }
}

/// The value a placeholder stands for, if present.
pub open spec fn ph_value(vals: ValuesView, ph: Ph) -> Option<Seq<char>> {
    match ph {
        Ph::Artist => vals.primary_artist,
        Ph::Artists => vals.artist,
        Ph::Title => vals.title,
        Ph::Album => vals.album,
        Ph::Filename => Some(vals.filename),
        Ph::Ext => Some(vals.ext),
    }
}

// ---------- parsing ----------

/// The first index `i >= from` with `s[i] == c`.
pub open spec fn find_from(s: Seq<char>, c: char, from: int) -> Option<int>
    decreases s.len() - from,
{
    if from < 0 || from >= s.len() {
        None
    } else if s[from] == c {
        Some(from)
    } else {
        find_from(s, c, from + 1)
    }
}

pub proof fn lemma_find_from(s: Seq<char>, c: char, from: int)
    requires
        0 <= from,
    ensures
        match find_from(s, c, from) {
            Some(i) => from <= i < s.len() && s[i] == c && forall|j: int|
                from <= j < i ==> s[j] != c,
            None => forall|j: int| from <= j < s.len() ==> s[j] != c,
        },
    decreases s.len() - from,
{
    if from < s.len() && s[from] != c {
        lemma_find_from(s, c, from + 1);
    }
}

pub open spec fn unclosed_msg(seg: Seq<char>) -> Seq<char> {
    "unclosed '{' in segment \""@ + seg + "\""@
}

pub open spec fn unknown_placeholder_msg(name: Seq<char>) -> Seq<char> {
    "unknown placeholder {"@ + name
        + "} (valid: artist, artists, title, album, filename, ext)"@
}

/// Prepends `acc` to an `Ok` result; an error stays as it is.
pub open spec fn prepend_parts(acc: Seq<PartView>, r: Result<Seq<PartView>, Seq<char>>) -> Result<
    Seq<PartView>,
    Seq<char>,
> {
    match r {
        Ok(ps) => Ok(acc + ps),
        Err(e) => Err(e),
    }
}

/// The parts of `seg` from index `pos` on: literal text up to the next `{`,
/// then the placeholder named (trimmed) up to the next `}`, and so on.
pub open spec fn segment_parts(seg: Seq<char>, pos: int) -> Result<Seq<PartView>, Seq<char>>
    decreases seg.len() - pos,
    via segment_parts_decreases
{
    if pos < 0 || pos > seg.len() {
        Ok(Seq::empty())
    } else {
        match find_from(seg, '{', pos) {
            None => Ok(
                if pos < seg.len() {
                    seq![PartView::Text(seg.subrange(pos, seg.len() as int))]
                } else {
                    Seq::empty()
                },
            ),
            Some(start) => {
                let lead = if start > pos {
                    seq![PartView::Text(seg.subrange(pos, start))]
                } else {
                    Seq::empty()
                };
                match find_from(seg, '}', start + 1) {
                    None => Err(unclosed_msg(seg)),
                    Some(end) => {
                        let name = trim_ws(seg.subrange(start + 1, end));
                        match ph_named(name) {
                            None => Err(unknown_placeholder_msg(name)),
                            Some(ph) => prepend_parts(
                                lead + seq![PartView::Placeholder(ph)],
                                segment_parts(seg, end + 1),
                            ),
                        }
                    },
                }
            },
        }
    }
}

#[via_fn]
proof fn segment_parts_decreases(seg: Seq<char>, pos: int) {
    if 0 <= pos <= seg.len() {
        lemma_find_from(seg, '{', pos);
        if let Some(start) = find_from(seg, '{', pos) {
            lemma_find_from(seg, '}', start + 1);
        }
    }
}

pub open spec fn empty_template_msg() -> Seq<char> {
    "template is empty"@
}

pub open spec fn absolute_template_msg() -> Seq<char> {
    "template must be relative to the root (no leading /)"@
}

pub open spec fn empty_segment_msg() -> Seq<char> {
    "empty path segment (check for duplicate slashes)"@
}

pub open spec fn refused_segment_msg(seg: Seq<char>) -> Seq<char> {
    "refusing path segment \""@ + seg + "\""@
}

/// The parts of one segment, or why it is refused.
pub open spec fn segment_spec(seg: Seq<char>) -> Result<Seq<PartView>, Seq<char>> {
    if seg.len() == 0 {
        Err(empty_segment_msg())
    } else if seg == "."@ || seg == ".."@ {
        Err(refused_segment_msg(seg))
    } else {
        segment_parts(seg, 0)
    }
}

/// The parts of every segment, or the error of the first refused segment.
pub open spec fn segments_spec(segs: Seq<Seq<char>>) -> Result<Seq<Seq<PartView>>, Seq<char>>
    decreases segs.len(),
{
    if segs.len() == 0 {
        Ok(Seq::empty())
    } else {
        match segments_spec(segs.drop_last()) {
            Err(e) => Err(e),
            Ok(done) => match segment_spec(segs.last()) {
                Err(e) => Err(e),
                Ok(ps) => Ok(done.push(ps)),
            },
        }
    }
}

/// What parsing the template text `raw` gives.
pub open spec fn template_spec(raw: Seq<char>) -> Result<Seq<Seq<PartView>>, Seq<char>> {
    if raw.len() == 0 {
        Err(empty_template_msg())
    } else if raw[0] == '/' {
        Err(absolute_template_msg())
    } else {
        segments_spec(split_by(raw, char_pred('/')))
    }
}

/// The model of a parse result.
pub open spec fn parsed_view(r: Result<Template, String>) -> Result<Seq<Seq<PartView>>, Seq<char>> {
    match r {
        Ok(t) => Ok(t@),
        Err(e) => Err(e@),
    }
}

pub open spec fn parts_result_view(r: Result<Vec<Part>, String>) -> Result<Seq<PartView>, Seq<char>> {
    match r {
        Ok(ps) => Ok(parts_view(ps@)),
        Err(e) => Err(e@),
    }
}

proof fn lemma_segments_err(segs: Seq<Seq<char>>, i: int)
    requires
        0 <= i <= segs.len(),
        segments_spec(segs.take(i)) is Err,
    ensures
        segments_spec(segs) == segments_spec(segs.take(i)),
    decreases segs.len() - i,
{
    if i == segs.len() {
        assert(segs.take(i) =~= segs);
    } else {
        assert(segs.drop_last().take(i) =~= segs.take(i));
        lemma_segments_err(segs.drop_last(), i);
    }
}

fn find_char(v: &[char], c: char, from: usize) -> (r: Option<usize>)
    requires
        from <= v@.len(),
    ensures
        match r {
            Some(i) => find_from(v@, c, from as int) == Some(i as int),
            None => find_from(v@, c, from as int) is None,
        },
{
    let mut i = from;
    while i < v.len()
        invariant
            from <= i <= v@.len(),
            find_from(v@, c, from as int) == find_from(v@, c, i as int),
        decreases v@.len() - i,
    {
        if v[i] == c {
            return Some(i);
        }
        i = i + 1;
    }
    None
}

fn text_part(v: &[char], a: usize, b: usize) -> (p: Part)
    requires
        a <= b <= v@.len(),
    ensures
        p@ == PartView::Text(v@.subrange(a as int, b as int)),
{
    let w = sub_chars(v, a, b);
    Part::Text(string_of(w.as_slice()))
}

fn parse_segment_parts(seg: &[char]) -> (r: Result<Vec<Part>, String>)
    ensures
        parts_result_view(r) == segment_parts(seg@, 0),
{
    let len = seg.len();
    let mut parts: Vec<Part> = Vec::new();
    let mut pos: usize = 0;
    assert(prepend_parts(Seq::empty(), segment_parts(seg@, 0)) =~= segment_parts(seg@, 0)) by {
        match segment_parts(seg@, 0) {
            Ok(ps) => {
                assert(Seq::<PartView>::empty() + ps =~= ps);
            },
            Err(e) => {},
        }
    }
    loop
        invariant
            len == seg@.len(),
            pos <= len,
            segment_parts(seg@, 0) == prepend_parts(parts_view(parts@), segment_parts(seg@, pos as int)),
        decreases len - pos,
    {
        let ghost before = parts_view(parts@);
        proof {
            lemma_find_from(seg@, '{', pos as int);
        }
        match find_char(seg, '{', pos) {
            None => {
                if pos < len {
                    parts.push(text_part(seg, pos, len));
                }
                assert(parts_view(parts@) =~= before + (if pos < len {
                    seq![PartView::Text(seg@.subrange(pos as int, len as int))]
                } else {
                    Seq::empty()
                }));
                return Ok(parts);
            },
            Some(start) => {
                if start > pos {
                    parts.push(text_part(seg, pos, start));
                }
                let ghost lead = if start > pos {
                    seq![PartView::Text(seg@.subrange(pos as int, start as int))]
                } else {
                    Seq::<PartView>::empty()
                };
                assert(parts_view(parts@) =~= before + lead);
                proof {
                    lemma_find_from(seg@, '}', start + 1);
                }
                match find_char(seg, '}', start + 1) {
                    None => {
                        let mut m = chars_of("unclosed '{' in segment \"");
                        extend_chars(&mut m, seg);
                        extend_str(&mut m, "\"");
                        return Err(string_of(m.as_slice()));
                    },
                    Some(end) => {
                        let raw_name = sub_chars(seg, start + 1, end);
                        let name = trim_whitespace(raw_name.as_slice());
                        let name_str = string_of(name.as_slice());
                        match Ph::parse(name_str.as_str()) {
                            None => {
                                let mut m = chars_of("unknown placeholder {");
                                extend_chars(&mut m, name.as_slice());
                                extend_str(
                                    &mut m,
                                    "} (valid: artist, artists, title, album, filename, ext)",
                                );
                                return Err(string_of(m.as_slice()));
                            },
                            Some(ph) => {
                                parts.push(Part::Placeholder(ph));
                                let ghost added = lead + seq![PartView::Placeholder(ph)];
                                assert(parts_view(parts@) =~= before + added);
                                proof {
                                    match segment_parts(seg@, end + 1) {
                                        Ok(ps) => {
                                            assert(before + (added + ps) =~= (before + added) + ps);
                                        },
                                        Err(e) => {},
                                    }
                                }
                                pos = end + 1;
                            },
                        }
                    },
                }
            },
        }
    }
}

fn is_dot_segment(seg: &[char]) -> (r: bool)
    ensures
        r == (seg@ == "."@ || seg@ == ".."@),
{
    let one = chars_of(".");
    let two = chars_of("..");
    chars_equal(seg, one.as_slice()) || chars_equal(seg, two.as_slice())
}

fn parse_segment(seg: &[char]) -> (r: Result<Vec<Part>, String>)
    ensures
        parts_result_view(r) == segment_spec(seg@),
{
    if seg.len() == 0 {
        return Err(String::from_str("empty path segment (check for duplicate slashes)"));
    }
    if is_dot_segment(seg) {
        let mut m = chars_of("refusing path segment \"");
        extend_chars(&mut m, seg);
        extend_str(&mut m, "\"");
        return Err(string_of(m.as_slice()));
    }
    parse_segment_parts(seg)
}

impl Template {
    pub fn parse(raw: &str) -> (r: Result<Template, String>)
        ensures
            parsed_view(r) == template_spec(raw@),
    {
        let chars = chars_of(raw);
        if chars.len() == 0 {
            return Err(String::from_str("template is empty"));
        }
        if chars[0] == '/' {
            return Err(String::from_str("template must be relative to the root (no leading /)"));
        }
        let pieces = split_chars(chars.as_slice(), SplitSet::Char('/'));
        let ghost segs = pieces_view(pieces@);
        let mut segments: Vec<Vec<Part>> = Vec::new();
        let mut i: usize = 0;
        assert(segs.take(0) =~= Seq::<Seq<char>>::empty());
        assert(segments_view(segments@) =~= Seq::<Seq<PartView>>::empty());
        while i < pieces.len()
            invariant
                i <= pieces@.len(),
                segs == pieces_view(pieces@),
                segs == split_by(raw@, char_pred('/')),
                raw@.len() > 0,
                raw@[0] != '/',
                segments_spec(segs.take(i as int)) == Ok::<_, Seq<char>>(segments_view(segments@)),
            decreases pieces@.len() - i,
        {
            let ghost before = segments_view(segments@);
            proof {
                assert(segs.take(i + 1).drop_last() =~= segs.take(i as int));
                assert(segs.take(i + 1).last() == segs[i as int]);
                assert(pieces[i as int]@ == segs[i as int]);
            }
            match parse_segment(pieces[i].as_slice()) {
                Err(e) => {
                    proof {
                        assert(segment_spec(segs[i as int]) == Err::<Seq<PartView>, Seq<char>>(e@));
                        assert(segments_spec(segs.take(i + 1)) == Err::<Seq<Seq<PartView>>, Seq<char>>(e@));
                        lemma_segments_err(segs, i + 1);
                    }
                    return Err(e);
                },
                Ok(ps) => {
                    let ghost psv = parts_view(ps@);
                    segments.push(ps);
                    assert(segments_view(segments@) =~= before.push(psv));
                },
            }
            i = i + 1;
        }
        assert(segs.take(i as int) =~= segs);
        Ok(Template { segments })
    }
}

// ---------- rendering ----------

/// The characters that cannot stand in a path component: separators,
/// characters other filesystems refuse, and control codes.
pub open spec fn is_unsafe_path_char(c: char) -> bool {
    c == '/' || c == '\\' || c == ':' || c == '?' || c == '*' || c == '"' || c == '<' || c == '>'
        || c == '|' || is_control_char(c)
}

/// `s` with every unsafe character replaced by `_`.
pub open spec fn replace_unsafe(s: Seq<char>) -> Seq<char> {
    s.map_values(|c: char| if is_unsafe_path_char(c) { '_' } else { c })
}

/// The sanitized path component for `raw`: unsafe characters replaced by `_`,
/// then leading and trailing spaces and dots removed; `None` when nothing remains.
pub open spec fn sanitized(raw: Seq<char>) -> Option<Seq<char>> {
    let t = trim_by(replace_unsafe(raw), space_dot_pred());
    if t.len() == 0 {
        None
    } else {
        Some(t)
    }
}

/// The model of an optional string.
pub open spec fn opt_string_view(o: Option<String>) -> Option<Seq<char>> {
    match o {
        Some(s) => Some(s@),
        None => None,
    }
}

fn is_unsafe_char(c: char) -> (r: bool)
    ensures
        r == is_unsafe_path_char(c),
{
    c == '/' || c == '\\' || c == ':' || c == '?' || c == '*' || c == '"' || c == '<' || c == '>'
        || c == '|' || char_is_control(c)
}

fn sanitize_chars(raw: &[char]) -> (r: Option<Vec<char>>)
    ensures
        match r {
            Some(v) => sanitized(raw@) == Some(v@),
            None => sanitized(raw@) is None,
        },
{
    let mut out: Vec<char> = Vec::new();
    let mut i: usize = 0;
    while i < raw.len()
        invariant
            i <= raw@.len(),
            out@ == replace_unsafe(raw@.take(i as int)),
        decreases raw@.len() - i,
    {
        let c = raw[i];
        if is_unsafe_char(c) {
            out.push('_');
        } else {
            out.push(c);
        }
        i = i + 1;
        assert(out@ =~= replace_unsafe(raw@.take(i as int)));
    }
    assert(raw@.take(i as int) =~= raw@);
    let trimmed = trim_chars(out.as_slice(), TrimSet::SpaceDot);
    if trimmed.len() == 0 {
        None
    } else {
        Some(trimmed)
    }
}

/// Make a single path component filesystem-safe; None when nothing remains.
pub fn sanitize_component(raw: &str) -> (r: Option<String>)
    ensures
        opt_string_view(r) == sanitized(raw@),
{
    let chars = chars_of(raw);
    match sanitize_chars(chars.as_slice()) {
        Some(v) => Some(string_of(v.as_slice())),
        None => None,
    }
}

pub open spec fn missing_msg(ph: Ph) -> Seq<char> {
    "missing {"@ + ph_name(ph) + "}"@
}

pub open spec fn empty_component_msg(c: Seq<char>) -> Seq<char> {
    "path component \""@ + c + "\" is empty after sanitizing"@
}

/// The text of one segment before sanitizing: literal text as written, each
/// placeholder replaced by its trimmed value; an error names the first
/// placeholder without a value.
pub open spec fn component_text(parts: Seq<PartView>, vals: ValuesView) -> Result<Seq<char>, Seq<char>>
    decreases parts.len(),
{
    if parts.len() == 0 {
        Ok(Seq::empty())
    } else {
        match component_text(parts.drop_last(), vals) {
            Err(e) => Err(e),
            Ok(acc) => match parts.last() {
                PartView::Text(t) => Ok(acc + t),
                PartView::Placeholder(ph) => match ph_value(vals, ph) {
                    None => Err(missing_msg(ph)),
                    Some(v) => Ok(acc + trim_ws(v)),
                },
            },
        }
    }
}

/// One rendered path component, or why the segment cannot be rendered.
pub open spec fn render_segment(parts: Seq<PartView>, vals: ValuesView) -> Result<Seq<char>, Seq<char>> {
    match component_text(parts, vals) {
        Err(e) => Err(e),
        Ok(c) => match sanitized(c) {
            None => Err(empty_component_msg(c)),
            Some(s) => Ok(s),
        },
    }
}

/// The rendered components of all segments, or the first segment's error.
pub open spec fn render_all(segs: Seq<Seq<PartView>>, vals: ValuesView) -> Result<Seq<Seq<char>>, Seq<char>>
    decreases segs.len(),
{
    if segs.len() == 0 {
        Ok(Seq::empty())
    } else {
        match render_all(segs.drop_last(), vals) {
            Err(e) => Err(e),
            Ok(done) => match render_segment(segs.last(), vals) {
                Err(e) => Err(e),
                Ok(c) => Ok(done.push(c)),
            },
        }
    }
}

/// The model of a render result.
pub open spec fn rendered_view(r: Result<Vec<String>, String>) -> Result<Seq<Seq<char>>, Seq<char>> {
    match r {
        Ok(cs) => Ok(cs@.map_values(|c: String| c@)),
        Err(e) => Err(e@),
    }
}

proof fn lemma_component_err(parts: Seq<PartView>, vals: ValuesView, i: int)
    requires
        0 <= i <= parts.len(),
        component_text(parts.take(i), vals) is Err,
    ensures
        component_text(parts, vals) == component_text(parts.take(i), vals),
    decreases parts.len() - i,
{
    if i == parts.len() {
        assert(parts.take(i) =~= parts);
    } else {
        assert(parts.drop_last().take(i) =~= parts.take(i));
        lemma_component_err(parts.drop_last(), vals, i);
    }
}

proof fn lemma_render_err(segs: Seq<Seq<PartView>>, vals: ValuesView, i: int)
    requires
        0 <= i <= segs.len(),
        render_all(segs.take(i), vals) is Err,
    ensures
        render_all(segs, vals) == render_all(segs.take(i), vals),
    decreases segs.len() - i,
{
    if i == segs.len() {
        assert(segs.take(i) =~= segs);
    } else {
        assert(segs.drop_last().take(i) =~= segs.take(i));
        lemma_render_err(segs.drop_last(), vals, i);
    }
}

fn placeholder_value<'a>(vals: &RenderValues<'a>, ph: Ph) -> (r: Option<&'a str>)
    ensures
        opt_view(r) == ph_value(values_view(*vals), ph),
{
    match ph {
        Ph::Artist => vals.primary_artist,
        Ph::Artists => vals.artist,
        Ph::Title => vals.title,
        Ph::Album => vals.album,
        Ph::Filename => Some(vals.filename),
        Ph::Ext => Some(vals.ext),
    }
}

fn render_parts(parts: &Vec<Part>, vals: &RenderValues) -> (r: Result<Vec<char>, String>)
    ensures
        match r {
            Ok(c) => component_text(parts_view(parts@), values_view(*vals)) == Ok::<_, Seq<char>>(c@),
            Err(e) => component_text(parts_view(parts@), values_view(*vals)) == Err::<Seq<char>, _>(e@),
        },
{
    let ghost all = parts_view(parts@);
    let mut component: Vec<char> = Vec::new();
    let mut j: usize = 0;
    assert(all.take(0) =~= Seq::<PartView>::empty());
    while j < parts.len()
        invariant
            j <= parts@.len(),
            all == parts_view(parts@),
            component_text(all.take(j as int), values_view(*vals)) == Ok::<_, Seq<char>>(component@),
        decreases parts@.len() - j,
    {
        proof {
            assert(all.take(j + 1).drop_last() =~= all.take(j as int));
            assert(all.take(j + 1).last() == parts@[j as int]@);
        }
        match &parts[j] {
            Part::Text(t) => {
                extend_str(&mut component, t.as_str());
            },
            Part::Placeholder(ph) => {
                match placeholder_value(vals, *ph) {
                    None => {
                        let mut m = chars_of("missing {");
                        extend_str(&mut m, ph.name());
                        extend_str(&mut m, "}");
                        let e = string_of(m.as_slice());
                        proof {
                            lemma_component_err(all, values_view(*vals), j + 1);
                        }
                        return Err(e);
                    },
                    Some(value) => {
                        let value_chars = chars_of(value);
                        let trimmed = trim_whitespace(value_chars.as_slice());
                        extend_chars(&mut component, trimmed.as_slice());
                    },
                }
            },
        }
        j = j + 1;
    }
    assert(all.take(j as int) =~= all);
    Ok(component)
}

impl Template {
    /// Render to sanitized path components. Err carries the reason (missing
    /// tag or an empty component) so callers can flag the file.
    pub fn render(&self, vals: &RenderValues) -> (r: Result<Vec<String>, String>)
        ensures
            rendered_view(r) == render_all(self@, values_view(*vals)),
    {
        let ghost segs = self@;
        let mut out: Vec<String> = Vec::new();
        let mut i: usize = 0;
        assert(segs.take(0) =~= Seq::<Seq<PartView>>::empty());
        assert(out@.map_values(|c: String| c@) =~= Seq::<Seq<char>>::empty());
        while i < self.segments.len()
            invariant
                i <= self.segments@.len(),
                segs == self@,
                segs == segments_view(self.segments@),
                render_all(segs.take(i as int), values_view(*vals)) == Ok::<_, Seq<char>>(
                    out@.map_values(|c: String| c@),
                ),
            decreases self.segments@.len() - i,
        {
            let ghost before = out@.map_values(|c: String| c@);
            proof {
                assert(segs.take(i + 1).drop_last() =~= segs.take(i as int));
                assert(segs.take(i + 1).last() == parts_view(self.segments@[i as int]@));
            }
            match render_parts(&self.segments[i], vals) {
                Err(e) => {
                    proof {
                        lemma_render_err(segs, values_view(*vals), i + 1);
                    }
                    return Err(e);
                },
                Ok(component) => {
                    match sanitize_chars(component.as_slice()) {
                        None => {
                            let mut m = chars_of("path component \"");
                            extend_chars(&mut m, component.as_slice());
                            extend_str(&mut m, "\" is empty after sanitizing");
                            let e = string_of(m.as_slice());
                            proof {
                                lemma_render_err(segs, values_view(*vals), i + 1);
                            }
                            return Err(e);
                        },
                        Some(clean) => {
                            let s = string_of(clean.as_slice());
                            out.push(s);
                            assert(out@.map_values(|c: String| c@) =~= before.push(clean@));
                        },
                    }
                },
            }
            i = i + 1;
        }
        assert(segs.take(i as int) =~= segs);
        Ok(out)
    }
}

// ---------- laws ----------

/// Sanitizing is idempotent: a sanitized component is its own sanitized form.
pub proof fn lemma_sanitize_idempotent(raw: Seq<char>)
    ensures
        sanitized(raw) matches Some(s) ==> sanitized(s) == Some(s) && forall|i: int|
            0 <= i < s.len() ==> !is_unsafe_path_char(#[trigger] s[i]),
{
    let m = replace_unsafe(raw);
    let ab = lemma_trim_by_shape(m, space_dot_pred());
    if let Some(s) = sanitized(raw) {
        assert(forall|i: int| 0 <= i < s.len() ==> !is_unsafe_path_char(#[trigger] s[i])) by {
            assert forall|i: int| 0 <= i < s.len() implies !is_unsafe_path_char(#[trigger] s[i]) by {
                assert(s[i] == m[ab.0 + i]);
                assert(('_' as u32) == 95);
            }
        }
        assert(replace_unsafe(s) =~= s);
        lemma_trim_by_fixed(s, space_dot_pred());
    }
}

/// Rendering gives one component per segment, and every component is a
/// non-empty, already sanitized name: it holds no `/` and no unsafe character,
/// and it neither starts nor ends with a space or a dot.
pub proof fn lemma_render_components(segs: Seq<Seq<PartView>>, vals: ValuesView)
    ensures
        render_all(segs, vals) matches Ok(cs) ==> {
            &&& cs.len() == segs.len()
            &&& forall|i: int|
                0 <= i < cs.len() ==> sanitized(#[trigger] cs[i]) == Some(cs[i]) && cs[i].len() > 0
                    && !cs[i].contains('/')
        },
    decreases segs.len(),
{
    if segs.len() > 0 {
        lemma_render_components(segs.drop_last(), vals);
        if let Ok(c) = component_text(segs.last(), vals) {
            lemma_sanitize_idempotent(c);
            if let Some(s) = sanitized(c) {
                assert(!s.contains('/')) by {
                    if s.contains('/') {
                        let i = choose|i: int| 0 <= i < s.len() && s[i] == '/';
                        assert(is_unsafe_path_char(s[i]));
                    }
                }
            }
        }
    }
}

} // verus!
