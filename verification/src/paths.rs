//! Filesystem paths as `/`-separated strings, with the operations the library
//! needs: joining, components, parent, file name, extension, stem, prefix and
//! ordering. Paths compare by their components, as `std::path::Path` does for
//! Unix paths: repeated separators, a trailing separator and `.` components
//! make no difference.

use vstd::prelude::*;

use crate::text::{
    chars_equal, chars_less, chars_of, char_pred, extend_chars, extend_str, pieces_view, seq_less,
    split_by, split_chars, string_of, sub_chars, SplitSet,
};

verus! {

/// Whether the path starts at the root.
pub open spec fn is_absolute(p: Seq<char>) -> bool {
    p.len() > 0 && p[0] == '/'
}

/// The predicate of the pieces that are components: not empty and not `.`.
pub open spec fn component_pred() -> spec_fn(Seq<char>) -> bool {
    |c: Seq<char>| c.len() > 0 && c != "."@
}

/// The components of a path below its root, in order.
pub open spec fn components(p: Seq<char>) -> Seq<Seq<char>> {
    split_by(p, char_pred('/')).filter(component_pred())
}

/// Two paths name the same place: both absolute or both relative, with the
/// same components.
pub open spec fn same_path(a: Seq<char>, b: Seq<char>) -> bool {
    is_absolute(a) == is_absolute(b) && components(a) == components(b)
}

/// The final component, unless there is none or it is `..` (`Path::file_name`).
pub open spec fn file_name_of(p: Seq<char>) -> Option<Seq<char>> {
    let cs = components(p);
    if cs.len() == 0 || cs.last() == ".."@ {
        None
    } else {
        Some(cs.last())
    }
}

/// The two paths have parents (`Path::parent`), and the parents are the same.
pub open spec fn same_parent(a: Seq<char>, b: Seq<char>) -> bool {
    let ca = components(a);
    let cb = components(b);
    ca.len() > 0 && cb.len() > 0 && is_absolute(a) == is_absolute(b) && ca.drop_last()
        == cb.drop_last()
}

/// The index of the last `.` in `name`.
pub open spec fn last_dot(name: Seq<char>) -> Option<int>
    decreases name.len(),
{
    if name.len() == 0 {
        None
    } else if name.last() == '.' {
        Some(name.len() - 1)
    } else {
        last_dot(name.drop_last())
    }
}

/// The extension of a file name: what follows its last `.`, unless there is
/// no `.` or the only `.` is the first character (`Path::extension`).
pub open spec fn name_extension(name: Seq<char>) -> Option<Seq<char>> {
    match last_dot(name) {
        Some(k) => if k > 0 {
            Some(name.skip(k + 1))
        } else {
            None
        },
        None => None,
    }
}

/// The stem of a file name: what precedes its last `.`, or the whole name
/// when it has no extension (`Path::file_stem`).
pub open spec fn name_stem(name: Seq<char>) -> Seq<char> {
    match last_dot(name) {
        Some(k) => if k > 0 {
            name.take(k)
        } else {
            name
        },
        None => name,
    }
}

/// `Path::extension` of a path.
pub open spec fn extension_of(p: Seq<char>) -> Option<Seq<char>> {
    match file_name_of(p) {
        Some(n) => name_extension(n),
        None => None,
    }
}

/// `Path::file_stem` of a path.
pub open spec fn stem_of(p: Seq<char>) -> Option<Seq<char>> {
    match file_name_of(p) {
        Some(n) => Some(name_stem(n)),
        None => None,
    }
}

/// `c` appended to `p` (`Path::join`): an absolute `c` replaces `p`;
/// otherwise a separator goes between them unless `p` is empty or already
/// ends with one.
pub open spec fn joined(p: Seq<char>, c: Seq<char>) -> Seq<char> {
    if is_absolute(c) {
        c
    } else if p.len() > 0 && p.last() != '/' {
        p + seq!['/'] + c
    } else {
        p + c
    }
}

/// `p` is at or below `base` (`Path::starts_with`): the same kind of path,
/// and the components of `base` begin those of `p`.
pub open spec fn path_starts_with(p: Seq<char>, base: Seq<char>) -> bool {
    is_absolute(p) == is_absolute(base) && components(base).len() <= components(p).len()
        && components(p).take(components(base).len() as int) == components(base)
}

/// The order of two components: `..` comes before names, names compare by
/// their characters.
pub open spec fn component_less(a: Seq<char>, b: Seq<char>) -> bool {
    if a == ".."@ {
        b != ".."@
    } else if b == ".."@ {
        false
    } else {
        seq_less(a, b)
    }
}

/// The lexicographic order of component lists.
pub open spec fn components_less(a: Seq<Seq<char>>, b: Seq<Seq<char>>) -> bool
    decreases a.len(),
{
    if a.len() == 0 {
        b.len() > 0
    } else if b.len() == 0 {
        false
    } else if a[0] != b[0] {
        component_less(a[0], b[0])
    } else {
        components_less(a.drop_first(), b.drop_first())
    }
}

/// The order of `Path`: absolute paths first, then by components.
pub open spec fn path_less(a: Seq<char>, b: Seq<char>) -> bool {
    if is_absolute(a) != is_absolute(b) {
        is_absolute(a)
    } else {
        components_less(components(a), components(b))
    }
}

/// `component_less` is irreflexive and transitive.
pub proof fn lemma_component_less_order(a: Seq<char>, b: Seq<char>, c: Seq<char>)
    ensures
        !component_less(a, a),
        component_less(a, b) && component_less(b, c) ==> component_less(a, c),
{
    crate::text::lemma_seq_less_asym(a, a);
    if seq_less(a, b) && seq_less(b, c) {
        crate::text::lemma_seq_less_trans(a, b, c);
    }
}

/// The component-list order is irreflexive and transitive.
pub proof fn lemma_components_less_order(a: Seq<Seq<char>>, b: Seq<Seq<char>>, c: Seq<Seq<char>>)
    ensures
        !components_less(a, a),
        components_less(a, b) && components_less(b, c) ==> components_less(a, c),
    decreases a.len(),
{
    if a.len() > 0 {
        lemma_components_less_order(a.drop_first(), a.drop_first(), a.drop_first());
        if b.len() > 0 && c.len() > 0 {
            lemma_component_less_order(a[0], b[0], c[0]);
            lemma_component_less_order(a[0], a[0], a[0]);
            lemma_components_less_order(a.drop_first(), b.drop_first(), c.drop_first());
        }
    }
}

/// The order of paths is a strict order: irreflexive and transitive.
pub proof fn lemma_path_less_order(a: Seq<char>, b: Seq<char>, c: Seq<char>)
    ensures
        !path_less(a, a),
        path_less(a, b) && path_less(b, c) ==> path_less(a, c),
{
    lemma_components_less_order(components(a), components(a), components(a));
    lemma_components_less_order(components(a), components(b), components(c));
}

/// The components of a path, computed.
pub fn path_components(p: &str) -> (r: Vec<Vec<char>>)
    ensures
        pieces_view(r@) == components(p@),
{
    let chars = chars_of(p);
    let pieces = split_chars(chars.as_slice(), SplitSet::Char('/'));
    let ghost all = pieces_view(pieces@);
    let ghost keep = component_pred();
    let mut r: Vec<Vec<char>> = Vec::new();
    let mut i: usize = 0;
    let dot = chars_of(".");
    proof {
        assert(all.take(0) =~= Seq::<Seq<char>>::empty());
        reveal(Seq::filter);
        assert(pieces_view(r@) =~= all.take(0).filter(keep));
    }
    while i < pieces.len()
        invariant
            i <= pieces@.len(),
            all == pieces_view(pieces@),
            all == split_by(p@, char_pred('/')),
            keep == component_pred(),
            dot@ == "."@,
            pieces_view(r@) == all.take(i as int).filter(keep),
        decreases pieces@.len() - i,
    {
        let ghost before = r@;
        proof {
            assert(all.take(i + 1) =~= all.take(i as int).push(all[i as int]));
            all.take(i as int).lemma_filter_push(all[i as int], keep);
        }
        if pieces[i].len() > 0 && !chars_equal(pieces[i].as_slice(), dot.as_slice()) {
            r.push(pieces[i].clone());
            assert(pieces_view(r@) =~= pieces_view(before).push(all[i as int]));
        } else {
            assert(pieces_view(r@) =~= pieces_view(before));
        }
        i = i + 1;
    }
    assert(all.take(i as int) =~= all);
    r
}

/// Whether the path starts at the root.
pub fn path_is_absolute(p: &str) -> (r: bool)
    ensures
        r == is_absolute(p@),
{
    let chars = chars_of(p);
    chars.len() > 0 && chars[0] == '/'
}

fn components_equal(a: &Vec<Vec<char>>, b: &Vec<Vec<char>>) -> (r: bool)
    ensures
        r == (pieces_view(a@) == pieces_view(b@)),
{
    if a.len() != b.len() {
        assert(pieces_view(a@).len() != pieces_view(b@).len());
        return false;
    }
    let mut i: usize = 0;
    while i < a.len()
        invariant
            i <= a@.len(),
            a@.len() == b@.len(),
            forall|j: int| 0 <= j < i ==> a@[j]@ == b@[j]@,
        decreases a@.len() - i,
    {
        if !chars_equal(a[i].as_slice(), b[i].as_slice()) {
            assert(pieces_view(a@)[i as int] != pieces_view(b@)[i as int]);
            return false;
        }
        i = i + 1;
    }
    assert(pieces_view(a@) =~= pieces_view(b@));
    true
}

/// Whether two paths name the same place (`Path == Path`).
pub fn paths_equal(a: &str, b: &str) -> (r: bool)
    ensures
        r == same_path(a@, b@),
{
    if path_is_absolute(a) != path_is_absolute(b) {
        return false;
    }
    let ca = path_components(a);
    let cb = path_components(b);
    components_equal(&ca, &cb)
}

/// The final component of a path, unless there is none or it is `..`.
pub fn file_name(p: &str) -> (r: Option<String>)
    ensures
        match r {
            Some(n) => file_name_of(p@) == Some(n@),
            None => file_name_of(p@) is None,
        },
{
    let cs = path_components(p);
    if cs.len() == 0 {
        return None;
    }
    let last = &cs[cs.len() - 1];
    let dots = chars_of("..");
    if chars_equal(last.as_slice(), dots.as_slice()) {
        None
    } else {
        Some(string_of(last.as_slice()))
    }
}

/// Whether both paths have parents and the parents are the same.
pub fn parents_equal(a: &str, b: &str) -> (r: bool)
    ensures
        r == same_parent(a@, b@),
{
    let ca = path_components(a);
    let cb = path_components(b);
    if ca.len() == 0 || cb.len() == 0 || path_is_absolute(a) != path_is_absolute(b) {
        return false;
    }
    if ca.len() != cb.len() {
        assert(pieces_view(ca@).drop_last().len() != pieces_view(cb@).drop_last().len());
        return false;
    }
    let mut i: usize = 0;
    while i < ca.len() - 1
        invariant
            i < ca@.len(),
            ca@.len() == cb@.len(),
            pieces_view(ca@) == components(a@),
            pieces_view(cb@) == components(b@),
            is_absolute(a@) == is_absolute(b@),
            forall|j: int| 0 <= j < i ==> ca@[j]@ == cb@[j]@,
        decreases ca@.len() - i,
    {
        if !chars_equal(ca[i].as_slice(), cb[i].as_slice()) {
            assert(pieces_view(ca@).drop_last()[i as int] != pieces_view(cb@).drop_last()[i as int]);
            return false;
        }
        i = i + 1;
    }
    assert(pieces_view(ca@).drop_last() =~= pieces_view(cb@).drop_last());
    true
}

fn last_dot_index(name: &[char]) -> (r: Option<usize>)
    ensures
        match r {
            Some(k) => last_dot(name@) == Some(k as int) && k < name@.len(),
            None => last_dot(name@) is None,
        },
{
    let mut i: usize = name.len();
    assert(name@.take(i as int) =~= name@);
    while i > 0
        invariant
            i <= name@.len(),
            last_dot(name@) == last_dot(name@.take(i as int)),
        decreases i,
    {
        if name[i - 1] == '.' {
            return Some(i - 1);
        }
        assert(name@.take(i as int).drop_last() =~= name@.take(i - 1));
        i = i - 1;
    }
    None
}

/// The extension of the path's file name (`Path::extension`).
pub fn extension(p: &str) -> (r: Option<String>)
    ensures
        match r {
            Some(e) => extension_of(p@) == Some(e@),
            None => extension_of(p@) is None,
        },
{
    let name = match file_name(p) {
        Some(n) => n,
        None => return None,
    };
    let chars = chars_of(name.as_str());
    let slice = chars.as_slice();
    let n = chars.len();
    match last_dot_index(slice) {
        Some(k) => if k > 0 {
            assert(slice@ == chars@);
            assert(k < chars@.len());
            let e = sub_chars(slice, k + 1, n);
            assert(e@ =~= chars@.skip(k + 1));
            Some(string_of(e.as_slice()))
        } else {
            None
        },
        None => None,
    }
}

/// The stem of the path's file name (`Path::file_stem`).
pub fn file_stem(p: &str) -> (r: Option<String>)
    ensures
        match r {
            Some(s) => stem_of(p@) == Some(s@),
            None => stem_of(p@) is None,
        },
{
    let name = match file_name(p) {
        Some(n) => n,
        None => return None,
    };
    let chars = chars_of(name.as_str());
    match last_dot_index(chars.as_slice()) {
        Some(k) => if k > 0 {
            let s = sub_chars(chars.as_slice(), 0, k);
            assert(s@ =~= chars@.take(k as int));
            Some(string_of(s.as_slice()))
        } else {
            Some(name)
        },
        None => Some(name),
    }
}

/// `c` appended to `p` (`Path::join`).
pub fn join(p: &str, c: &str) -> (r: String)
    ensures
        r@ == joined(p@, c@),
{
    if path_is_absolute(c) {
        return string_of(chars_of(c).as_slice());
    }
    let mut out = chars_of(p);
    if out.len() > 0 && out[out.len() - 1] != '/' {
        out.push('/');
    }
    extend_str(&mut out, c);
    string_of(out.as_slice())
}

/// Whether `p` is at or below `base` (`Path::starts_with`).
pub fn starts_with(p: &str, base: &str) -> (r: bool)
    ensures
        r == path_starts_with(p@, base@),
{
    if path_is_absolute(p) != path_is_absolute(base) {
        return false;
    }
    let cp = path_components(p);
    let cb = path_components(base);
    if cb.len() > cp.len() {
        return false;
    }
    let mut i: usize = 0;
    while i < cb.len()
        invariant
            i <= cb@.len() <= cp@.len(),
            pieces_view(cp@) == components(p@),
            pieces_view(cb@) == components(base@),
            is_absolute(p@) == is_absolute(base@),
            forall|j: int| 0 <= j < i ==> cp@[j]@ == cb@[j]@,
        decreases cb@.len() - i,
    {
        if !chars_equal(cp[i].as_slice(), cb[i].as_slice()) {
            assert(pieces_view(cp@).take(cb@.len() as int)[i as int] != pieces_view(cb@)[i as int]);
            return false;
        }
        i = i + 1;
    }
    assert(pieces_view(cp@).take(cb@.len() as int) =~= pieces_view(cb@));
    true
}

fn component_before(a: &[char], b: &[char]) -> (r: bool)
    ensures
        r == component_less(a@, b@),
{
    let dots = chars_of("..");
    let a_up = chars_equal(a, dots.as_slice());
    let b_up = chars_equal(b, dots.as_slice());
    if a_up {
        !b_up
    } else if b_up {
        false
    } else {
        chars_less(a, b)
    }
}

/// Whether `a` comes before `b` in the order of `Path`.
pub fn path_before(a: &str, b: &str) -> (r: bool)
    ensures
        r == path_less(a@, b@),
{
    let abs_a = path_is_absolute(a);
    let abs_b = path_is_absolute(b);
    if abs_a != abs_b {
        return abs_a;
    }
    let ca = path_components(a);
    let cb = path_components(b);
    let ghost va = pieces_view(ca@);
    let ghost vb = pieces_view(cb@);
    let mut i: usize = 0;
    assert(va.skip(0) =~= va);
    assert(vb.skip(0) =~= vb);
    while i < ca.len() && i < cb.len() && chars_equal(ca[i].as_slice(), cb[i].as_slice())
        invariant
            i <= ca@.len(),
            i <= cb@.len(),
            va == pieces_view(ca@),
            vb == pieces_view(cb@),
            components_less(va, vb) == components_less(va.skip(i as int), vb.skip(i as int)),
        decreases ca@.len() - i,
    {
        assert(va.skip(i as int).drop_first() =~= va.skip(i + 1));
        assert(vb.skip(i as int).drop_first() =~= vb.skip(i + 1));
        i = i + 1;
    }
    if i == ca.len() {
        i < cb.len()
    } else if i == cb.len() {
        false
    } else {
        component_before(ca[i].as_slice(), cb[i].as_slice())
    }
}

} // verus!
