//! The text of the analysis reports: what an import would do, file by file
//! and in total, and which duplicates were found and which file of each
//! group is kept, and how a library would be reorganized.

use vstd::prelude::*;

use crate::dedup::{
    count_kind, describe, describe_spec, files_view, groups_view, kind_name, kind_total, FileEntry,
    FileView, Group, GroupKind, GroupView,
};
use crate::import::{Disposition, ImportItem, ImportPlan, ItemView, Mode, fmt_duration, items_view};
use crate::reorg::{DupeFile, DupeGroup, EntryView, Plan, PlanEntry, entries_view};
use crate::scan::display_name;
use crate::text::{chars_of, decimal, decimal_chars, extend_chars, extend_str, string_of};

verus! {

/// `n` spaces.
pub open spec fn spaces(n: nat) -> Seq<char> {
    Seq::new(n, |i: int| ' ')
}

/// `s` padded with spaces on the right to `width` characters (`{:<width}`).
pub open spec fn pad_right(s: Seq<char>, width: nat) -> Seq<char> {
    if s.len() >= width {
        s
    } else {
        s + spaces((width - s.len()) as nat)
    }
}

/// Appends `s` padded with spaces on the right to `width` characters.
pub fn push_padded(v: &mut Vec<char>, s: &str, width: usize)
    ensures
        final(v)@ == old(v)@ + pad_right(s@, width as nat),
{
    let ghost before = v@;
    let w = chars_of(s);
    extend_chars(v, w.as_slice());
    let ghost start = v@;
    let mut k: usize = w.len();
    assert(spaces(0) =~= Seq::<char>::empty());
    while k < width
        invariant
            w.len() <= k,
            k <= width || k == w.len(),
            v@ == start + spaces((k - w.len()) as nat),
        decreases width - k,
    {
        v.push(' ');
        assert(spaces((k + 1 - w.len()) as nat) =~= spaces((k - w.len()) as nat).push(' '));
        k = k + 1;
    }
    assert(v@ =~= before + pad_right(s@, width as nat));
}

// ---------- import ----------

/// The number of items with disposition `d`.
pub open spec fn disposition_total(items: Seq<ItemView>, d: Disposition) -> nat
    decreases items.len(),
{
    if items.len() == 0 {
        0
    } else {
        disposition_total(items.drop_last(), d) + (if items.last().disposition == d {
            1nat
        } else {
            0nat
        })
    }
}

/// A count line: `  <label padded to 12> <n>`, then `  (<hint>)` when there
/// is a hint.
pub open spec fn count_line(label: Seq<char>, n: nat, hint: Seq<char>) -> Seq<char> {
    "  "@ + pad_right(label, 12) + " "@ + decimal(n) + (if hint.len() == 0 {
        Seq::<char>::empty()
    } else {
        "  ("@ + hint + ")"@
    })
}

/// The count line of one disposition, when any item has it.
pub open spec fn count_line_if(items: Seq<ItemView>, d: Disposition, label: Seq<char>, hint: Seq<char>) -> Seq<
    Seq<char>,
> {
    if disposition_total(items, d) > 0 {
        seq![count_line(label, disposition_total(items, d), hint)]
    } else {
        Seq::empty()
    }
}

/// What overwriting does to duplicates, or that they are skipped.
pub open spec fn duplicate_hint(overwrite: bool) -> Seq<char> {
    if overwrite {
        "will replace the matched library file"@
    } else {
        "skipped: same artist + title in library"@
    }
}

/// What overwriting does to conflicts, or that they are skipped.
pub open spec fn conflict_hint(overwrite: bool) -> Seq<char> {
    if overwrite {
        "will overwrite the target file"@
    } else {
        "skipped: target exists"@
    }
}

/// The count lines, in disposition order.
pub open spec fn import_count_lines(items: Seq<ItemView>, overwrite: bool) -> Seq<Seq<char>> {
    count_line_if(items, Disposition::New, "new"@, Seq::empty()) + count_line_if(
        items,
        Disposition::AltVersion,
        "alt-version"@,
        "imported: same song, different duration"@,
    ) + count_line_if(items, Disposition::Duplicate, "duplicate"@, duplicate_hint(overwrite))
        + count_line_if(items, Disposition::Conflict, "conflict"@, conflict_hint(overwrite))
        + count_line_if(items, Disposition::Untagged, "untagged"@, "skipped: missing tags for template"@)
}

/// The note of an item, or nothing.
pub open spec fn note_text(item: ItemView) -> Seq<char> {
    match item.note {
        Some(n) => n,
        None => Seq::empty(),
    }
}

/// One line per item that is not simply new: its file name and note.
pub open spec fn import_detail_lines(items: Seq<ItemView>) -> Seq<Seq<char>>
    decreases items.len(),
{
    if items.len() == 0 {
        Seq::empty()
    } else {
        let prev = import_detail_lines(items.drop_last());
        let it = items.last();
        if it.disposition != Disposition::New {
            prev.push("  - "@ + display_name(it.src) + ": "@ + note_text(it))
        } else {
            prev
        }
    }
}

/// What the files are: copied or moved.
pub open spec fn mode_verb(mode: Mode) -> Seq<char> {
    match mode {
        Mode::Copy => "copied"@,
        Mode::Move => "moved"@,
    }
}

/// The closing lines: what an execution would place.
pub open spec fn import_closing_lines(items: Seq<ItemView>, mode: Mode, overwrite: bool) -> Seq<
    Seq<char>,
> {
    let placed = disposition_total(items, Disposition::New) + disposition_total(
        items,
        Disposition::AltVersion,
    );
    let replaced = if overwrite {
        disposition_total(items, Disposition::Duplicate) + disposition_total(
            items,
            Disposition::Conflict,
        )
    } else {
        0
    };
    let total = placed + replaced;
    if total == 0 {
        seq![Seq::empty(), "nothing to import"@]
    } else if replaced > 0 {
        seq![
            Seq::empty(),
            "with --execute: "@ + decimal(placed) + " file(s) and "@ + decimal(replaced)
                + " replacement(s) would be "@ + mode_verb(mode) + " into the library"@,
        ]
    } else {
        seq![
            Seq::empty(),
            "with --execute: "@ + decimal(total) + " file(s) would be "@ + mode_verb(mode)
                + " into the library"@,
        ]
    }
}

/// The import analysis report, line by line.
pub open spec fn import_report_lines(
    input: Seq<char>,
    root: Seq<char>,
    template: Seq<char>,
    items: Seq<ItemView>,
    mode: Mode,
    overwrite: bool,
) -> Seq<Seq<char>> {
    seq![
        "import analysis"@,
        "  input: "@ + input,
        "  library: "@ + root,
        "  template: "@ + template,
        Seq::empty(),
    ] + import_count_lines(items, overwrite) + import_detail_lines(items) + import_closing_lines(
        items,
        mode,
        overwrite,
    )
}

/// The models of report lines.
pub open spec fn lines_view(v: Seq<String>) -> Seq<Seq<char>> {
    v.map_values(|s: String| s@)
}

fn text2(a: &str, b: &str) -> (r: String)
    ensures
        r@ == a@ + b@,
{
    let mut v = chars_of(a);
    extend_str(&mut v, b);
    string_of(v.as_slice())
}

fn push_blank(lines: &mut Vec<String>)
    ensures
        lines_view(final(lines)@) == lines_view(old(lines)@).push(Seq::<char>::empty()),
{
    let ghost before = lines_view(lines@);
    lines.push(String::new());
    assert(lines_view(lines@) =~= before.push(Seq::<char>::empty()));
}

fn push_line(lines: &mut Vec<String>, v: &Vec<char>)
    ensures
        lines_view(final(lines)@) == lines_view(old(lines)@).push(v@),
{
    let ghost before = lines_view(lines@);
    lines.push(string_of(v.as_slice()));
    assert(lines_view(lines@) =~= before.push(v@));
}

fn push_count_line(lines: &mut Vec<String>, n: usize, label: &str, hint: &str)
    ensures
        lines_view(final(lines)@) == lines_view(old(lines)@) + (if n > 0 {
            seq![count_line(label@, n as nat, hint@)]
        } else {
            Seq::<Seq<char>>::empty()
        }),
{
    if n == 0 {
        assert(lines_view(lines@) =~= lines_view(lines@) + Seq::<Seq<char>>::empty());
        return;
    }
    let mut v = chars_of("  ");
    push_padded(&mut v, label, 12);
    v.push(' ');
    let digits = decimal_chars(n as u64);
    extend_chars(&mut v, digits.as_slice());
    let ghost base = v@;
    if !hint.is_empty() {
        extend_str(&mut v, "  (");
        extend_str(&mut v, hint);
        extend_str(&mut v, ")");
    }
    assert(v@ =~= count_line(label@, n as nat, hint@)) by {
        reveal_strlit(" ");
    }
    push_line(lines, &v);
}

/// The counts of the five dispositions among `items`.
fn disposition_counts(items: &Vec<ImportItem>) -> (r: [usize; 5])
    ensures
        r[0] == disposition_total(items_view(items@), Disposition::New),
        r[1] == disposition_total(items_view(items@), Disposition::AltVersion),
        r[2] == disposition_total(items_view(items@), Disposition::Duplicate),
        r[3] == disposition_total(items_view(items@), Disposition::Conflict),
        r[4] == disposition_total(items_view(items@), Disposition::Untagged),
        r[0] + r[1] + r[2] + r[3] + r[4] == items@.len(),
{
    let ghost all = items_view(items@);
    let mut c: [usize; 5] = [0, 0, 0, 0, 0];
    let mut i: usize = 0;
    assert(all.take(0) =~= Seq::<ItemView>::empty());
    while i < items.len()
        invariant
            i <= items@.len(),
            all == items_view(items@),
            c[0] == disposition_total(all.take(i as int), Disposition::New),
            c[1] == disposition_total(all.take(i as int), Disposition::AltVersion),
            c[2] == disposition_total(all.take(i as int), Disposition::Duplicate),
            c[3] == disposition_total(all.take(i as int), Disposition::Conflict),
            c[4] == disposition_total(all.take(i as int), Disposition::Untagged),
            c[0] + c[1] + c[2] + c[3] + c[4] == i,
        decreases items@.len() - i,
    {
        assert(all.take(i + 1).drop_last() =~= all.take(i as int));
        assert(all.take(i + 1).last() == items@[i as int]@);
        match items[i].disposition {
            Disposition::New => c[0] = c[0] + 1,
            Disposition::AltVersion => c[1] = c[1] + 1,
            Disposition::Duplicate => c[2] = c[2] + 1,
            Disposition::Conflict => c[3] = c[3] + 1,
            Disposition::Untagged => c[4] = c[4] + 1,
        }
        i = i + 1;
    }
    assert(all.take(i as int) =~= all);
    c
}

fn import_header(plan: &ImportPlan) -> (lines: Vec<String>)
    ensures
        lines_view(lines@) == seq![
            "import analysis"@,
            "  input: "@ + plan.input@,
            "  library: "@ + plan.root@,
            "  template: "@ + plan.template@,
            Seq::<char>::empty(),
        ],
{
    let mut lines: Vec<String> = Vec::new();
    lines.push(text2("import analysis", ""));
    lines.push(text2("  input: ", plan.input.as_str()));
    lines.push(text2("  library: ", plan.root.as_str()));
    lines.push(text2("  template: ", plan.template.as_str()));
    lines.push(String::new());
    proof {
        reveal_strlit("");
    }
    assert(lines_view(lines@) =~= seq![
        "import analysis"@,
        "  input: "@ + plan.input@,
        "  library: "@ + plan.root@,
        "  template: "@ + plan.template@,
        Seq::<char>::empty(),
    ]);
    lines
}

fn push_import_counts(lines: &mut Vec<String>, c: &[usize; 5], overwrite: bool, Ghost(items): Ghost<Seq<ItemView>>)
    requires
        c[0] == disposition_total(items, Disposition::New),
        c[1] == disposition_total(items, Disposition::AltVersion),
        c[2] == disposition_total(items, Disposition::Duplicate),
        c[3] == disposition_total(items, Disposition::Conflict),
        c[4] == disposition_total(items, Disposition::Untagged),
    ensures
        lines_view(final(lines)@) == lines_view(old(lines)@) + import_count_lines(items, overwrite),
{
    let ghost before = lines_view(lines@);
    let (dup_hint, conflict_hint) = if overwrite {
        ("will replace the matched library file", "will overwrite the target file")
    } else {
        ("skipped: same artist + title in library", "skipped: target exists")
    };
    push_count_line(lines, c[0], "new", "");
    push_count_line(lines, c[1], "alt-version", "imported: same song, different duration");
    push_count_line(lines, c[2], "duplicate", dup_hint);
    push_count_line(lines, c[3], "conflict", conflict_hint);
    push_count_line(lines, c[4], "untagged", "skipped: missing tags for template");
    proof {
        reveal_strlit("");
    }
    assert(lines_view(lines@) =~= before + import_count_lines(items, overwrite));
}

fn push_import_details(lines: &mut Vec<String>, plan_items: &Vec<ImportItem>)
    ensures
        lines_view(final(lines)@) == lines_view(old(lines)@) + import_detail_lines(
            items_view(plan_items@),
        ),
{
    let ghost items = items_view(plan_items@);
    let ghost counted = lines_view(lines@);
    let mut i: usize = 0;
    assert(items.take(0) =~= Seq::<ItemView>::empty());
    assert(counted =~= counted + import_detail_lines(items.take(0)));
    while i < plan_items.len()
        invariant
            i <= plan_items@.len(),
            items == items_view(plan_items@),
            lines_view(lines@) == counted + import_detail_lines(items.take(i as int)),
        decreases plan_items@.len() - i,
    {
        assert(items.take(i + 1).drop_last() =~= items.take(i as int));
        assert(items.take(i + 1).last() == plan_items@[i as int]@);
        let item = &plan_items[i];
        if item.disposition != Disposition::New {
            let mut v = chars_of("  - ");
            let name = crate::scan::file_name(item.src.as_str());
            extend_str(&mut v, name.as_str());
            extend_str(&mut v, ": ");
            match &item.note {
                Some(n) => extend_str(&mut v, n.as_str()),
                None => {},
            }
            assert(v@ =~= "  - "@ + display_name(item.src@) + ": "@ + note_text(item@));
            push_line(lines, &v);
            assert(lines_view(lines@) =~= counted + import_detail_lines(items.take(i + 1)));
        }
        i = i + 1;
    }
    assert(items.take(i as int) =~= items);
}

fn push_import_closing(lines: &mut Vec<String>, c: &[usize; 5], mode: Mode, overwrite: bool, Ghost(items): Ghost<Seq<ItemView>>)
    requires
        c[0] == disposition_total(items, Disposition::New),
        c[1] == disposition_total(items, Disposition::AltVersion),
        c[2] == disposition_total(items, Disposition::Duplicate),
        c[3] == disposition_total(items, Disposition::Conflict),
        c[0] + c[1] + c[2] + c[3] <= usize::MAX,
    ensures
        lines_view(final(lines)@) == lines_view(old(lines)@) + import_closing_lines(items, mode, overwrite),
{
    let ghost before = lines_view(lines@);
    let placed = c[0] + c[1];
    let replaced = if overwrite {
        c[2] + c[3]
    } else {
        0
    };
    let total = placed + replaced;
    let verb = match mode {
        Mode::Copy => "copied",
        Mode::Move => "moved",
    };
    lines.push(String::new());
    let mut v: Vec<char> = Vec::new();
    if total == 0 {
        extend_str(&mut v, "nothing to import");
    } else if replaced > 0 {
        extend_str(&mut v, "with --execute: ");
        let d = decimal_chars(placed as u64);
        extend_chars(&mut v, d.as_slice());
        extend_str(&mut v, " file(s) and ");
        let d2 = decimal_chars(replaced as u64);
        extend_chars(&mut v, d2.as_slice());
        extend_str(&mut v, " replacement(s) would be ");
        extend_str(&mut v, verb);
        extend_str(&mut v, " into the library");
    } else {
        extend_str(&mut v, "with --execute: ");
        let d = decimal_chars(total as u64);
        extend_chars(&mut v, d.as_slice());
        extend_str(&mut v, " file(s) would be ");
        extend_str(&mut v, verb);
        extend_str(&mut v, " into the library");
    }
    push_line(lines, &v);
    assert(lines_view(lines@) =~= before + import_closing_lines(items, mode, overwrite));
}

/// The import analysis report of a plan, line by line: header, counts by
/// disposition, one line per item that is not simply new, and what an
/// execution would do.
pub fn import_report(plan: &ImportPlan, mode: Mode, overwrite: bool) -> (lines: Vec<String>)
    ensures
        lines_view(lines@) == import_report_lines(
            plan.input@,
            plan.root@,
            plan.template@,
            items_view(plan.items@),
            mode,
            overwrite,
        ),
{
    let ghost items = items_view(plan.items@);
    let mut lines = import_header(plan);
    let c = disposition_counts(&plan.items);
    let n = plan.items.len();
    assert(c[0] + c[1] + c[2] + c[3] <= n);
    push_import_counts(&mut lines, &c, overwrite, Ghost(items));
    push_import_details(&mut lines, &plan.items);
    push_import_closing(&mut lines, &c, mode, overwrite, Ghost(items));
    lines
}

// ---------- dedup ----------

/// The unreadable count as the report words it: the number, or `no`.
pub open spec fn unreadable_text(n: nat) -> Seq<char> {
    if n > 0 {
        decimal(n)
    } else {
        "no"@
    }
}

/// The first line of the dedup report; `mb` is the reclaimable size in MB,
/// already formatted.
pub open spec fn dedup_header(scanned: nat, unreadable: nat, groups: nat, mb: Seq<char>) -> Seq<char> {
    "scanned "@ + decimal(scanned) + " files ("@ + unreadable_text(unreadable)
        + " unreadable ignored), "@ + decimal(groups) + " duplicate groups, up to "@ + mb
        + " MB reclaimable"@
}

/// The count line of one group kind, when there is a group of that kind.
pub open spec fn kind_line_if(gs: Seq<GroupView>, k: GroupKind) -> Seq<Seq<char>> {
    if kind_total(gs, k) > 0 {
        seq!["  "@ + pad_right(kind_name(k), 14) + " "@ + decimal(kind_total(gs, k))]
    } else {
        Seq::empty()
    }
}

/// One line per loser: `  lose <path>  <score>`.
pub open spec fn loser_lines(ls: Seq<FileView>) -> Seq<Seq<char>>
    decreases ls.len(),
{
    if ls.len() == 0 {
        Seq::empty()
    } else {
        loser_lines(ls.drop_last()).push(
            "  lose "@ + ls.last().path + "  "@ + describe_spec(ls.last().score),
        )
    }
}

/// The heading of a group: its kind, and its identity when it has one.
pub open spec fn group_heading(g: GroupView) -> Seq<char> {
    match g.identity {
        Some(id) => "["@ + kind_name(g.kind) + "] "@ + id.0 + " / "@ + id.1,
        None => "["@ + kind_name(g.kind) + "]"@,
    }
}

/// The lines of one group: heading, the kept file, the losers.
pub open spec fn group_lines(g: GroupView) -> Seq<Seq<char>> {
    seq![group_heading(g), "  keep "@ + g.keep.path + "  "@ + describe_spec(g.keep.score)]
        + loser_lines(g.losers)
}

/// The lines of all groups, in order.
pub open spec fn all_group_lines(gs: Seq<GroupView>) -> Seq<Seq<char>>
    decreases gs.len(),
{
    if gs.len() == 0 {
        Seq::empty()
    } else {
        all_group_lines(gs.drop_last()) + group_lines(gs.last())
    }
}

/// The dedup analysis report, line by line.
pub open spec fn dedup_report_lines(
    gs: Seq<GroupView>,
    unreadable: nat,
    scanned: nat,
    mb: Seq<char>,
) -> Seq<Seq<char>> {
    seq![dedup_header(scanned, unreadable, gs.len(), mb)] + kind_line_if(gs, GroupKind::Identical)
        + kind_line_if(gs, GroupKind::SameIdentity) + seq![Seq::<char>::empty()] + all_group_lines(gs)
        + (if gs.len() > 0 {
        seq![
            Seq::<char>::empty(),
            "run with --execute to move the losers into .dedup-trash/ (or --delete to remove them)."@,
        ]
    } else {
        Seq::empty()
    })
}

fn push_kind_line(lines: &mut Vec<String>, groups: &Vec<Group>, k: GroupKind)
    ensures
        lines_view(final(lines)@) == lines_view(old(lines)@) + kind_line_if(groups_view(groups@), k),
{
    let n = count_kind(groups, k);
    if n == 0 {
        assert(lines_view(lines@) =~= lines_view(lines@) + Seq::<Seq<char>>::empty());
        return;
    }
    let mut v = chars_of("  ");
    push_padded(&mut v, k.as_str(), 14);
    v.push(' ');
    let d = decimal_chars(n as u64);
    extend_chars(&mut v, d.as_slice());
    assert(v@ =~= "  "@ + pad_right(kind_name(k), 14) + " "@ + decimal(n as nat)) by {
        reveal_strlit(" ");
    }
    let ghost before = lines_view(lines@);
    push_line(lines, &v);
    assert(lines_view(lines@) =~= before + kind_line_if(groups_view(groups@), k));
}

fn file_line(prefix: &str, f: &FileEntry) -> (v: Vec<char>)
    ensures
        v@ == prefix@ + f.path@ + "  "@ + describe_spec(f.score),
{
    let mut v = chars_of(prefix);
    extend_str(&mut v, f.path.as_str());
    extend_str(&mut v, "  ");
    let d = describe(&f.score);
    extend_str(&mut v, d.as_str());
    v
}

fn push_group_lines(lines: &mut Vec<String>, g: &Group)
    ensures
        lines_view(final(lines)@) == lines_view(old(lines)@) + group_lines(g@),
{
    let ghost before = lines_view(lines@);
    let mut head = chars_of("[");
    extend_str(&mut head, g.kind.as_str());
    match &g.identity {
        Some((a, t)) => {
            extend_str(&mut head, "] ");
            extend_str(&mut head, a.as_str());
            extend_str(&mut head, " / ");
            extend_str(&mut head, t.as_str());
        },
        None => {
            extend_str(&mut head, "]");
        },
    }
    assert(head@ =~= group_heading(g@));
    push_line(lines, &head);
    let keep = file_line("  keep ", &g.keep);
    push_line(lines, &keep);
    let ghost top = lines_view(lines@);
    let ghost lv = files_view(g.losers@);
    let mut j: usize = 0;
    assert(lv.take(0) =~= Seq::<FileView>::empty());
    assert(top =~= top + loser_lines(lv.take(0)));
    while j < g.losers.len()
        invariant
            j <= g.losers@.len(),
            lv == files_view(g.losers@),
            lines_view(lines@) == top + loser_lines(lv.take(j as int)),
        decreases g.losers@.len() - j,
    {
        assert(lv.take(j + 1).drop_last() =~= lv.take(j as int));
        assert(lv.take(j + 1).last() == g.losers@[j as int]@);
        let l = file_line("  lose ", &g.losers[j]);
        push_line(lines, &l);
        assert(lines_view(lines@) =~= top + loser_lines(lv.take(j + 1)));
        j = j + 1;
    }
    assert(lv.take(j as int) =~= lv);
    assert(lines_view(lines@) =~= before + group_lines(g@));
}

/// The dedup analysis report, line by line: totals, groups by kind, then
/// every group with the file kept and the losers, each with its score.
/// `reclaimable_mb` is the reclaimable size in MB, already formatted.
pub fn dedup_report(groups: &Vec<Group>, unreadable: usize, scanned: usize, reclaimable_mb: &str) -> (lines:
    Vec<String>)
    ensures
        lines_view(lines@) == dedup_report_lines(
            groups_view(groups@),
            unreadable as nat,
            scanned as nat,
            reclaimable_mb@,
        ),
{
    let ghost gv = groups_view(groups@);
    let mut v = chars_of("scanned ");
    let d = decimal_chars(scanned as u64);
    extend_chars(&mut v, d.as_slice());
    extend_str(&mut v, " files (");
    if unreadable > 0 {
        let u = decimal_chars(unreadable as u64);
        extend_chars(&mut v, u.as_slice());
    } else {
        extend_str(&mut v, "no");
    }
    extend_str(&mut v, " unreadable ignored), ");
    let g = decimal_chars(groups.len() as u64);
    extend_chars(&mut v, g.as_slice());
    extend_str(&mut v, " duplicate groups, up to ");
    extend_str(&mut v, reclaimable_mb);
    extend_str(&mut v, " MB reclaimable");
    assert(v@ =~= dedup_header(scanned as nat, unreadable as nat, gv.len(), reclaimable_mb@));
    let mut lines: Vec<String> = Vec::new();
    push_line(&mut lines, &v);
    assert(lines_view(lines@) =~= seq![
        dedup_header(scanned as nat, unreadable as nat, gv.len(), reclaimable_mb@),
    ]);
    push_kind_line(&mut lines, groups, GroupKind::Identical);
    push_kind_line(&mut lines, groups, GroupKind::SameIdentity);
    let ghost mid = lines_view(lines@);
    lines.push(String::new());
    let ghost top = lines_view(lines@);
    assert(top =~= mid.push(Seq::<char>::empty()));
    assert(top =~= seq![dedup_header(scanned as nat, unreadable as nat, gv.len(), reclaimable_mb@)]
        + kind_line_if(gv, GroupKind::Identical) + kind_line_if(gv, GroupKind::SameIdentity) + seq![
        Seq::<char>::empty(),
    ]);
    let mut i: usize = 0;
    assert(gv.take(0) =~= Seq::<GroupView>::empty());
    assert(top =~= top + all_group_lines(gv.take(0)));
    while i < groups.len()
        invariant
            i <= groups@.len(),
            gv == groups_view(groups@),
            lines_view(lines@) == top + all_group_lines(gv.take(i as int)),
        decreases groups@.len() - i,
    {
        assert(gv.take(i + 1).drop_last() =~= gv.take(i as int));
        assert(gv.take(i + 1).last() == groups@[i as int]@);
        push_group_lines(&mut lines, &groups[i]);
        assert(lines_view(lines@) =~= top + all_group_lines(gv.take(i + 1)));
        i = i + 1;
    }
    assert(gv.take(i as int) =~= gv);
    let ghost body = lines_view(lines@);
    if groups.len() > 0 {
        lines.push(String::new());
        let t = chars_of(
            "run with --execute to move the losers into .dedup-trash/ (or --delete to remove them).",
        );
        push_line(&mut lines, &t);
    }
    assert(lines_view(lines@) =~= dedup_report_lines(
        gv,
        unreadable as nat,
        scanned as nat,
        reclaimable_mb@,
    ));
    lines
}

// ---------- reorg ----------

/// What a plan entry is counted as: its operation when it is ready, else
/// its status.
pub open spec fn entry_key(e: EntryView) -> Seq<char> {
    if e.status == "ready"@ {
        e.op
    } else {
        e.status
    }
}

/// The number of entries counted as `key`.
pub open spec fn key_total(es: Seq<EntryView>, key: Seq<char>) -> nat
    decreases es.len(),
{
    if es.len() == 0 {
        0
    } else {
        key_total(es.drop_last(), key) + (if entry_key(es.last()) == key {
            1nat
        } else {
            0nat
        })
    }
}

/// The count line of one key, labelled, when any entry has it.
pub open spec fn key_line_if(es: Seq<EntryView>, key: Seq<char>, label: Seq<char>) -> Seq<Seq<char>> {
    if key_total(es, key) > 0 {
        seq!["  "@ + pad_right(label, 12) + " "@ + decimal(key_total(es, key))]
    } else {
        Seq::empty()
    }
}

/// The warning about renames, when any entry would rename.
pub open spec fn rename_note_lines(n: nat) -> Seq<Seq<char>> {
    if n > 0 {
        seq![
            Seq::<char>::empty(),
            "  note: "@ + decimal(n) + " file(s) would be RENAMED. rekordbox relocates files by"@,
            "  filename, so renames are skipped unless --allow-rename (then they"@,
            "  must be relinked by hand in rekordbox)."@,
        ]
    } else {
        Seq::empty()
    }
}

/// The reorg analysis report, up to where the plan was written.
pub open spec fn reorg_report_lines(
    root: Seq<char>,
    template: Seq<char>,
    es: Seq<EntryView>,
    plan_path: Seq<char>,
) -> Seq<Seq<char>> {
    seq!["reorg analysis"@, "  root: "@ + root, "  template: "@ + template, Seq::<char>::empty()]
        + key_line_if(es, "move"@, "move"@) + key_line_if(es, "rename"@, "rename"@) + key_line_if(
        es,
        "move+rename"@,
        "move+rename"@,
    ) + key_line_if(es, "in-place"@, "in place"@) + key_line_if(es, "conflict"@, "conflict"@)
        + key_line_if(es, "untagged"@, "untagged"@) + (if es.len() == 0 {
        seq!["  (no audio files found)"@]
    } else {
        Seq::empty()
    }) + rename_note_lines(key_total(es, "rename"@) + key_total(es, "move+rename"@)) + seq![
        Seq::<char>::empty(),
        "plan written to "@ + plan_path,
    ]
}

proof fn lemma_two_keys(es: Seq<EntryView>, k1: Seq<char>, k2: Seq<char>)
    requires
        k1 != k2,
    ensures
        key_total(es, k1) + key_total(es, k2) <= es.len(),
    decreases es.len(),
{
    if es.len() > 0 {
        lemma_two_keys(es.drop_last(), k1, k2);
    }
}

fn key_count(entries: &Vec<PlanEntry>, key: &str) -> (n: usize)
    ensures
        n == key_total(entries_view(entries@), key@),
        n <= entries@.len(),
{
    let ghost all = entries_view(entries@);
    let mut n: usize = 0;
    let mut i: usize = 0;
    assert(all.take(0) =~= Seq::<EntryView>::empty());
    while i < entries.len()
        invariant
            i <= entries@.len(),
            all == entries_view(entries@),
            n == key_total(all.take(i as int), key@),
            n <= i,
        decreases entries@.len() - i,
    {
        assert(all.take(i + 1).drop_last() =~= all.take(i as int));
        assert(all.take(i + 1).last() == entries@[i as int]@);
        let e = &entries[i];
        let k: &str = if crate::text::str_equal(e.status.as_str(), "ready") {
            e.op.as_str()
        } else {
            e.status.as_str()
        };
        if crate::text::str_equal(k, key) {
            n = n + 1;
        }
        i = i + 1;
    }
    assert(all.take(i as int) =~= all);
    n
}

fn push_key_line(lines: &mut Vec<String>, entries: &Vec<PlanEntry>, key: &str, label: &str) -> (n: usize)
    ensures
        n == key_total(entries_view(entries@), key@),
        n <= entries@.len(),
        lines_view(final(lines)@) == lines_view(old(lines)@) + key_line_if(
            entries_view(entries@),
            key@,
            label@,
        ),
{
    let n = key_count(entries, key);
    if n == 0 {
        assert(lines_view(lines@) =~= lines_view(lines@) + Seq::<Seq<char>>::empty());
        return n;
    }
    let mut v = chars_of("  ");
    push_padded(&mut v, label, 12);
    v.push(' ');
    let d = decimal_chars(n as u64);
    extend_chars(&mut v, d.as_slice());
    assert(v@ =~= "  "@ + pad_right(label@, 12) + " "@ + decimal(n as nat)) by {
        reveal_strlit(" ");
    }
    let ghost before = lines_view(lines@);
    push_line(lines, &v);
    assert(lines_view(lines@) =~= before + key_line_if(entries_view(entries@), key@, label@));
    n
}

fn push_rename_note(lines: &mut Vec<String>, n: usize)
    ensures
        lines_view(final(lines)@) == lines_view(old(lines)@) + rename_note_lines(n as nat),
{
    let ghost before = lines_view(lines@);
    if n > 0 {
        push_blank(lines);
        let mut v = chars_of("  note: ");
        let d = decimal_chars(n as u64);
        extend_chars(&mut v, d.as_slice());
        extend_str(&mut v, " file(s) would be RENAMED. rekordbox relocates files by");
        let ghost l1 = v@;
        push_line(lines, &v);
        let a = text2("  filename, so renames are skipped unless --allow-rename (then they", "");
        let b = text2("  must be relinked by hand in rekordbox).", "");
        proof {
            reveal_strlit("");
        }
        let ghost l2 = a@;
        let ghost l3 = b@;
        let ghost mid = lines_view(lines@);
        lines.push(a);
        lines.push(b);
        assert(lines_view(lines@) =~= mid.push(l2).push(l3));
        assert(lines_view(lines@) =~= before + seq![Seq::<char>::empty(), l1, l2, l3]);
    } else {
        assert(lines_view(lines@) =~= before + Seq::<Seq<char>>::empty());
    }
    assert(lines_view(lines@) =~= before + rename_note_lines(n as nat));
}

/// The reorg analysis report, up to where the plan was written: header,
/// counts (ready entries by operation, the others by status), a warning
/// about renames, and where the plan went.
pub fn reorg_report(plan: &Plan, plan_path: &str) -> (lines: Vec<String>)
    ensures
        lines_view(lines@) == reorg_report_lines(
            plan.root@,
            plan.template@,
            entries_view(plan.entries@),
            plan_path@,
        ),
{
    let ghost es = entries_view(plan.entries@);
    let mut lines: Vec<String> = Vec::new();
    lines.push(text2("reorg analysis", ""));
    lines.push(text2("  root: ", plan.root.as_str()));
    lines.push(text2("  template: ", plan.template.as_str()));
    lines.push(String::new());
    proof {
        reveal_strlit("");
    }
    let ghost head = lines_view(lines@);
    assert(head =~= seq![
        "reorg analysis"@,
        "  root: "@ + plan.root@,
        "  template: "@ + plan.template@,
        Seq::<char>::empty(),
    ]);
    push_key_line(&mut lines, &plan.entries, "move", "move");
    let renames = push_key_line(&mut lines, &plan.entries, "rename", "rename");
    let both = push_key_line(&mut lines, &plan.entries, "move+rename", "move+rename");
    push_key_line(&mut lines, &plan.entries, "in-place", "in place");
    push_key_line(&mut lines, &plan.entries, "conflict", "conflict");
    push_key_line(&mut lines, &plan.entries, "untagged", "untagged");
    let ghost counted = lines_view(lines@);
    if plan.entries.len() == 0 {
        lines.push(text2("  (no audio files found)", ""));
    }
    let ghost after_empty = lines_view(lines@);
    assert(after_empty =~= counted + (if es.len() == 0 {
        seq!["  (no audio files found)"@]
    } else {
        Seq::<Seq<char>>::empty()
    }));
    proof {
        reveal_strlit("rename");
        reveal_strlit("move+rename");
        lemma_two_keys(es, "rename"@, "move+rename"@);
    }
    push_rename_note(&mut lines, renames + both);
    let ghost noted = lines_view(lines@);
    lines.push(String::new());
    lines.push(text2("plan written to ", plan_path));
    assert(lines_view(lines@) =~= noted + seq![Seq::<char>::empty(), "plan written to "@ + plan_path@]);
    assert(lines_view(lines@) =~= reorg_report_lines(plan.root@, plan.template@, es, plan_path@));
    lines
}

/// The heading of the possible duplicates, when there are any.
pub fn duplicates_heading(plan: &Plan) -> (lines: Vec<String>)
    ensures
        lines_view(lines@) == (if plan.duplicates@.len() > 0 {
            seq![Seq::<char>::empty(), "possible duplicates (same normalized artist + title):"@]
        } else {
            Seq::<Seq<char>>::empty()
        }),
{
    let mut lines: Vec<String> = Vec::new();
    if plan.duplicates.len() > 0 {
        lines.push(String::new());
        lines.push(text2("possible duplicates (same normalized artist + title):", ""));
        proof {
            reveal_strlit("");
        }
    }
    assert(lines_view(lines@) =~= (if plan.duplicates@.len() > 0 {
        seq![Seq::<char>::empty(), "possible duplicates (same normalized artist + title):"@]
    } else {
        Seq::<Seq<char>>::empty()
    }));
    lines
}

/// The line of a group of possible duplicates: `  <artist> / <title> (<n> files)`.
pub fn duplicate_group_line(g: &DupeGroup) -> (r: String)
    ensures
        r@ == "  "@ + g.artist@ + " / "@ + g.title@ + " ("@ + decimal(g.files@.len()) + " files)"@,
{
    let mut v = chars_of("  ");
    extend_str(&mut v, g.artist.as_str());
    extend_str(&mut v, " / ");
    extend_str(&mut v, g.title.as_str());
    extend_str(&mut v, " (");
    let d = decimal_chars(g.files.len() as u64);
    extend_chars(&mut v, d.as_slice());
    extend_str(&mut v, " files)");
    string_of(v.as_slice())
}

/// The line of one possibly duplicated file, without its size:
/// `    - <path>`, then ` (m:ss)` when its duration is known.
pub fn duplicate_file_line(f: &DupeFile) -> (r: String)
    ensures
        r@ == "    - "@ + f.path@ + (match f.duration_secs {
            Some(s) => " ("@ + fmt_duration(Some(s)) + ")"@,
            None => Seq::<char>::empty(),
        }),
{
    let mut v = chars_of("    - ");
    extend_str(&mut v, f.path.as_str());
    if f.duration_secs.is_some() {
        extend_str(&mut v, " (");
        let d = crate::import::duration_text(f.duration_secs);
        extend_chars(&mut v, d.as_slice());
        extend_str(&mut v, ")");
    }
    proof {
        reveal_strlit("");
    }
    string_of(v.as_slice())
}

} // verus!
