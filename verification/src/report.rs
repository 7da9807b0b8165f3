//! The exported reports: a CSV table (one row per item, for spreadsheets) and
//! a plain-text audit grouped by status, with a summary of the counts.

use vstd::prelude::*;
use vstd::string::*;
use crate::scan::{Item, Report, item_well_formed};
use crate::locale::{Strings, fr_strings, for_locale, primary_subtag, spec_en_strings, spec_fr_strings};
use crate::text::{
    count_newlines, decimal, join, lemma_count_newlines_add, lemma_count_single, lemma_line_count, lemma_no_newline_count,
    push_decimal, spec_join, spec_lines, str_eq, str_views, aligned_rows, decimal_string,
    str_ref_views, write_aligned_rows, aligned_row, aligned_rows_upto, label_width,
};

verus! {

/// The characters of `cs` with every double quote doubled.
pub open spec fn csv_escape(cs: Seq<char>) -> Seq<char>
    decreases cs.len(),
{
    if cs.len() == 0 {
        Seq::empty()
    } else {
        csv_escape(cs.drop_last()) + if cs.last() == '"' {
            seq!['"', '"']
        } else {
            seq![cs.last()]
        }
    }
}

/// A CSV field: quoted, with its quotes doubled.
pub open spec fn spec_csv_field(cs: Seq<char>) -> Seq<char> {
    seq!['"'] + csv_escape(cs) + seq!['"']
}

/// Quotes a CSV field, doubling its quotes.
pub fn csv_field(s: &str) -> (r: String)
    ensures
        r@ == spec_csv_field(s@),
{
    proof {
        reveal_strlit("\"");
        reveal_strlit("\"\"");
    }
    let n = s.unicode_len();
    let mut out = String::from_str("\"");
    let mut i: usize = 0;
    while i < n
        invariant
            n == s@.len(),
            0 <= i <= n,
            out@ == seq!['"'] + csv_escape(s@.take(i as int)),
        decreases n - i,
    {
        let c = s.get_char(i);
        let ghost before = out@;
        proof {
            reveal_strlit("\"\"");
        }
        if c == '"' {
            out.append("\"\"");
        } else {
            out.append(s.substring_char(i, i + 1));
        }
        proof {
            assert(s@.take(i + 1).drop_last() =~= s@.take(i as int));
            assert(s@.subrange(i as int, i + 1) =~= seq![c]);
            let t = s@.take(i + 1);
            assert(t.last() == c);
            assert(csv_escape(t) == csv_escape(s@.take(i as int)) + if c == '"' {
                seq!['"', '"']
            } else {
                seq![c]
            });
            assert(out@ =~= seq!['"'] + csv_escape(t));
        }
        i = i + 1;
    }
    out.append("\"");
    proof {
        assert(s@.take(n as int) =~= s@);
    }
    out
}

/// Undoes the doubling of quotes: reading left to right, each pair of double
/// quotes becomes one quote (as replacing `""` by `"` in a string does).
pub open spec fn csv_unescape(cs: Seq<char>) -> Seq<char>
    decreases cs.len(),
{
    if cs.len() == 0 {
        Seq::empty()
    } else if cs.len() >= 2 && cs[0] == '"' && cs[1] == '"' {
        seq!['"'] + csv_unescape(cs.skip(2))
    } else {
        seq![cs[0]] + csv_unescape(cs.skip(1))
    }
}

/// The text of a quoted CSV field: its enclosing quotes dropped, its doubled
/// quotes made single.
pub open spec fn spec_csv_unquote(field: Seq<char>) -> Seq<char> {
    csv_unescape(field.subrange(1, field.len() - 1))
}

/// What one character becomes in a quoted field.
pub open spec fn csv_escaped_char(c: char) -> Seq<char> {
    if c == '"' {
        seq!['"', '"']
    } else {
        seq![c]
    }
}

proof fn lemma_escape_front(x: Seq<char>)
    requires
        x.len() > 0,
    ensures
        csv_escape(x) == csv_escaped_char(x[0]) + csv_escape(x.drop_first()),
    decreases x.len(),
{
    if x.len() == 1 {
        assert(x.drop_last() =~= Seq::<char>::empty());
        assert(x.drop_first() =~= Seq::<char>::empty());
        assert(csv_escape(x) =~= csv_escaped_char(x[0]));
    } else {
        let init = x.drop_last();
        lemma_escape_front(init);
        assert(init.drop_first() =~= x.drop_first().drop_last());
        assert(x.drop_first().last() == x.last());
        assert(csv_escape(x) =~= csv_escaped_char(x[0]) + csv_escape(x.drop_first()));
    }
}

proof fn lemma_unescape_escape(x: Seq<char>)
    ensures
        csv_unescape(csv_escape(x)) == x,
    decreases x.len(),
{
    if x.len() == 0 {
        assert(csv_escape(x) =~= Seq::<char>::empty());
    } else {
        lemma_escape_front(x);
        lemma_unescape_escape(x.drop_first());
        let e = csv_escape(x);
        let rest = csv_escape(x.drop_first());
        if x[0] == '"' {
            assert(e.skip(2) =~= rest);
        } else {
            assert(e[0] == x[0]);
            assert(e.skip(1) =~= rest);
        }
        assert(csv_unescape(e) =~= x);
    }
}

/// Unquoting a quoted CSV field gives its text back: quotes are doubled, never
/// escaped with a backslash, and nothing else is changed.
pub proof fn law_csv_field_unquotes(text: Seq<char>)
    ensures
        spec_csv_unquote(spec_csv_field(text)) == text,
{
    let f = spec_csv_field(text);
    assert(f.subrange(1, f.len() - 1) =~= csv_escape(text));
    lemma_unescape_escape(text);
}

/// The text of an optional value, empty when absent.
pub open spec fn opt_text(v: Option<String>) -> Seq<char> {
    match v {
        Some(t) => t@,
        None => Seq::empty(),
    }
}

/// The header line of the CSV export: the table's header, then CRLF.
pub open spec fn csv_header_line(st: Strings) -> Seq<char> {
    st.csv_header@ + seq!['\r', '\n']
}

/// One CSV row: the eight fields of an item separated by `;`, ended by CRLF.
pub open spec fn csv_row(item: Item) -> Seq<char> {
    spec_csv_field(item.kind@) + seq![';'] + spec_csv_field(item.name@) + seq![';']
        + spec_csv_field(opt_text(item.version)) + seq![';'] + spec_csv_field(item.path@) + seq![
        ';',
    ] + spec_csv_field(item.real_path@) + seq![';'] + spec_csv_field(item.source@) + seq![';']
        + spec_csv_field(spec_join(str_views(item.archs@), ", "@)) + seq![';'] + spec_csv_field(
        item.status@,
    ) + seq!['\r', '\n']
}

pub open spec fn csv_rows(items: Seq<Item>) -> Seq<char>
    decreases items.len(),
{
    if items.len() == 0 {
        Seq::empty()
    } else {
        csv_rows(items.drop_last()) + csv_row(items.last())
    }
}

/// The CSV export in the language of `st`: a UTF-8 byte order mark, the
/// header, one row per item.
pub open spec fn spec_to_csv_in(report: Report, st: Strings) -> Seq<char> {
    seq!['\u{FEFF}'] + csv_header_line(st) + csv_rows(report.items@)
}

/// The CSV export with the French labels.
pub open spec fn spec_to_csv(report: Report) -> Seq<char> {
    spec_to_csv_in(report, spec_fr_strings())
}

fn push_csv_row(s: &mut String, item: &Item)
    ensures
        final(s)@ == old(s)@ + csv_row(*item),
{
    proof {
        reveal_strlit(";");
        reveal_strlit("\r\n");
    }
    let version: &str = match &item.version {
        Some(v) => v.as_str(),
        None => "",
    };
    proof {
        reveal_strlit("");
        assert(version@ == opt_text(item.version));
    }
    let archs = join(&item.archs, ", ");
    let ghost start = s@;
    s.append(csv_field(item.kind.as_str()).as_str());
    s.append(";");
    s.append(csv_field(item.name.as_str()).as_str());
    s.append(";");
    s.append(csv_field(version).as_str());
    s.append(";");
    s.append(csv_field(item.path.as_str()).as_str());
    s.append(";");
    s.append(csv_field(item.real_path.as_str()).as_str());
    s.append(";");
    s.append(csv_field(item.source.as_str()).as_str());
    s.append(";");
    s.append(csv_field(archs.as_str()).as_str());
    s.append(";");
    s.append(csv_field(item.status.as_str()).as_str());
    s.append("\r\n");
    proof {
        assert(s@ =~= start + csv_row(*item));
    }
}

/// The CSV export of a report, in the language of `st`.
pub fn to_csv_in(report: &Report, st: &Strings) -> (r: String)
    ensures
        r@ == spec_to_csv_in(*report, *st),
{
    proof {
        reveal_strlit("\u{FEFF}");
        reveal_strlit("\r\n");
    }
    let mut s = String::from_str("\u{FEFF}");
    s.append(st.csv_header);
    s.append("\r\n");
    let mut i: usize = 0;
    while i < report.items.len()
        invariant
            0 <= i <= report.items@.len(),
            s@ == seq!['\u{FEFF}'] + csv_header_line(*st) + csv_rows(report.items@.take(i as int)),
        decreases report.items@.len() - i,
    {
        push_csv_row(&mut s, &report.items[i]);
        proof {
            let t = report.items@.take(i + 1);
            assert(t.drop_last() =~= report.items@.take(i as int));
            assert(s@ =~= seq!['\u{FEFF}'] + csv_header_line(*st) + csv_rows(t));
        }
        i = i + 1;
    }
    proof {
        assert(report.items@.take(i as int) =~= report.items@);
    }
    s
}

/// The CSV export of a report, with the French labels.
pub fn to_csv(report: &Report) -> (r: String)
    ensures
        r@ == spec_to_csv(*report),
{
    to_csv_in(report, &fr_strings())
}

/// Whether `item` has the given kind (when one is given) and status.
pub open spec fn item_matches(item: Item, kind: Option<Seq<char>>, status: Seq<char>) -> bool {
    (kind matches Some(k) ==> item.kind@ == k) && item.status@ == status
}

/// The items that match, in report order.
pub open spec fn select(items: Seq<Item>, kind: Option<Seq<char>>, status: Seq<char>) -> Seq<Item>
    decreases items.len(),
{
    if items.len() == 0 {
        Seq::empty()
    } else {
        let prev = select(items.drop_last(), kind, status);
        if item_matches(items.last(), kind, status) {
            prev.push(items.last())
        } else {
            prev
        }
    }
}

pub open spec fn deref_items(items: Seq<&Item>) -> Seq<Item> {
    items.map_values(|r: &Item| *r)
}

pub open spec fn opt_str_view(k: Option<&str>) -> Option<Seq<char>> {
    match k {
        Some(t) => Some(t@),
        None => None,
    }
}

/// Where an item lives: its path, followed by its real path when a link
/// leads elsewhere.
pub open spec fn txt_location(item: Item) -> Seq<char> {
    if item.path@ == item.real_path@ {
        item.path@
    } else {
        item.path@ + " → "@ + item.real_path@
    }
}

pub open spec fn or_dash(t: Seq<char>) -> Seq<char> {
    if t.len() == 0 {
        "—"@
    } else {
        t
    }
}

pub open spec fn txt_version(item: Item) -> Seq<char> {
    match item.version {
        Some(v) => v@,
        None => "—"@,
    }
}

pub open spec fn txt_archs(item: Item) -> Seq<char> {
    if item.archs@.len() == 0 {
        "—"@
    } else {
        spec_join(str_views(item.archs@), ", "@)
    }
}

pub open spec fn txt_line(item: Item, st: Strings) -> Seq<char> {
    "  ["@ + item.kind@ + "] "@ + item.name@ + " ("@ + txt_version(item) + ") — "@ + txt_location(
        item,
    ) + " — "@ + st.source_label@ + ": "@ + item.source@ + " — "@ + st.archs_label@ + ": "@
        + txt_archs(item) + "\n"@
}

pub open spec fn txt_lines(items: Seq<Item>, st: Strings) -> Seq<char>
    decreases items.len(),
{
    if items.len() == 0 {
        Seq::empty()
    } else {
        txt_lines(items.drop_last(), st) + txt_line(items.last(), st)
    }
}

/// A section of the text report: its title with the number of items, then
/// one line per item (or a placeholder when there is none), then a blank line.
pub open spec fn txt_section(title: Seq<char>, items: Seq<Item>, st: Strings) -> Seq<char> {
    "--- "@ + title + " ("@ + decimal(items.len()) + ") ---\n"@ + (if items.len() == 0 {
        "  "@ + st.none_label@ + "\n"@
    } else {
        Seq::empty()
    }) + txt_lines(items, st) + "\n"@
}

/// References to the items of the given kind (when one is given) and status.
pub fn select_items<'a>(items: &'a Vec<Item>, kind: Option<&str>, status: &str) -> (r: Vec<&'a Item>)
    ensures
        deref_items(r@) == select(items@, opt_str_view(kind), status@),
{
    let mut out: Vec<&'a Item> = Vec::new();
    let mut i: usize = 0;
    while i < items.len()
        invariant
            0 <= i <= items@.len(),
            deref_items(out@) == select(items@.take(i as int), opt_str_view(kind), status@),
        decreases items@.len() - i,
    {
        let it = &items[i];
        let kind_ok = match kind {
            Some(k) => str_eq(it.kind.as_str(), k),
            None => true,
        };
        let ghost before = out@;
        if kind_ok && str_eq(it.status.as_str(), status) {
            out.push(it);
        }
        proof {
            let t = items@.take(i + 1);
            assert(t.drop_last() =~= items@.take(i as int));
            assert(t.last() == *it);
            assert(deref_items(out@) =~= select(t, opt_str_view(kind), status@));
        }
        i = i + 1;
    }
    proof {
        assert(items@.take(i as int) =~= items@);
    }
    out
}

fn push_txt_version(s: &mut String, item: &Item)
    ensures
        final(s)@ == old(s)@ + txt_version(*item),
{
    match &item.version {
        Some(v) => s.append(v.as_str()),
        None => s.append("—"),
    }
}

fn push_txt_location(s: &mut String, item: &Item)
    ensures
        final(s)@ == old(s)@ + txt_location(*item),
{
    let ghost start = s@;
    if item.path == item.real_path {
        s.append(item.path.as_str());
    } else {
        s.append(item.path.as_str());
        s.append(" → ");
        s.append(item.real_path.as_str());
        proof {
            assert(s@ =~= start + txt_location(*item));
        }
    }
}

fn push_txt_archs(s: &mut String, item: &Item)
    ensures
        final(s)@ == old(s)@ + txt_archs(*item),
{
    if item.archs.len() == 0 {
        s.append("—");
    } else {
        let archs = join(&item.archs, ", ");
        s.append(archs.as_str());
    }
}

fn push_txt_line(s: &mut String, item: &Item, st: &Strings)
    ensures
        final(s)@ == old(s)@ + txt_line(*item, *st),
{
    let ghost start = s@;
    s.append("  [");
    s.append(item.kind.as_str());
    s.append("] ");
    s.append(item.name.as_str());
    s.append(" (");
    push_txt_version(s, item);
    s.append(") — ");
    let ghost mid = s@;
    assert(mid =~= start + "  ["@ + item.kind@ + "] "@ + item.name@ + " ("@ + txt_version(*item)
        + ") — "@);
    push_txt_location(s, item);
    s.append(" — ");
    s.append(st.source_label);
    s.append(": ");
    s.append(item.source.as_str());
    s.append(" — ");
    s.append(st.archs_label);
    s.append(": ");
    push_txt_archs(s, item);
    s.append("\n");
    proof {
        assert(s@ =~= mid + txt_location(*item) + " — "@ + st.source_label@ + ": "@ + item.source@
            + " — "@ + st.archs_label@ + ": "@ + txt_archs(*item) + "\n"@);
        assert(s@ =~= start + txt_line(*item, *st));
    }
}

/// Appends a section of the text report, in the language of `st`.
pub fn write_txt_section(s: &mut String, st: &Strings, title: &str, items: &[&Item])
    ensures
        final(s)@ == old(s)@ + txt_section(title@, deref_items(items@), *st),
{
    let ghost start = s@;
    let ghost all = deref_items(items@);
    s.append("--- ");
    s.append(title);
    s.append(" (");
    push_decimal(s, items.len());
    s.append(") ---\n");
    if items.len() == 0 {
        s.append("  ");
        s.append(st.none_label);
        s.append("\n");
    }
    let ghost head = s@;
    let mut i: usize = 0;
    while i < items.len()
        invariant
            0 <= i <= items@.len(),
            all == deref_items(items@),
            s@ == head + txt_lines(all.take(i as int), *st),
        decreases items@.len() - i,
    {
        push_txt_line(s, items[i], st);
        proof {
            let t = all.take(i + 1);
            assert(t.drop_last() =~= all.take(i as int));
            assert(t.last() == *items@[i as int]);
            assert(s@ =~= head + txt_lines(t, *st));
        }
        i = i + 1;
    }
    s.append("\n");
    proof {
        assert(all.take(i as int) =~= all);
        assert(all.len() == items@.len());
        assert(s@ =~= start + txt_section(title@, all, *st));
    }
}

pub open spec fn txt_dirs(dirs: Seq<Seq<char>>) -> Seq<char>
    decreases dirs.len(),
{
    if dirs.len() == 0 {
        Seq::empty()
    } else {
        txt_dirs(dirs.drop_last()) + "  - "@ + dirs.last() + "\n"@
    }
}

pub open spec fn header_labels(st: Strings) -> Seq<Seq<char>> {
    seq![st.host_label@, st.arch_label@, st.macos_label@, st.generated_label@]
}

pub open spec fn header_values(report: Report) -> Seq<Seq<char>> {
    seq![
        report.host.hostname@,
        report.host.arch@,
        report.host.macos_version@,
        report.generated_at@,
    ]
}

pub open spec fn txt_header(report: Report, st: Strings) -> Seq<char> {
    "=== Audit Rosetta 2 / OldAppDetector ===\n\n"@ + aligned_rows(
        header_labels(st),
        header_values(report),
    ) + st.scanned_dirs_label@ + "\n"@ + txt_dirs(str_views(report.scanned_dirs@)) + "\n"@
}

pub open spec fn apps_intel(items: Seq<Item>) -> Seq<Item> {
    select(items, Some("app"@), "intel_only"@)
}

pub open spec fn execs_intel(items: Seq<Item>) -> Seq<Item> {
    select(items, Some("exec"@), "intel_only"@)
}

pub open spec fn obsolete_items(items: Seq<Item>) -> Seq<Item> {
    select(items, None, "obsolete"@)
}

pub open spec fn unknown_items(items: Seq<Item>) -> Seq<Item> {
    select(items, None, "unknown"@)
}

pub open spec fn native_items(items: Seq<Item>) -> Seq<Item> {
    select(items, None, "native"@)
}

pub open spec fn txt_sections(items: Seq<Item>, st: Strings) -> Seq<char> {
    txt_section(st.apps_intel_title@, apps_intel(items), st) + txt_section(
        st.execs_intel_title@,
        execs_intel(items),
        st,
    ) + txt_section(st.obsolete_title@, obsolete_items(items), st) + txt_section(
        st.unknown_title@,
        unknown_items(items),
        st,
    )
}

pub open spec fn summary_labels(st: Strings) -> Seq<Seq<char>> {
    seq![
        st.summary_apps_intel@,
        st.summary_execs_intel@,
        st.summary_obsolete@,
        st.summary_unknown@,
        st.summary_native@,
        st.summary_scripts_skipped@,
        st.summary_unreadable@,
    ]
}

pub open spec fn summary_values(report: Report) -> Seq<Seq<char>> {
    let items = report.items@;
    seq![
        decimal(apps_intel(items).len()),
        decimal(execs_intel(items).len()),
        decimal(obsolete_items(items).len()),
        decimal(unknown_items(items).len()),
        decimal(native_items(items).len()),
        decimal(report.scripts_skipped as nat),
        decimal(report.unreadable as nat),
    ]
}

/// The summary: its title, then one aligned row per count.
pub open spec fn txt_summary(report: Report, st: Strings) -> Seq<char> {
    st.summary_title@ + "\n"@ + aligned_rows(summary_labels(st), summary_values(report))
}

/// The text export in the language of `st`: host header, one section per
/// status needing attention, and a summary of the counts.
pub open spec fn spec_to_txt_in(report: Report, st: Strings) -> Seq<char> {
    txt_header(report, st) + txt_sections(report.items@, st) + txt_summary(report, st)
}

/// The text export with the French labels.
pub open spec fn spec_to_txt(report: Report) -> Seq<char> {
    spec_to_txt_in(report, spec_fr_strings())
}

fn push_txt_header(s: &mut String, report: &Report, st: &Strings)
    ensures
        final(s)@ == old(s)@ + txt_header(*report, *st),
{
    let ghost start = s@;
    s.append("=== Audit Rosetta 2 / OldAppDetector ===\n\n");
    let labels = vec![st.host_label, st.arch_label, st.macos_label, st.generated_label];
    let values = vec![
        report.host.hostname.clone(),
        report.host.arch.clone(),
        report.host.macos_version.clone(),
        report.generated_at.clone(),
    ];
    proof {
        assert(str_ref_views(labels@) =~= header_labels(*st));
        assert(str_views(values@) =~= header_values(*report));
    }
    write_aligned_rows(s, &labels, &values);
    s.append(st.scanned_dirs_label);
    s.append("\n");
    let ghost head = s@;
    let ghost dirs = str_views(report.scanned_dirs@);
    let mut i: usize = 0;
    while i < report.scanned_dirs.len()
        invariant
            0 <= i <= report.scanned_dirs@.len(),
            dirs == str_views(report.scanned_dirs@),
            s@ == head + txt_dirs(dirs.take(i as int)),
        decreases report.scanned_dirs@.len() - i,
    {
        s.append("  - ");
        s.append(report.scanned_dirs[i].as_str());
        s.append("\n");
        proof {
            let t = dirs.take(i + 1);
            assert(t.drop_last() =~= dirs.take(i as int));
            assert(s@ =~= head + txt_dirs(t));
        }
        i = i + 1;
    }
    s.append("\n");
    proof {
        assert(dirs.take(i as int) =~= dirs);
        assert(s@ =~= start + txt_header(*report, *st));
    }
}

fn push_txt_summary(
    s: &mut String,
    report: &Report,
    st: &Strings,
    apps: usize,
    execs: usize,
    obsolete: usize,
    unknown: usize,
    native: usize,
)
    requires
        apps == apps_intel(report.items@).len(),
        execs == execs_intel(report.items@).len(),
        obsolete == obsolete_items(report.items@).len(),
        unknown == unknown_items(report.items@).len(),
        native == native_items(report.items@).len(),
    ensures
        final(s)@ == old(s)@ + txt_summary(*report, *st),
{
    let ghost start = s@;
    s.append(st.summary_title);
    s.append("\n");
    let labels = vec![
        st.summary_apps_intel,
        st.summary_execs_intel,
        st.summary_obsolete,
        st.summary_unknown,
        st.summary_native,
        st.summary_scripts_skipped,
        st.summary_unreadable,
    ];
    let values = vec![
        decimal_string(apps),
        decimal_string(execs),
        decimal_string(obsolete),
        decimal_string(unknown),
        decimal_string(native),
        decimal_string(report.scripts_skipped),
        decimal_string(report.unreadable),
    ];
    proof {
        assert(str_ref_views(labels@) =~= summary_labels(*st));
        assert(str_views(values@) =~= summary_values(*report));
    }
    write_aligned_rows(s, &labels, &values);
    proof {
        assert(s@ =~= start + txt_summary(*report, *st));
    }
}

fn push_txt_sections(s: &mut String, items: &Vec<Item>, st: &Strings) -> (counts: (
    usize,
    usize,
    usize,
    usize,
))
    ensures
        final(s)@ == old(s)@ + txt_sections(items@, *st),
        counts.0 == apps_intel(items@).len(),
        counts.1 == execs_intel(items@).len(),
        counts.2 == obsolete_items(items@).len(),
        counts.3 == unknown_items(items@).len(),
{
    let ghost start = s@;
    let apps = select_items(items, Some("app"), "intel_only");
    let execs = select_items(items, Some("exec"), "intel_only");
    let obsolete = select_items(items, None, "obsolete");
    let unknown = select_items(items, None, "unknown");
    proof {
        assert(apps@.len() == deref_items(apps@).len());
        assert(execs@.len() == deref_items(execs@).len());
        assert(obsolete@.len() == deref_items(obsolete@).len());
        assert(unknown@.len() == deref_items(unknown@).len());
    }
    write_txt_section(s, st, st.apps_intel_title, apps.as_slice());
    write_txt_section(s, st, st.execs_intel_title, execs.as_slice());
    write_txt_section(s, st, st.obsolete_title, obsolete.as_slice());
    write_txt_section(s, st, st.unknown_title, unknown.as_slice());
    proof {
        assert(s@ =~= start + txt_sections(items@, *st));
    }
    (apps.len(), execs.len(), obsolete.len(), unknown.len())
}

/// The plain-text export of a report, in the language of `st`.
pub fn to_txt_in(report: &Report, st: &Strings) -> (r: String)
    ensures
        r@ == spec_to_txt_in(*report, *st),
{
    let mut s = String::new();
    push_txt_header(&mut s, report, st);
    let ghost after_header = s@;
    let (apps, execs, obsolete, unknown) = push_txt_sections(&mut s, &report.items, st);
    let native = select_items(&report.items, None, "native");
    proof {
        assert(native@.len() == deref_items(native@).len());
    }
    push_txt_summary(&mut s, report, st, apps, execs, obsolete, unknown, native.len());
    proof {
        assert(s@ =~= after_header + txt_sections(report.items@, *st) + txt_summary(*report, *st));
        assert(s@ =~= spec_to_txt_in(*report, *st));
    }
    s
}

/// The plain-text export of a report, with the French labels.
pub fn to_txt(report: &Report) -> (r: String)
    ensures
        r@ == spec_to_txt(*report),
{
    to_txt_in(report, &fr_strings())
}

/// What an export request produces, in the language of the locale: the file
/// extension and the content for a known format, the message shown to the
/// user for any other.
pub open spec fn export_ok(
    format: Seq<char>,
    report: Report,
    st: Strings,
    r: Result<(String, String), String>,
) -> bool {
    if format == "csv"@ {
        r matches Ok((ext, content)) && ext@ == "csv"@ && content@ == spec_to_csv_in(report, st)
    } else if format == "txt"@ {
        r matches Ok((ext, content)) && ext@ == "txt"@ && content@ == spec_to_txt_in(report, st)
    } else {
        r matches Err(e) && e@ == st.unknown_format_error@ + " : "@ + format
    }
}

/// The labels of a locale: French for a "fr" locale, English for any other.
pub open spec fn locale_strings(locale: Seq<char>) -> Strings {
    if primary_subtag(locale) == "fr"@ {
        spec_fr_strings()
    } else {
        spec_en_strings()
    }
}

/// The extension and content of an export in the language of `locale`, or
/// the message for an unknown format.
pub fn export_content(format: &str, report: &Report, locale: &str) -> (r: Result<(String, String), String>)
    ensures
        export_ok(format@, *report, locale_strings(locale@), r),
{
    let st = for_locale(locale);
    if str_eq(format, "csv") {
        Ok((String::from_str("csv"), to_csv_in(report, &st)))
    } else if str_eq(format, "txt") {
        Ok((String::from_str("txt"), to_txt_in(report, &st)))
    } else {
        let mut e = String::from_str(st.unknown_format_error);
        e.append(" : ");
        e.append(format);
        Err(e)
    }
}

/// The file name offered when saving a report.
pub fn export_file_name(hostname: &str, ext: &str) -> (r: String)
    ensures
        r@ == "audit-rosetta-"@ + hostname@ + "."@ + ext@,
{
    let mut s = String::from_str("audit-rosetta-");
    s.append(hostname);
    s.append(".");
    s.append(ext);
    s
}

/// No text of the item spans more than one line.
pub open spec fn item_single_line(item: Item) -> bool {
    &&& !item.kind@.contains('\n')
    &&& !item.name@.contains('\n')
    &&& !opt_text(item.version).contains('\n')
    &&& !item.path@.contains('\n')
    &&& !item.real_path@.contains('\n')
    &&& !item.source@.contains('\n')
    &&& forall|i: int| 0 <= i < item.archs@.len() ==> !(#[trigger] item.archs@[i])@.contains('\n')
    &&& !item.status@.contains('\n')
}

proof fn lemma_escape_newlines(x: Seq<char>)
    ensures
        count_newlines(csv_escape(x)) == count_newlines(x),
    decreases x.len(),
{
    broadcast use lemma_count_newlines_add;

    if x.len() > 0 {
        lemma_escape_newlines(x.drop_last());
        lemma_count_single('"');
        lemma_count_single(x.last());
        assert(seq!['"', '"'] =~= seq!['"'] + seq!['"']);
    }
}

proof fn lemma_field_newlines(x: Seq<char>)
    requires
        !x.contains('\n'),
    ensures
        count_newlines(spec_csv_field(x)) == 0,
{
    broadcast use lemma_count_newlines_add;

    lemma_escape_newlines(x);
    lemma_no_newline_count(x);
    lemma_count_single('"');
}

proof fn lemma_join_newlines(parts: Seq<Seq<char>>, sep: Seq<char>)
    requires
        count_newlines(sep) == 0,
        forall|i: int| 0 <= i < parts.len() ==> !(#[trigger] parts[i]).contains('\n'),
    ensures
        count_newlines(spec_join(parts, sep)) == 0,
    decreases parts.len(),
{
    broadcast use lemma_count_newlines_add;

    if parts.len() == 1 {
        lemma_no_newline_count(parts[0]);
    } else if parts.len() > 1 {
        lemma_join_newlines(parts.drop_last(), sep);
        lemma_no_newline_count(parts.last());
    }
}

proof fn lemma_row_newlines(item: Item)
    requires
        item_single_line(item),
    ensures
        count_newlines(csv_row(item)) == 1,
        csv_row(item).last() == '\n',
{
    broadcast use lemma_count_newlines_add;

    reveal_strlit(", ");
    let views = str_views(item.archs@);
    assert(count_newlines(", "@) == 0) by {
        lemma_no_newline_count(", "@);
    }
    assert forall|i: int| 0 <= i < views.len() implies !(#[trigger] views[i]).contains('\n') by {
        assert(views[i] == item.archs@[i]@);
    }
    lemma_join_newlines(views, ", "@);
    let archs = spec_join(views, ", "@);
    assert(!archs.contains('\n')) by {
        if archs.contains('\n') {
            let k = choose|k: int| 0 <= k < archs.len() && archs[k] == '\n';
            lemma_split_count(archs, k);
        }
    }
    lemma_field_newlines(item.kind@);
    lemma_field_newlines(item.name@);
    lemma_field_newlines(opt_text(item.version));
    lemma_field_newlines(item.path@);
    lemma_field_newlines(item.real_path@);
    lemma_field_newlines(item.source@);
    lemma_field_newlines(archs);
    lemma_field_newlines(item.status@);
    lemma_count_single(';');
    lemma_count_single('\r');
    lemma_count_single('\n');
    assert(seq!['\r', '\n'] =~= seq!['\r'] + seq!['\n']);
}

proof fn lemma_split_count(s: Seq<char>, k: int)
    requires
        0 <= k < s.len(),
        s[k] == '\n',
    ensures
        count_newlines(s) > 0,
    decreases s.len(),
{
    if k < s.len() - 1 {
        lemma_split_count(s.drop_last(), k);
    }
}

proof fn lemma_rows_newlines(items: Seq<Item>)
    requires
        forall|i: int| 0 <= i < items.len() ==> item_single_line(#[trigger] items[i]),
    ensures
        count_newlines(csv_rows(items)) == items.len(),
        items.len() > 0 ==> csv_rows(items).last() == '\n',
    decreases items.len(),
{
    broadcast use lemma_count_newlines_add;

    if items.len() > 0 {
        lemma_rows_newlines(items.drop_last());
        lemma_row_newlines(items.last());
    }
}

/// The CSV export has one line for the header and one per item, as long as
/// neither the header nor any text of an item spans several lines.
pub proof fn law_csv_one_line_per_item(report: Report, st: Strings)
    requires
        !st.csv_header@.contains('\n'),
        forall|i: int| 0 <= i < report.items@.len() ==> item_single_line(#[trigger] report.items@[i]),
    ensures
        spec_lines(spec_to_csv_in(report, st)).len() == report.items@.len() + 1,
{
    broadcast use lemma_count_newlines_add;

    let doc = spec_to_csv_in(report, st);
    lemma_rows_newlines(report.items@);
    lemma_line_count(doc);
    let h = csv_header_line(st);
    lemma_no_newline_count(st.csv_header@);
    lemma_count_single('\r');
    lemma_count_single('\n');
    assert(seq!['\r', '\n'] =~= seq!['\r'] + seq!['\n']);
    lemma_count_single('\u{FEFF}');
    if report.items@.len() == 0 {
        assert(doc =~= seq!['\u{FEFF}'] + h);
    }
}

/// Every item of a scan is counted in exactly one line of the text summary:
/// Intel-only apps, Intel-only executables, obsolete, unknown or native.
pub proof fn law_txt_summary_counts_every_item(items: Seq<Item>)
    requires
        forall|i: int| 0 <= i < items.len() ==> item_well_formed(#[trigger] items[i]),
    ensures
        apps_intel(items).len() + execs_intel(items).len() + obsolete_items(items).len()
            + unknown_items(items).len() + native_items(items).len() == items.len(),
    decreases items.len(),
{
    reveal_strlit("app");
    reveal_strlit("exec");
    reveal_strlit("native");
    reveal_strlit("intel_only");
    reveal_strlit("obsolete");
    reveal_strlit("unknown");
    if items.len() > 0 {
        let prev = items.drop_last();
        assert forall|i: int| 0 <= i < prev.len() implies item_well_formed(#[trigger] prev[i]) by {
            assert(prev[i] == items[i]);
        }
        law_txt_summary_counts_every_item(prev);
        let it = items.last();
        assert(item_well_formed(it));
        assert("app"@.len() != "exec"@.len());
        assert("native"@.len() != "intel_only"@.len());
        assert("native"@.len() != "obsolete"@.len());
        assert("native"@.len() != "unknown"@.len());
        assert("intel_only"@.len() != "obsolete"@.len());
        assert("intel_only"@.len() != "unknown"@.len());
        assert("obsolete"@.len() != "unknown"@.len());
        if it.status@ == "intel_only"@ {
            if it.kind@ == "app"@ {
                assert(apps_intel(items).len() == apps_intel(prev).len() + 1);
            } else {
                assert(execs_intel(items).len() == execs_intel(prev).len() + 1);
            }
        }
    }
}


proof fn lemma_select_filter(items: Seq<Item>, kind: Option<Seq<char>>, status: Seq<char>, pred: spec_fn(Item) -> bool)
    requires
        forall|it: Item| #[trigger] pred(it) == item_matches(it, kind, status),
    ensures
        select(items, kind, status) == items.filter(pred),
    decreases items.len(),
{
    reveal(Seq::filter);
    if items.len() > 0 {
        lemma_select_filter(items.drop_last(), kind, status, pred);
    }
}

/// Whether an item has the given status.
pub open spec fn has_status(status: Seq<char>) -> spec_fn(Item) -> bool {
    |i: Item| i.status@ == status
}

/// Whether an item has the given kind and status.
pub open spec fn has_kind_status(kind: Seq<char>, status: Seq<char>) -> spec_fn(Item) -> bool {
    |i: Item| i.kind@ == kind && i.status@ == status
}

/// The summary of the text export, row by row: each row shows the number of
/// items its own label speaks of (Intel-only apps, Intel-only executables,
/// obsolete, unknown and native items), then the scripts skipped and the
/// files that could not be read; every label is padded to the longest one.
pub proof fn law_txt_summary_rows(report: Report, st: Strings)
    ensures
        ({
            let items = report.items@;
            let w = label_width(
                seq![
                    st.summary_apps_intel@,
                    st.summary_execs_intel@,
                    st.summary_obsolete@,
                    st.summary_unknown@,
                    st.summary_native@,
                    st.summary_scripts_skipped@,
                    st.summary_unreadable@,
                ],
            );
            let summary = st.summary_title@ + "\n"@ + (aligned_row(
                st.summary_apps_intel@,
                decimal(items.filter(has_kind_status("app"@, "intel_only"@)).len()),
                w,
            ) + aligned_row(
                st.summary_execs_intel@,
                decimal(items.filter(has_kind_status("exec"@, "intel_only"@)).len()),
                w,
            ) + aligned_row(st.summary_obsolete@, decimal(items.filter(has_status("obsolete"@)).len()), w)
                + aligned_row(st.summary_unknown@, decimal(items.filter(has_status("unknown"@)).len()), w)
                + aligned_row(st.summary_native@, decimal(items.filter(has_status("native"@)).len()), w)
                + aligned_row(st.summary_scripts_skipped@, decimal(report.scripts_skipped as nat), w)
                + aligned_row(st.summary_unreadable@, decimal(report.unreadable as nat), w));
            &&& txt_summary(report, st) == summary
            &&& spec_to_txt_in(report, st) == txt_header(report, st) + txt_sections(items, st) + summary
        }),
{
    let items = report.items@;
    lemma_select_filter(items, Some("app"@), "intel_only"@, has_kind_status("app"@, "intel_only"@));
    lemma_select_filter(items, Some("exec"@), "intel_only"@, has_kind_status("exec"@, "intel_only"@));
    lemma_select_filter(items, None, "obsolete"@, has_status("obsolete"@));
    lemma_select_filter(items, None, "unknown"@, has_status("unknown"@));
    lemma_select_filter(items, None, "native"@, has_status("native"@));
    let labels = summary_labels(st);
    let values = summary_values(report);
    let w = label_width(labels);
    assert(aligned_rows_upto(labels, values, w, 1) =~= aligned_row(labels[0], values[0], w)) by {
        assert(aligned_rows_upto(labels, values, w, 0) == Seq::<char>::empty());
    }
    assert(aligned_rows_upto(labels, values, w, 2) == aligned_rows_upto(labels, values, w, 1)
        + aligned_row(labels[1], values[1], w));
    assert(aligned_rows_upto(labels, values, w, 3) == aligned_rows_upto(labels, values, w, 2)
        + aligned_row(labels[2], values[2], w));
    assert(aligned_rows_upto(labels, values, w, 4) == aligned_rows_upto(labels, values, w, 3)
        + aligned_row(labels[3], values[3], w));
    assert(aligned_rows_upto(labels, values, w, 5) == aligned_rows_upto(labels, values, w, 4)
        + aligned_row(labels[4], values[4], w));
    assert(aligned_rows_upto(labels, values, w, 6) == aligned_rows_upto(labels, values, w, 5)
        + aligned_row(labels[5], values[5], w));
    assert(aligned_rows_upto(labels, values, w, 7) == aligned_rows_upto(labels, values, w, 6)
        + aligned_row(labels[6], values[6], w));
}

/// The sections of the text export, in order: Intel-only apps, Intel-only
/// executables, obsolete items, unknown items, each listing exactly the items
/// of that kind and status, in report order.
pub proof fn law_txt_sections_by_status(items: Seq<Item>, st: Strings)
    ensures
        txt_sections(items, st) == txt_section(
            st.apps_intel_title@,
            items.filter(has_kind_status("app"@, "intel_only"@)),
            st,
        ) + txt_section(st.execs_intel_title@, items.filter(has_kind_status("exec"@, "intel_only"@)), st)
            + txt_section(st.obsolete_title@, items.filter(has_status("obsolete"@)), st) + txt_section(
            st.unknown_title@,
            items.filter(has_status("unknown"@)),
            st,
        ),
{
    lemma_select_filter(items, Some("app"@), "intel_only"@, has_kind_status("app"@, "intel_only"@));
    lemma_select_filter(items, Some("exec"@), "intel_only"@, has_kind_status("exec"@, "intel_only"@));
    lemma_select_filter(items, None, "obsolete"@, has_status("obsolete"@));
    lemma_select_filter(items, None, "unknown"@, has_status("unknown"@));
}

} // verus!
