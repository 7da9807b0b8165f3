//! The data of a scan (host, options, items, report) and the decisions taken
//! while walking the scanned sources: deduplication by canonical path, counting of
//! skipped scripts and unreadable files, and the ordering of the report.

use vstd::prelude::*;
use vstd::string::*;
use vstd::multiset::Multiset;
use crate::macho::{Arch, classify, spec_classify, spec_label, spec_status_str};
use crate::text::{
    lemma_lex_irreflexive, lemma_lex_total, lemma_lex_transitive, lex_less, lex_lt, spec_trim,
    starts_with, str_eq, str_views, trim,
};

verus! {

#[derive(Debug, Clone)]
pub struct HostInfo {
    pub hostname: String,
    pub arch: String,
    pub macos_version: String,
    pub app_version: String,
}

#[derive(Debug, Clone)]
pub struct ScanOptions {
    pub apps: bool,
    pub spotlight: bool,
    pub path: bool,
    pub homebrew: bool,
    pub macports: bool,
    pub extra_dirs: Vec<String>,
}

#[derive(Debug, Clone)]
pub struct Item {
    /// "app" or "exec".
    pub kind: String,
    pub name: String,
    pub version: Option<String>,
    pub path: String,
    pub real_path: String,
    pub source: String,
    pub archs: Vec<String>,
    /// "native", "intel_only", "obsolete" or "unknown".
    pub status: String,
}

#[derive(Debug, Clone)]
pub struct Report {
    pub host: HostInfo,
    pub generated_at: String,
    pub scanned_dirs: Vec<String>,
    pub items: Vec<Item>,
    pub scripts_skipped: usize,
    pub unreadable: usize,
}

/// "0.1.0" becomes "0.1": one trailing ".0" is dropped; anything else is kept.
pub open spec fn spec_short_version(v: Seq<char>) -> Seq<char> {
    if v.len() >= 2 && v[v.len() - 2] == '.' && v[v.len() - 1] == '0' {
        v.take(v.len() - 2)
    } else {
        v
    }
}

pub fn short_version(v: &str) -> (r: String)
    ensures
        r@ == spec_short_version(v@),
{
    let n = v.unicode_len();
    if n >= 2 && v.get_char(n - 2) == '.' && v.get_char(n - 1) == '0' {
        String::from_str(v.substring_char(0, n - 2))
    } else {
        String::from_str(v)
    }
}

/// Order of the statuses in a report: Intel-only first, native last.
pub open spec fn spec_status_rank(status: Seq<char>) -> u8 {
    if status == "intel_only"@ {
        0
    } else if status == "obsolete"@ {
        1
    } else if status == "unknown"@ {
        2
    } else {
        3
    }
}

pub fn status_rank(status: &str) -> (r: u8)
    ensures
        r == spec_status_rank(status@),
{
    if str_eq(status, "intel_only") {
        0
    } else if str_eq(status, "obsolete") {
        1
    } else if str_eq(status, "unknown") {
        2
    } else {
        3
    }
}

pub open spec fn opt_or(v: Option<String>, default: Seq<char>) -> Seq<char> {
    match v {
        Some(t) => t@,
        None => default,
    }
}

/// The Apple name of the host architecture: Rust's "aarch64" is "arm64".
pub open spec fn spec_host_arch(arch: Seq<char>) -> Seq<char> {
    if arch == "aarch64"@ {
        "arm64"@
    } else {
        arch
    }
}

/// The host description, from what the system reported: the host name and
/// macOS version when the commands succeeded, the compile-time architecture
/// and package version.
pub fn host_info_from(
    hostname: Option<String>,
    arch: &str,
    macos_version: Option<String>,
    package_version: &str,
) -> (r: HostInfo)
    ensures
        r.hostname@ == opt_or(hostname, "inconnu"@),
        r.arch@ == spec_host_arch(arch@),
        r.macos_version@ == opt_or(macos_version, "inconnue"@),
        r.app_version@ == spec_short_version(package_version@),
{
    let hostname = match hostname {
        Some(h) => h,
        None => String::from_str("inconnu"),
    };
    let arch = if str_eq(arch, "aarch64") {
        String::from_str("arm64")
    } else {
        String::from_str(arch)
    };
    let macos_version = match macos_version {
        Some(m) => m,
        None => String::from_str("inconnue"),
    };
    HostInfo { hostname, arch, macos_version, app_version: short_version(package_version) }
}

/// An extra folder as typed by the user: trimmed, with a leading "~/"
/// replaced by the home folder; `None` when nothing is left.
pub open spec fn spec_expand_dir(raw: Seq<char>, home: Seq<char>) -> Option<Seq<char>> {
    let t = spec_trim(raw);
    if t.len() == 0 {
        None
    } else if t.len() >= 2 && t[0] == '~' && t[1] == '/' {
        Some(home + seq!['/'] + t.skip(2))
    } else {
        Some(t)
    }
}

pub fn expand_extra_dir(raw: &str, home: &str) -> (r: Option<String>)
    ensures
        match r {
            Some(d) => spec_expand_dir(raw@, home@) == Some(d@),
            None => spec_expand_dir(raw@, home@) is None,
        },
{
    proof {
        reveal_strlit("~/");
        reveal_strlit("/");
    }
    let t = trim(raw);
    let n = t.unicode_len();
    if n == 0 {
        return None;
    }
    if starts_with(t, "~/") {
        let mut d = String::from_str(home);
        d.append("/");
        d.append(t.substring_char(2, n));
        proof {
            assert(t@.take(2)[0] == '~' && t@.take(2)[1] == '/');
            assert(t@.subrange(2, n as int) =~= t@.skip(2));
        }
        Some(d)
    } else {
        proof {
            if t@.len() >= 2 && t@[0] == '~' && t@[1] == '/' {
                assert(t@.take(2) =~= "~/"@);
            }
        }
        Some(String::from_str(t))
    }
}

/// What reading the first bytes of an executable gave.
pub enum HeaderRead {
    /// The file could not be opened or read.
    Unreadable,
    /// Read, but not a Mach-O binary we recognise (a script, a short file...).
    NotMachO,
    /// The architectures found in the header.
    Archs(Vec<Arch>),
}

/// What was found where a bundle's executable should be.
pub enum ExeProbe {
    /// No such file: a bundle without an executable of its own.
    Missing,
    Present(HeaderRead),
}

/// The keys of a bundle's Info.plist that a scan reads.
#[derive(Debug, Clone)]
pub struct InfoPlist {
    pub executable: Option<String>,
    pub version: Option<String>,
    pub name: Option<String>,
    pub display_name: Option<String>,
}

impl InfoPlist {
    pub fn empty() -> (r: InfoPlist)
        ensures
            r.executable is None,
            r.version is None,
            r.name is None,
            r.display_name is None,
    {
        InfoPlist { executable: None, version: None, name: None, display_name: None }
    }
}

pub open spec fn opt_str_or(v: Option<&str>, default: Seq<char>) -> Seq<char> {
    match v {
        Some(t) => t@,
        None => default,
    }
}

/// The name of the executable of a bundle: the one Info.plist names, else
/// the bundle's own name.
pub open spec fn spec_exe_name(info: InfoPlist, bundle_stem: Option<&str>) -> Seq<char> {
    match info.executable {
        Some(e) => e@,
        None => opt_str_or(bundle_stem, "?"@),
    }
}

/// The name shown for a bundle: its display name, else its name, else the
/// bundle's own name.
pub open spec fn spec_app_name(info: InfoPlist, bundle_stem: Option<&str>) -> Seq<char> {
    match info.display_name {
        Some(d) => d@,
        None => match info.name {
            Some(n) => n@,
            None => opt_str_or(bundle_stem, "?"@),
        },
    }
}

/// When Info.plist names an executable, that is the bundle's executable,
/// whatever the bundle's own name; only when it names none is the bundle's
/// own name taken, and "?" when the bundle has no readable name either.
pub proof fn law_exe_name_from_info_plist(info: InfoPlist, bundle_stem: Option<&str>, other_stem: Option<&str>)
    ensures
        info.executable matches Some(e) ==> spec_exe_name(info, bundle_stem) == e@ && spec_exe_name(
            info,
            other_stem,
        ) == e@,
        info.executable is None ==> (bundle_stem matches Some(b) ==> spec_exe_name(info, bundle_stem)
            == b@),
        info.executable is None && bundle_stem is None ==> spec_exe_name(info, bundle_stem) == "?"@,
{
}

/// The name shown for a bundle is its display name when Info.plist has one,
/// whether or not it also has a bundle name; else the bundle name; else the
/// bundle's own name, and "?" when there is none of them.
pub proof fn law_app_name_prefers_display_name(info: InfoPlist, bundle_stem: Option<&str>)
    ensures
        info.display_name matches Some(d) ==> spec_app_name(info, bundle_stem) == d@,
        info.display_name is None ==> (info.name matches Some(n) ==> spec_app_name(info, bundle_stem)
            == n@),
        info.display_name is None && info.name is None ==> (bundle_stem matches Some(b)
            ==> spec_app_name(info, bundle_stem) == b@),
        info.display_name is None && info.name is None && bundle_stem is None ==> spec_app_name(
            info,
            bundle_stem,
        ) == "?"@,
{
}

pub open spec fn spec_labels(archs: Seq<Arch>) -> Seq<Seq<char>> {
    archs.map_values(|a: Arch| spec_label(a))
}

fn copy_str_or(v: Option<&str>, default: &str) -> (r: String)
    ensures
        r@ == opt_str_or(v, default@),
{
    match v {
        Some(t) => String::from_str(t),
        None => String::from_str(default),
    }
}

fn copy_opt(v: &Option<String>) -> (r: Option<String>)
    ensures
        r == *v,
{
    match v {
        Some(t) => Some(t.clone()),
        None => None,
    }
}

pub fn app_executable_name(info: &InfoPlist, bundle_stem: Option<&str>) -> (r: String)
    ensures
        r@ == spec_exe_name(*info, bundle_stem),
{
    match &info.executable {
        Some(e) => e.clone(),
        None => copy_str_or(bundle_stem, "?"),
    }
}

fn app_display_name(info: &InfoPlist, bundle_stem: Option<&str>) -> (r: String)
    ensures
        r@ == spec_app_name(*info, bundle_stem),
{
    match &info.display_name {
        Some(d) => d.clone(),
        None => match &info.name {
            Some(n) => n.clone(),
            None => copy_str_or(bundle_stem, "?"),
        },
    }
}

pub fn arch_labels(archs: &Vec<Arch>) -> (r: Vec<String>)
    ensures
        str_views(r@) == spec_labels(archs@),
{
    let mut out: Vec<String> = Vec::new();
    let mut i: usize = 0;
    while i < archs.len()
        invariant
            0 <= i <= archs@.len(),
            str_views(out@) == spec_labels(archs@.take(i as int)),
        decreases archs@.len() - i,
    {
        let ghost prev = str_views(out@);
        let label = String::from_str(archs[i].label());
        out.push(label);
        proof {
            assert(str_views(out@) =~= prev.push(spec_label(archs@[i as int])));
            assert(archs@.take(i + 1) =~= archs@.take(i as int).push(archs@[i as int]));
            assert(str_views(out@) =~= spec_labels(archs@.take(i + 1)));
        }
        i = i + 1;
    }
    proof {
        assert(archs@.take(i as int) =~= archs@);
    }
    out
}

/// The fields an item takes from a file found on a scanned source.
pub open spec fn item_from(
    item: Item,
    kind: Seq<char>,
    name: Seq<char>,
    version: Option<String>,
    path: Seq<char>,
    canonical: Seq<char>,
    source: Seq<char>,
    archs: Seq<Seq<char>>,
    status: Seq<char>,
) -> bool {
    &&& item.kind@ == kind
    &&& item.name@ == name
    &&& item.version == version
    &&& item.path@ == path
    &&& item.real_path@ == canonical
    &&& item.source@ == source
    &&& str_views(item.archs@) == archs
    &&& item.status@ == status
}

pub open spec fn is_arch_label(l: Seq<char>) -> bool {
    l == "arm64"@ || l == "x86_64"@ || l == "i386"@ || l == "arm"@ || l == "ppc"@
}

/// The status that architecture labels give: native with arm64, Intel-only
/// with x86_64 but not arm64, obsolete otherwise.
pub open spec fn status_of_labels(labels: Seq<Seq<char>>) -> Seq<char> {
    if labels.contains("arm64"@) {
        "native"@
    } else if labels.contains("x86_64"@) {
        "intel_only"@
    } else {
        "obsolete"@
    }
}

/// An item as a scan makes them: of kind "app" or "exec", of one of the four
/// statuses; "unknown" exactly when no architecture was read (which never
/// happens to an executable, nor does a version); known architecture labels
/// only, and a status that follows from them.
pub open spec fn item_well_formed(item: Item) -> bool {
    &&& (item.kind@ == "app"@ || item.kind@ == "exec"@)
    &&& (item.status@ == "native"@ || item.status@ == "intel_only"@ || item.status@ == "obsolete"@
        || item.status@ == "unknown"@)
    &&& (item.status@ == "unknown"@ <==> item.archs@.len() == 0)
    &&& (item.kind@ == "exec"@ ==> item.status@ != "unknown"@ && item.version is None)
    &&& forall|i: int| 0 <= i < item.archs@.len() ==> is_arch_label(#[trigger] item.archs@[i]@)
    &&& (item.archs@.len() > 0 ==> item.status@ == status_of_labels(str_views(item.archs@)))
}

/// The architectures and status of an item agree: "unknown" exactly when
/// there is no architecture, otherwise known labels and their status.
pub open spec fn archs_status_ok(archs: Seq<String>, status: Seq<char>) -> bool {
    &&& (status == "native"@ || status == "intel_only"@ || status == "obsolete"@ || status
        == "unknown"@)
    &&& (status == "unknown"@ <==> archs.len() == 0)
    &&& forall|i: int| 0 <= i < archs.len() ==> is_arch_label(#[trigger] archs[i]@)
    &&& (archs.len() > 0 ==> status == status_of_labels(str_views(archs)))
}

/// The labels of read architectures are known labels, and their status is
/// the classification of the architectures.
pub proof fn lemma_labels_classify(archs: Seq<Arch>)
    ensures
        forall|i: int| 0 <= i < archs.len() ==> is_arch_label(#[trigger] spec_labels(archs)[i]),
        spec_labels(archs).len() == archs.len(),
        status_of_labels(spec_labels(archs)) == spec_status_str(spec_classify(archs)),
        spec_status_str(spec_classify(archs)) != "unknown"@,
{
    reveal_strlit("arm64");
    reveal_strlit("x86_64");
    reveal_strlit("i386");
    reveal_strlit("arm");
    reveal_strlit("ppc");
    reveal_strlit("native");
    reveal_strlit("intel_only");
    reveal_strlit("obsolete");
    reveal_strlit("unknown");
    let ls = spec_labels(archs);
    assert forall|a: Arch| spec_label(a) == "arm64"@ implies a == Arch::Arm64 by {
        if a != Arch::Arm64 {
            assert(spec_label(a)[1] != "arm64"@[1] || spec_label(a).len() != 5);
        }
    }
    assert forall|a: Arch| spec_label(a) == "x86_64"@ implies a == Arch::X86_64 by {
        if a != Arch::X86_64 {
            assert(spec_label(a).len() != 6);
        }
    }
    assert(ls.contains("arm64"@) == archs.contains(Arch::Arm64)) by {
        if archs.contains(Arch::Arm64) {
            let k = choose|k: int| 0 <= k < archs.len() && archs[k] == Arch::Arm64;
            assert(ls[k] == "arm64"@);
        }
        if ls.contains("arm64"@) {
            let k = choose|k: int| 0 <= k < ls.len() && ls[k] == "arm64"@;
            assert(archs[k] == Arch::Arm64);
        }
    }
    assert(ls.contains("x86_64"@) == archs.contains(Arch::X86_64)) by {
        if archs.contains(Arch::X86_64) {
            let k = choose|k: int| 0 <= k < archs.len() && archs[k] == Arch::X86_64;
            assert(ls[k] == "x86_64"@);
        }
        if ls.contains("x86_64"@) {
            let k = choose|k: int| 0 <= k < ls.len() && ls[k] == "x86_64"@;
            assert(archs[k] == Arch::X86_64);
        }
    }
    assert("native"@.len() != "unknown"@.len());
    assert("intel_only"@.len() != "unknown"@.len());
    assert("obsolete"@.len() != "unknown"@.len());
}

/// The fields of a scan in progress, kept well formed by the methods of
/// `ScanState`.
pub(crate) struct Tally {
    pub items: Vec<Item>,
    pub seen: Vec<String>,
    pub scripts_skipped: usize,
    pub unreadable: usize,
}

impl Tally {
    /// No canonical path is visited twice, and every item comes from a distinct
    /// visited canonical path.
    pub(crate) open spec fn wf(&self) -> bool {
        &&& str_views(self.seen@).no_duplicates()
        &&& forall|i: int|
            0 <= i < self.items@.len() ==> str_views(self.seen@).contains(
                #[trigger] self.items@[i].real_path@,
            )
        &&& forall|i: int, j: int|
            0 <= i < j < self.items@.len() ==> #[trigger] self.items@[i].real_path@
                != #[trigger] self.items@[j].real_path@
        &&& forall|i: int| 0 <= i < self.items@.len() ==> item_well_formed(#[trigger] self.items@[i])
    }

    /// The same items, visited paths and counts.
    pub(crate) open spec fn same_as(&self, other: Tally) -> bool {
        &&& self.items@ == other.items@
        &&& self.seen@ == other.seen@
        &&& self.scripts_skipped == other.scripts_skipped
        &&& self.unreadable == other.unreadable
    }

    pub(crate) open spec fn has_seen(&self, canonical: Seq<char>) -> bool {
        str_views(self.seen@).contains(canonical)
    }

    pub(crate) fn new() -> (r: Tally)
        ensures
            r.wf(),
            r.items@.len() == 0,
            r.seen@.len() == 0,
            r.scripts_skipped == 0,
            r.unreadable == 0,
    {
        let r = Tally { items: Vec::new(), seen: Vec::new(), scripts_skipped: 0, unreadable: 0 };
        proof {
            assert(str_views(r.seen@) =~= Seq::<Seq<char>>::empty());
        }
        r
    }

    /// Whether `canonical` was already visited.
    pub(crate) fn seen_before(&self, canonical: &str) -> (r: bool)
        ensures
            r == self.has_seen(canonical@),
    {
        let mut i: usize = 0;
        while i < self.seen.len()
            invariant
                0 <= i <= self.seen@.len(),
                forall|j: int| 0 <= j < i ==> self.seen@[j]@ != canonical@,
            decreases self.seen@.len() - i,
        {
            if str_eq(self.seen[i].as_str(), canonical) {
                proof {
                    assert(str_views(self.seen@)[i as int] == canonical@);
                }
                return true;
            }
            i = i + 1;
        }
        proof {
            let v = str_views(self.seen@);
            if v.contains(canonical@) {
                let k = choose|k: int| 0 <= k < v.len() && v[k] == canonical@;
                assert(self.seen@[k]@ == canonical@);
            }
        }
        false
    }

    /// Records `canonical` as visited; false when it already was.
    pub(crate) fn mark_seen(&mut self, canonical: &str) -> (fresh: bool)
        requires
            old(self).wf(),
        ensures
            final(self).wf(),
            fresh == !old(self).has_seen(canonical@),
            fresh ==> str_views(final(self).seen@) == str_views(old(self).seen@).push(canonical@),
            fresh ==> final(self).has_seen(canonical@),
            fresh ==> forall|i: int|
                0 <= i < old(self).items@.len() ==> #[trigger] old(self).items@[i].real_path@
                    != canonical@,
            !fresh ==> final(self).seen@ == old(self).seen@,
            final(self).items@ == old(self).items@,
            final(self).scripts_skipped == old(self).scripts_skipped,
            final(self).unreadable == old(self).unreadable,
    {
        let mut i: usize = 0;
        while i < self.seen.len()
            invariant
                0 <= i <= self.seen@.len(),
                forall|j: int| 0 <= j < i ==> self.seen@[j]@ != canonical@,
                *self == *old(self),
                self.wf(),
            decreases self.seen@.len() - i,
        {
            if str_eq(self.seen[i].as_str(), canonical) {
                proof {
                    assert(str_views(self.seen@)[i as int] == canonical@);
                }
                return false;
            }
            i = i + 1;
        }
        let ghost old_views = str_views(self.seen@);
        proof {
            assert(!old_views.contains(canonical@)) by {
                if old_views.contains(canonical@) {
                    let k = choose|k: int| 0 <= k < old_views.len() && old_views[k] == canonical@;
                    assert(self.seen@[k]@ == canonical@);
                }
            }
        }
        self.seen.push(String::from_str(canonical));
        proof {
            let nv = str_views(self.seen@);
            assert(nv =~= old_views.push(canonical@));
            assert(nv[nv.len() - 1] == canonical@);
            assert forall|i: int| 0 <= i < self.items@.len() implies #[trigger] self.items@[i].real_path@
                != canonical@ by {
                assert(old_views.contains(self.items@[i].real_path@));
            }
            assert forall|i: int| 0 <= i < self.items@.len() implies nv.contains(
                #[trigger] self.items@[i].real_path@,
            ) by {
                assert(old_views.contains(old(self).items@[i].real_path@));
                let k = choose|k: int| 0 <= k < old_views.len() && old_views[k] == self.items@[i].real_path@;
                assert(nv[k] == old_views[k]);
            }
        }
        true
    }

    fn push_item(&mut self, item: Item)
        requires
            old(self).wf(),
            old(self).has_seen(item.real_path@),
            forall|i: int|
                0 <= i < old(self).items@.len() ==> #[trigger] old(self).items@[i].real_path@
                    != item.real_path@,
            item_well_formed(item),
        ensures
            final(self).wf(),
            final(self).items@ == old(self).items@.push(item),
            final(self).seen@ == old(self).seen@,
            final(self).scripts_skipped == old(self).scripts_skipped,
            final(self).unreadable == old(self).unreadable,
    {
        self.items.push(item);
        proof {
            let n = self.items@.len();
            assert forall|i: int, j: int| 0 <= i < j < n implies #[trigger] self.items@[i].real_path@
                != #[trigger] self.items@[j].real_path@ by {
                if j == n - 1 {
                    assert(old(self).items@[i] == self.items@[i]);
                }
            }
        }
    }

    /// Records an executable found on a source. A canonical path already visited
    /// is skipped; otherwise the file becomes an item when it is a Mach-O
    /// binary, and is counted as a script or as unreadable when it is not.
    pub(crate) fn add_exec(
        &mut self,
        path: &str,
        canonical: &str,
        source: &str,
        file_name: Option<&str>,
        read: HeaderRead,
    )
        requires
            old(self).wf(),
            read matches HeaderRead::Archs(a) ==> a@.len() > 0,
            old(self).scripts_skipped < usize::MAX,
            old(self).unreadable < usize::MAX,
        ensures
            final(self).wf(),
            final(self).has_seen(canonical@),
            old(self).has_seen(canonical@) ==> final(self).same_as(*old(self)),
            !old(self).has_seen(canonical@) ==> {
                &&& str_views(final(self).seen@) == str_views(old(self).seen@).push(canonical@)
                &&& match read {
                    HeaderRead::Archs(archs) => {
                        &&& final(self).items@.len() == old(self).items@.len() + 1
                        &&& final(self).items@.drop_last() == old(self).items@
                        &&& item_from(
                            final(self).items@.last(),
                            "exec"@,
                            opt_str_or(file_name, "?"@),
                            None,
                            path@,
                            canonical@,
                            source@,
                            spec_labels(archs@),
                            spec_status_str(spec_classify(archs@)),
                        )
                        &&& final(self).scripts_skipped == old(self).scripts_skipped
                        &&& final(self).unreadable == old(self).unreadable
                    },
                    HeaderRead::NotMachO => {
                        &&& final(self).items@ == old(self).items@
                        &&& final(self).scripts_skipped == old(self).scripts_skipped + 1
                        &&& final(self).unreadable == old(self).unreadable
                    },
                    HeaderRead::Unreadable => {
                        &&& final(self).items@ == old(self).items@
                        &&& final(self).scripts_skipped == old(self).scripts_skipped
                        &&& final(self).unreadable == old(self).unreadable + 1
                    },
                }
            },
    {
        if !self.mark_seen(canonical) {
            return;
        }
        match read {
            HeaderRead::Archs(archs) => {
                let status = classify(archs.as_slice());
                proof {
                    lemma_labels_classify(archs@);
                    reveal_strlit("exec");
                    reveal_strlit("unknown");
                }
                let item = Item {
                    kind: String::from_str("exec"),
                    name: copy_str_or(file_name, "?"),
                    version: None,
                    path: String::from_str(path),
                    real_path: String::from_str(canonical),
                    source: String::from_str(source),
                    archs: arch_labels(&archs),
                    status: String::from_str(status.as_str()),
                };
                proof {
                    let v = str_views(item.archs@);
                    assert forall|i: int| 0 <= i < item.archs@.len() implies is_arch_label(
                        #[trigger] item.archs@[i]@,
                    ) by {
                        assert(v[i] == item.archs@[i]@);
                    }
                    reveal_strlit("app");
                    reveal_strlit("exec");
                    reveal_strlit("unknown");
                }
                self.push_item(item);
                proof {
                    assert(self.items@.drop_last() =~= old(self).items@);
                }
            },
            HeaderRead::NotMachO => {
                self.scripts_skipped = self.scripts_skipped + 1;
            },
            HeaderRead::Unreadable => {
                self.unreadable = self.unreadable + 1;
            },
        }
    }

    /// Records an application bundle found on a source. A canonical path already
    /// visited is skipped, and so is a bundle without an executable; any
    /// other bundle becomes an item, of status "unknown" when its executable
    /// is not a readable Mach-O binary.
    pub(crate) fn add_app(
        &mut self,
        path: &str,
        canonical: &str,
        source: &str,
        bundle_stem: Option<&str>,
        info: &InfoPlist,
        exe: ExeProbe,
    )
        requires
            old(self).wf(),
            exe matches ExeProbe::Present(HeaderRead::Archs(a)) ==> a@.len() > 0,
        ensures
            final(self).wf(),
            final(self).scripts_skipped == old(self).scripts_skipped,
            final(self).unreadable == old(self).unreadable,
            final(self).has_seen(canonical@),
            old(self).has_seen(canonical@) ==> final(self).same_as(*old(self)),
            !old(self).has_seen(canonical@) ==> {
                &&& str_views(final(self).seen@) == str_views(old(self).seen@).push(canonical@)
                &&& match exe {
                    ExeProbe::Missing => final(self).items@ == old(self).items@,
                    ExeProbe::Present(read) => {
                        &&& final(self).items@.len() == old(self).items@.len() + 1
                        &&& final(self).items@.drop_last() == old(self).items@
                        &&& item_from(
                            final(self).items@.last(),
                            "app"@,
                            spec_app_name(*info, bundle_stem),
                            info.version,
                            path@,
                            canonical@,
                            source@,
                            match read {
                                HeaderRead::Archs(archs) => spec_labels(archs@),
                                _ => Seq::empty(),
                            },
                            match read {
                                HeaderRead::Archs(archs) => spec_status_str(spec_classify(archs@)),
                                _ => "unknown"@,
                            },
                        )
                    },
                }
            },
    {
        if !self.mark_seen(canonical) {
            return;
        }
        let read = match exe {
            ExeProbe::Missing => return,
            ExeProbe::Present(read) => read,
        };
        let (archs, status) = match read {
            HeaderRead::Archs(a) => {
                let status = classify(a.as_slice());
                let labels = arch_labels(&a);
                let st = String::from_str(status.as_str());
                proof {
                    lemma_labels_classify(a@);
                    assert forall|i: int| 0 <= i < labels@.len() implies is_arch_label(
                        #[trigger] labels@[i]@,
                    ) by {
                        assert(str_views(labels@)[i] == labels@[i]@);
                        assert(spec_labels(a@)[i] == labels@[i]@);
                    }
                    assert(archs_status_ok(labels@, st@));
                }
                (labels, st)
            },
            _ => {
                let v: Vec<String> = Vec::new();
                proof {
                    assert(str_views(v@) =~= Seq::<Seq<char>>::empty());
                }
                let st = String::from_str("unknown");
                proof {
                    reveal_strlit("unknown");
                    reveal_strlit("native");
                    reveal_strlit("intel_only");
                    reveal_strlit("obsolete");
                    assert(archs_status_ok(v@, st@));
                }
                (v, st)
            },
        };
        assert(archs_status_ok(archs@, status@));
        let item = Item {
            kind: String::from_str("app"),
            name: app_display_name(info, bundle_stem),
            version: copy_opt(&info.version),
            path: String::from_str(path),
            real_path: String::from_str(canonical),
            source: String::from_str(source),
            archs,
            status,
        };
        proof {
            let v = str_views(item.archs@);
            assert forall|i: int| 0 <= i < item.archs@.len() implies is_arch_label(
                #[trigger] item.archs@[i]@,
            ) by {
                assert(v[i] == item.archs@[i]@);
            }
            reveal_strlit("app");
            reveal_strlit("exec");
            reveal_strlit("unknown");
        }
        assert(item.kind@ == "app"@);
        self.push_item(item);
        proof {
            assert(self.items@.drop_last() =~= old(self).items@);
        }
    }
}

/// Report order: by status (Intel-only, obsolete, unknown, native), then by name.
pub open spec fn item_before(a: Item, b: Item) -> bool {
    spec_status_rank(a.status@) < spec_status_rank(b.status@) || (spec_status_rank(a.status@)
        == spec_status_rank(b.status@) && lex_lt(a.name@, b.name@))
}

/// Same status rank and same name.
pub open spec fn same_key(a: Item, b: Item) -> bool {
    spec_status_rank(a.status@) == spec_status_rank(b.status@) && a.name@ == b.name@
}

pub open spec fn report_sorted(items: Seq<Item>) -> bool {
    forall|i: int, j: int| 0 <= i < j < items.len() ==> !item_before(#[trigger] items[j], #[trigger] items[i])
}

/// Two items of the same status are ordered by name, the smaller name
/// first; an Intel-only item comes before an obsolete one, which comes before
/// an unknown one, which comes before any other.
pub proof fn law_item_order(a: Item, b: Item)
    ensures
        a.status@ == b.status@ && lex_lt(a.name@, b.name@) ==> item_before(a, b) && !item_before(b, a),
        a.status@ == "intel_only"@ && b.status@ != "intel_only"@ ==> item_before(a, b),
        a.status@ == "obsolete"@ && b.status@ != "intel_only"@ && b.status@ != "obsolete"@
            ==> item_before(a, b),
        a.status@ == "unknown"@ && b.status@ != "intel_only"@ && b.status@ != "obsolete"@ && b.status@
            != "unknown"@ ==> item_before(a, b),
{
    reveal_strlit("intel_only");
    reveal_strlit("obsolete");
    reveal_strlit("unknown");
    lemma_lex_irreflexive(a.name@);
    if lex_lt(a.name@, b.name@) && lex_lt(b.name@, a.name@) {
        lemma_lex_transitive(a.name@, b.name@, a.name@);
    }
}

/// In a sorted report the Intel-only items come first, then the obsolete
/// ones, then the unknown ones, then the others; items of the same status
/// come in increasing order of name.
pub proof fn law_sorted_report_order(items: Seq<Item>)
    requires
        report_sorted(items),
    ensures
        forall|i: int, j: int|
            0 <= i < j < items.len() ==> {
                &&& (#[trigger] items[j]).status@ == "intel_only"@ ==> (#[trigger] items[i]).status@
                    == "intel_only"@
                &&& items[j].status@ == "obsolete"@ ==> items[i].status@ == "intel_only"@
                    || items[i].status@ == "obsolete"@
                &&& items[j].status@ == "unknown"@ ==> items[i].status@ == "intel_only"@
                    || items[i].status@ == "obsolete"@ || items[i].status@ == "unknown"@
                &&& items[i].status@ == items[j].status@ ==> !lex_lt(items[j].name@, items[i].name@)
            },
{
    assert forall|i: int, j: int| 0 <= i < j < items.len() implies {
        &&& (#[trigger] items[j]).status@ == "intel_only"@ ==> (#[trigger] items[i]).status@
            == "intel_only"@
        &&& items[j].status@ == "obsolete"@ ==> items[i].status@ == "intel_only"@ || items[i].status@
            == "obsolete"@
        &&& items[j].status@ == "unknown"@ ==> items[i].status@ == "intel_only"@ || items[i].status@
            == "obsolete"@ || items[i].status@ == "unknown"@
        &&& items[i].status@ == items[j].status@ ==> !lex_lt(items[j].name@, items[i].name@)
    } by {
        assert(!item_before(items[j], items[i]));
        law_item_order(items[j], items[i]);
    }
}

pub proof fn lemma_before_transitive(a: Item, b: Item, c: Item)
    requires
        item_before(a, b),
        item_before(b, c),
    ensures
        item_before(a, c),
{
    if spec_status_rank(a.status@) == spec_status_rank(b.status@) && spec_status_rank(b.status@)
        == spec_status_rank(c.status@) {
        lemma_lex_transitive(a.name@, b.name@, c.name@);
    }
}

pub proof fn lemma_before_asymmetric(a: Item, b: Item)
    requires
        item_before(a, b),
    ensures
        !item_before(b, a),
{
    if item_before(b, a) {
        lemma_before_transitive(a, b, a);
        lemma_lex_irreflexive(a.name@);
    }
}

pub proof fn lemma_before_total(a: Item, b: Item)
    ensures
        item_before(a, b) || item_before(b, a) || same_key(a, b),
{
    lemma_lex_total(a.name@, b.name@);
}

/// An item that comes before `b` comes before anything not before `b`.
proof fn lemma_before_then_not_before(a: Item, b: Item, c: Item)
    requires
        item_before(a, b),
        !item_before(c, b),
    ensures
        item_before(a, c),
{
    lemma_before_total(b, c);
    if item_before(b, c) {
        lemma_before_transitive(a, b, c);
    }
}

fn item_before_exec(a: &Item, b: &Item) -> (r: bool)
    ensures
        r == item_before(*a, *b),
{
    let ra = status_rank(a.status.as_str());
    let rb = status_rank(b.status.as_str());
    ra < rb || (ra == rb && lex_less(a.name.as_str(), b.name.as_str()))
}

/// `result[k]` is `orig[perm[k]]`, every position of `orig` is used once,
/// and two items of the same key keep their relative order.
pub open spec fn stable_arrangement(orig: Seq<Item>, result: Seq<Item>, perm: Seq<int>) -> bool {
    &&& result.len() == orig.len()
    &&& perm.len() == result.len()
    &&& forall|k: int| 0 <= k < perm.len() ==> 0 <= #[trigger] perm[k] < orig.len()
    &&& forall|a: int, b: int| 0 <= a < b < perm.len() ==> #[trigger] perm[a] != #[trigger] perm[b]
    &&& forall|k: int| 0 <= k < result.len() ==> #[trigger] result[k] == orig[perm[k]]
    &&& forall|i: int, j: int|
        0 <= i < j < result.len() && same_key(#[trigger] result[i], #[trigger] result[j])
            ==> perm[i] < perm[j]
}

/// Sorts the items of a report: by status, then by name; items with the same
/// status and name keep their order.
pub fn sort_items(items: &mut Vec<Item>)
    ensures
        report_sorted(final(items)@),
        final(items)@.to_multiset() == old(items)@.to_multiset(),
        exists|perm: Seq<int>| stable_arrangement(old(items)@, final(items)@, perm),
{
    broadcast use vstd::seq_lib::group_to_multiset_ensures;

    let mut input: Vec<Item> = Vec::new();
    std::mem::swap(items, &mut input);
    let ghost orig = input@;
    let mut sorted: Vec<Item> = Vec::new();
    proof {
        assert(sorted@.to_multiset() =~= Multiset::empty());
        assert(sorted@.to_multiset().add(input@.to_multiset()) =~= orig.to_multiset());
    }
    let ghost mut perm: Seq<int> = Seq::empty();
    proof {
        assert(input@ =~= orig.skip(0));
    }
    while input.len() > 0
        invariant
            report_sorted(sorted@),
            sorted@.to_multiset().add(input@.to_multiset()) == orig.to_multiset(),
            input@.len() <= orig.len(),
            input@ == orig.skip(orig.len() - input@.len()),
            perm.len() == sorted@.len(),
            sorted@.len() == orig.len() - input@.len(),
            forall|k: int| 0 <= k < perm.len() ==> 0 <= #[trigger] perm[k] < orig.len() - input@.len(),
            forall|a: int, b: int| 0 <= a < b < perm.len() ==> #[trigger] perm[a] != #[trigger] perm[b],
            forall|k: int| 0 <= k < sorted@.len() ==> #[trigger] sorted@[k] == orig[perm[k]],
            forall|i: int, j: int|
                0 <= i < j < sorted@.len() && same_key(#[trigger] sorted@[i], #[trigger] sorted@[j])
                    ==> perm[i] < perm[j],
        decreases input@.len(),
    {
        let ghost before_input = input@;
        let ghost consumed = orig.len() - input@.len();
        let it = input.remove(0);
        let mut pos: usize = 0;
        while pos < sorted.len() && !item_before_exec(&it, &sorted[pos])
            invariant
                0 <= pos <= sorted@.len(),
                forall|k: int| 0 <= k < pos ==> !item_before(it, #[trigger] sorted@[k]),
            decreases sorted@.len() - pos,
        {
            pos = pos + 1;
        }
        let ghost prev = sorted@;
        proof {
            assert forall|k: int| pos <= k < prev.len() implies item_before(it, #[trigger] prev[k]) by {
                if k > pos {
                    lemma_before_then_not_before(it, prev[pos as int], prev[k]);
                }
            }
        }
        sorted.insert(pos, it);
        proof {
            let ns = sorted@;
            let old_perm = perm;
            perm = old_perm.insert(pos as int, consumed);
            assert(orig[consumed] == it) by {
                assert(before_input[0] == orig.skip(consumed)[0]);
            }
            assert(input@ =~= orig.skip(orig.len() - input@.len()));
            assert forall|k: int| 0 <= k < ns.len() implies #[trigger] ns[k] == orig[perm[k]] by {
                if k < pos {
                } else if k == pos {
                } else {
                    assert(ns[k] == prev[k - 1]);
                }
            }
            assert forall|a: int, b: int| 0 <= a < b < perm.len() implies #[trigger] perm[a]
                != #[trigger] perm[b] by {
                if a == pos {
                    assert(perm[b] == old_perm[b - 1]);
                } else if b == pos {
                    assert(perm[a] == old_perm[a]);
                } else if a < pos && b > pos {
                    assert(perm[b] == old_perm[b - 1]);
                } else if a > pos {
                    assert(perm[a] == old_perm[a - 1]);
                    assert(perm[b] == old_perm[b - 1]);
                }
            }
            assert forall|k: int| 0 <= k < perm.len() implies 0 <= #[trigger] perm[k] < orig.len()
                - input@.len() by {
                if k < pos {
                    assert(perm[k] == old_perm[k]);
                } else if k > pos {
                    assert(perm[k] == old_perm[k - 1]);
                }
            }
            assert forall|i: int, j: int|
                0 <= i < j < ns.len() && same_key(#[trigger] ns[i], #[trigger] ns[j]) implies perm[i]
                < perm[j] by {
                if i == pos {
                    lemma_lex_irreflexive(it.name@);
                    assert(item_before(it, prev[j - 1]));
                } else if j == pos {
                    if i < pos {
                        assert(perm[i] == old_perm[i]);
                    }
                } else if i < pos && j < pos {
                    assert(perm[i] == old_perm[i]);
                    assert(perm[j] == old_perm[j]);
                } else if i < pos && j > pos {
                    assert(ns[j] == prev[j - 1]);
                    assert(perm[i] == old_perm[i]);
                    assert(perm[j] == old_perm[j - 1]);
                } else {
                    assert(ns[i] == prev[i - 1]);
                    assert(ns[j] == prev[j - 1]);
                    assert(perm[i] == old_perm[i - 1]);
                    assert(perm[j] == old_perm[j - 1]);
                }
            }
            assert(ns =~= prev.insert(pos as int, it));
            assert forall|i: int, j: int| 0 <= i < j < ns.len() implies !item_before(
                #[trigger] ns[j],
                #[trigger] ns[i],
            ) by {
                if i == pos {
                    lemma_before_asymmetric(it, prev[j - 1]);
                } else if j == pos {
                } else if i < pos && j < pos {
                } else if i < pos && j > pos {
                    assert(ns[j] == prev[j - 1]);
                } else {
                    assert(ns[i] == prev[i - 1]);
                    assert(ns[j] == prev[j - 1]);
                }
            }
            assert(before_input.remove(0) == input@);
            assert(before_input.to_multiset() =~= input@.to_multiset().insert(it)) by {
                broadcast use vstd::multiset::group_multiset_axioms;

                vstd::seq_lib::to_multiset_remove(before_input, 0);
                vstd::seq_lib::to_multiset_contains(before_input, it);
                assert(before_input.contains(it)) by {
                    assert(before_input[0] == it);
                }
            }
            vstd::seq_lib::to_multiset_insert(prev, pos as int, it);
            assert(ns.to_multiset() == prev.to_multiset().insert(it));
            assert(ns.to_multiset().add(input@.to_multiset()) =~= orig.to_multiset());
        }
    }
    proof {
        assert(input@.to_multiset() =~= Multiset::empty());
        assert(sorted@.to_multiset() =~= orig.to_multiset());
        assert(stable_arrangement(orig, sorted@, perm));
    }
    *items = sorted;
}

impl Tally {
    /// The report of a finished scan: the items in report order, with the
    /// counts of the scan and what the caller gathered about the host.
    pub(crate) fn finish(self, host: HostInfo, generated_at: String, scanned_dirs: Vec<String>) -> (r: Report)
        requires
            self.wf(),
        ensures
            forall|k: int| 0 <= k < r.items@.len() ==> item_well_formed(#[trigger] r.items@[k]),
            forall|i: int, j: int|
                0 <= i < j < r.items@.len() ==> #[trigger] r.items@[i].real_path@
                    != #[trigger] r.items@[j].real_path@,
            report_sorted(r.items@),
            r.items@.to_multiset() == self.items@.to_multiset(),
            exists|perm: Seq<int>| stable_arrangement(self.items@, r.items@, perm),
            r.scripts_skipped == self.scripts_skipped,
            r.unreadable == self.unreadable,
            r.host == host,
            r.generated_at == generated_at,
            r.scanned_dirs == scanned_dirs,
    {
        let mut items = self.items;
        let ghost orig = items@;
        sort_items(&mut items);
        proof {
            let perm = choose|perm: Seq<int>| stable_arrangement(orig, items@, perm);
            assert forall|k: int| 0 <= k < items@.len() implies item_well_formed(#[trigger] items@[k]) by {
                assert(items@[k] == orig[perm[k]]);
            }
            assert forall|i: int, j: int| 0 <= i < j < items@.len() implies #[trigger] items@[i].real_path@
                != #[trigger] items@[j].real_path@ by {
                assert(items@[i] == orig[perm[i]]);
                assert(items@[j] == orig[perm[j]]);
                if perm[i] < perm[j] {
                    assert(orig[perm[i]].real_path@ != orig[perm[j]].real_path@);
                } else {
                    assert(orig[perm[j]].real_path@ != orig[perm[i]].real_path@);
                }
            }
        }
        Report {
            host,
            generated_at,
            scanned_dirs,
            items,
            scripts_skipped: self.scripts_skipped,
            unreadable: self.unreadable,
        }
    }
}

/// What a directory walk does with an entry.
#[derive(Debug, Clone, Copy, PartialEq, Eq, Structural)]
pub enum WalkStep {
    /// An application bundle: reported, not entered.
    Bundle,
    /// Another directory: walked in turn, down to the number of levels given.
    Descend(u32),
    /// An executable file: reported.
    Executable,
    /// Anything else.
    Skip,
}

/// Whether a file name has the extension "app" (as `Path::extension` reads
/// it: after the last dot, which may not be the first character).
pub open spec fn spec_has_app_extension(name: Seq<char>) -> bool {
    name.len() > 4 && name.skip(name.len() - 4) == ".app"@
}

pub fn has_app_extension(name: &str) -> (r: bool)
    ensures
        r == spec_has_app_extension(name@),
{
    proof {
        reveal_strlit(".app");
    }
    let n = name.unicode_len();
    if n <= 4 {
        return false;
    }
    let r = name.get_char(n - 4) == '.' && name.get_char(n - 3) == 'a' && name.get_char(n - 2)
        == 'p' && name.get_char(n - 1) == 'p';
    proof {
        let t = name@.skip(n - 4);
        if r {
            assert(t =~= ".app"@);
        } else if t == ".app"@ {
            assert(t[0] == name@[n - 4]);
            assert(t[1] == name@[n - 3]);
            assert(t[2] == name@[n - 2]);
            assert(t[3] == name@[n - 1]);
        }
    }
    r
}

/// Whether a Unix mode has an execute bit for its owner, group or others.
pub open spec fn spec_is_executable_mode(mode: u32) -> bool {
    mode & 0o111 != 0
}

pub fn is_executable_mode(mode: u32) -> (r: bool)
    ensures
        r == spec_is_executable_mode(mode),
{
    mode & 0o111 != 0
}

/// A walk that may still go `max_depth` levels down lists a directory's
/// entries only while `max_depth` is not zero, and walks a subdirectory with
/// one level less (a walk left with no level lists nothing).
pub open spec fn spec_walk_step(
    max_depth: u32,
    is_dir: bool,
    is_file: bool,
    mode: u32,
    name: Seq<char>,
) -> WalkStep {
    if max_depth == 0 {
        WalkStep::Skip
    } else if is_dir {
        if spec_has_app_extension(name) {
            WalkStep::Bundle
        } else if max_depth > 1 {
            WalkStep::Descend((max_depth - 1) as u32)
        } else {
            WalkStep::Skip
        }
    } else if is_file && spec_is_executable_mode(mode) {
        WalkStep::Executable
    } else {
        WalkStep::Skip
    }
}

/// The decision a directory walk that may still go `max_depth` levels down
/// takes on an entry, from its metadata (links followed) and its file name.
pub fn walk_step(max_depth: u32, is_dir: bool, is_file: bool, mode: u32, name: &str) -> (r: WalkStep)
    ensures
        r == spec_walk_step(max_depth, is_dir, is_file, mode, name@),
        r matches WalkStep::Descend(next) ==> 0 < next && next < max_depth,
        r is Bundle ==> is_dir && spec_has_app_extension(name@),
{
    if max_depth == 0 {
        WalkStep::Skip
    } else if is_dir {
        if has_app_extension(name) {
            WalkStep::Bundle
        } else if max_depth > 1 {
            WalkStep::Descend(max_depth - 1)
        } else {
            WalkStep::Skip
        }
    } else if is_file && is_executable_mode(mode) {
        WalkStep::Executable
    } else {
        WalkStep::Skip
    }
}

/// A source of a scan, in the order the scan visits them.
pub enum PlannedSource {
    /// A folder: when it is a directory, it is listed under its path and
    /// walked `depth` levels, its finds reported under `source`.
    Folder { path: String, depth: u32, source: String },
    /// The application bundles Spotlight knows of; listed as `listed`.
    Spotlight { listed: String, source: String },
    /// Each folder of the login shell's PATH, walked `depth` levels; listed
    /// once as `listed`.
    LoginShellPath { listed: String, depth: u32, source: String },
    /// Each Homebrew folder (bin and sbin of the prefixes and of keg-only
    /// formulas), listed under its path and walked `depth` levels.
    Homebrew { depth: u32, source: String },
}

pub enum SourceView {
    Folder(Seq<char>, u32, Seq<char>),
    Spotlight(Seq<char>, Seq<char>),
    LoginShellPath(Seq<char>, u32, Seq<char>),
    Homebrew(u32, Seq<char>),
}

impl View for PlannedSource {
    type V = SourceView;

    open spec fn view(&self) -> SourceView {
        match self {
            PlannedSource::Folder { path, depth, source } => SourceView::Folder(path@, *depth, source@),
            PlannedSource::Spotlight { listed, source } => SourceView::Spotlight(listed@, source@),
            PlannedSource::LoginShellPath { listed, depth, source } => SourceView::LoginShellPath(
                listed@,
                *depth,
                source@,
            ),
            PlannedSource::Homebrew { depth, source } => SourceView::Homebrew(*depth, source@),
        }
    }
}

pub open spec fn plan_views(v: Seq<PlannedSource>) -> Seq<SourceView> {
    v.map_values(|p: PlannedSource| p@)
}

/// The extra folders the user typed, each trimmed and expanded, walked four
/// levels; blank entries are dropped.
pub open spec fn extra_sources(raws: Seq<Seq<char>>, home: Seq<char>) -> Seq<SourceView>
    decreases raws.len(),
{
    if raws.len() == 0 {
        Seq::empty()
    } else {
        let prev = extra_sources(raws.drop_last(), home);
        match spec_expand_dir(raws.last(), home) {
            Some(d) => prev.push(SourceView::Folder(d, 4, "Dossier supplémentaire"@)),
            None => prev,
        }
    }
}

/// The sources a scan visits, each enabled by its own option, in this
/// order: /Applications and ~/Applications (four levels), Spotlight, the
/// login shell's PATH (one level), Homebrew (one level), MacPorts'
/// /opt/local/bin and /opt/local/sbin (one level), then the extra folders.
pub open spec fn spec_scan_plan(opts: ScanOptions, home: Seq<char>) -> Seq<SourceView> {
    (if opts.apps {
        seq![
            SourceView::Folder("/Applications"@, 4, "Applications"@),
            SourceView::Folder(home + "/Applications"@, 4, "Applications"@),
        ]
    } else {
        Seq::empty()
    }) + (if opts.spotlight {
        seq![SourceView::Spotlight("Spotlight (mdfind)"@, "Spotlight"@)]
    } else {
        Seq::empty()
    }) + (if opts.path {
        seq![SourceView::LoginShellPath("$PATH (shell de connexion)"@, 1, "PATH"@)]
    } else {
        Seq::empty()
    }) + (if opts.homebrew {
        seq![SourceView::Homebrew(1, "Homebrew"@)]
    } else {
        Seq::empty()
    }) + (if opts.macports {
        seq![
            SourceView::Folder("/opt/local/bin"@, 1, "MacPorts"@),
            SourceView::Folder("/opt/local/sbin"@, 1, "MacPorts"@),
        ]
    } else {
        Seq::empty()
    }) + extra_sources(str_views(opts.extra_dirs@), home)
}

proof fn lemma_extra_sources_are_extra_folders(raws: Seq<Seq<char>>, home: Seq<char>)
    ensures
        forall|i: int|
            0 <= i < extra_sources(raws, home).len() ==> is_folder_of(
                #[trigger] extra_sources(raws, home)[i],
                "Dossier supplémentaire"@,
            ),
    decreases raws.len(),
{
    reveal_strlit("Dossier supplémentaire");
    if raws.len() > 0 {
        let prev = extra_sources(raws.drop_last(), home);
        lemma_extra_sources_are_extra_folders(raws.drop_last(), home);
        let all = extra_sources(raws, home);
        assert forall|i: int| 0 <= i < all.len() implies is_folder_of(
            #[trigger] all[i],
            "Dossier supplémentaire"@,
        ) by {
            if i < prev.len() {
                assert(all[i] == prev[i]);
            }
        }
    }
}

/// Whether a planned source is a folder reported under `source`.
pub open spec fn is_folder_of(v: SourceView, source: Seq<char>) -> bool {
    v matches SourceView::Folder(_, _, s) && s == source
}

/// Each source of a scan is planned exactly when its own option is on,
/// whatever the other options: the Applications folders, Spotlight, the login
/// shell's PATH, Homebrew and the MacPorts folders.
pub proof fn law_each_source_follows_its_option(opts: ScanOptions, home: Seq<char>)
    ensures
        ({
            let plan = spec_scan_plan(opts, home);
            &&& (exists|i: int| 0 <= i < plan.len() && is_folder_of(#[trigger] plan[i], "Applications"@))
                <==> opts.apps
            &&& (exists|i: int| 0 <= i < plan.len() && (#[trigger] plan[i]) is Spotlight) <==> opts.spotlight
            &&& (exists|i: int| 0 <= i < plan.len() && (#[trigger] plan[i]) is LoginShellPath) <==> opts.path
            &&& (exists|i: int| 0 <= i < plan.len() && (#[trigger] plan[i]) is Homebrew) <==> opts.homebrew
            &&& (exists|i: int| 0 <= i < plan.len() && is_folder_of(#[trigger] plan[i], "MacPorts"@))
                <==> opts.macports
        }),
{
    reveal_strlit("Applications");
    reveal_strlit("MacPorts");
    reveal_strlit("Dossier supplémentaire");
    let a: Seq<SourceView> = if opts.apps {
        seq![
            SourceView::Folder("/Applications"@, 4, "Applications"@),
            SourceView::Folder(home + "/Applications"@, 4, "Applications"@),
        ]
    } else {
        Seq::empty()
    };
    let b: Seq<SourceView> = if opts.spotlight {
        seq![SourceView::Spotlight("Spotlight (mdfind)"@, "Spotlight"@)]
    } else {
        Seq::empty()
    };
    let c: Seq<SourceView> = if opts.path {
        seq![SourceView::LoginShellPath("$PATH (shell de connexion)"@, 1, "PATH"@)]
    } else {
        Seq::empty()
    };
    let d: Seq<SourceView> = if opts.homebrew {
        seq![SourceView::Homebrew(1, "Homebrew"@)]
    } else {
        Seq::empty()
    };
    let e: Seq<SourceView> = if opts.macports {
        seq![
            SourceView::Folder("/opt/local/bin"@, 1, "MacPorts"@),
            SourceView::Folder("/opt/local/sbin"@, 1, "MacPorts"@),
        ]
    } else {
        Seq::empty()
    };
    let f = extra_sources(str_views(opts.extra_dirs@), home);
    lemma_extra_sources_are_extra_folders(str_views(opts.extra_dirs@), home);
    let plan = spec_scan_plan(opts, home);
    assert(plan == a + b + c + d + e + f);
    let na = a.len() as int;
    let nb = na + b.len();
    let nc = nb + c.len();
    let nd = nc + d.len();
    let ne = nd + e.len();
    assert(plan.len() == ne + f.len());
    assert forall|i: int| 0 <= i < plan.len() implies {
        &&& (0 <= i < na ==> plan[i] == a[i])
        &&& (na <= i < nb ==> plan[i] == b[i - na])
        &&& (nb <= i < nc ==> plan[i] == c[i - nb])
        &&& (nc <= i < nd ==> plan[i] == d[i - nc])
        &&& (nd <= i < ne ==> plan[i] == e[i - nd])
        &&& (ne <= i ==> plan[i] == f[i - ne])
    } by {}
    if opts.apps {
        assert(is_folder_of(plan[0], "Applications"@));
    }
    if opts.spotlight {
        assert(plan[na] is Spotlight);
    }
    if opts.path {
        assert(plan[nb] is LoginShellPath);
    }
    if opts.homebrew {
        assert(plan[nc] is Homebrew);
    }
    if opts.macports {
        assert(is_folder_of(plan[nd], "MacPorts"@));
    }
    assert forall|i: int| 0 <= i < plan.len() implies {
        &&& (is_folder_of(#[trigger] plan[i], "Applications"@) ==> opts.apps)
        &&& (plan[i] is Spotlight ==> opts.spotlight)
        &&& (plan[i] is LoginShellPath ==> opts.path)
        &&& (plan[i] is Homebrew ==> opts.homebrew)
        &&& (is_folder_of(plan[i], "MacPorts"@) ==> opts.macports)
    } by {
        assert("Applications"@.len() != "MacPorts"@.len());
        assert("Dossier supplémentaire"@.len() != "MacPorts"@.len());
        assert("Dossier supplémentaire"@.len() != "Applications"@.len());
        if i < na {
            assert(opts.apps);
        } else if i < nb {
            assert(opts.spotlight);
        } else if i < nc {
            assert(opts.path);
        } else if i < nd {
            assert(opts.homebrew);
        } else if i < ne {
            assert(opts.macports);
        } else {
            assert(is_folder_of(f[i - ne], "Dossier supplémentaire"@));
        }
    }
}

/// The rank of a planned source in the order of a scan: the Applications
/// folders, Spotlight, the PATH, Homebrew, MacPorts, then the extra folders.
pub open spec fn source_order(v: SourceView) -> int {
    match v {
        SourceView::Folder(_, _, src) => if src == "Applications"@ {
            0
        } else if src == "MacPorts"@ {
            4
        } else {
            5
        },
        SourceView::Spotlight(_, _) => 1,
        SourceView::LoginShellPath(_, _, _) => 2,
        SourceView::Homebrew(_, _) => 3,
    }
}

/// The sources of a scan come in a fixed order (the Applications folders,
/// Spotlight, the PATH, Homebrew, MacPorts, then the extra folders); the
/// Applications and extra folders are walked four levels down, the PATH,
/// Homebrew and MacPorts folders one level.
pub proof fn law_scan_plan_order_and_depths(opts: ScanOptions, home: Seq<char>)
    ensures
        ({
            let plan = spec_scan_plan(opts, home);
            &&& forall|i: int, j: int|
                0 <= i < j < plan.len() ==> source_order(#[trigger] plan[i]) <= source_order(
                    #[trigger] plan[j],
                )
            &&& forall|i: int|
                0 <= i < plan.len() ==> match #[trigger] plan[i] {
                    SourceView::Folder(_, d, src) => d == (if src == "MacPorts"@ {
                        1u32
                    } else {
                        4u32
                    }),
                    SourceView::LoginShellPath(_, d, _) => d == 1,
                    SourceView::Homebrew(d, _) => d == 1,
                    SourceView::Spotlight(_, _) => true,
                }
        }),
{
    reveal_strlit("Applications");
    reveal_strlit("MacPorts");
    reveal_strlit("Dossier supplémentaire");
    let a: Seq<SourceView> = if opts.apps {
        seq![
            SourceView::Folder("/Applications"@, 4, "Applications"@),
            SourceView::Folder(home + "/Applications"@, 4, "Applications"@),
        ]
    } else {
        Seq::empty()
    };
    let b: Seq<SourceView> = if opts.spotlight {
        seq![SourceView::Spotlight("Spotlight (mdfind)"@, "Spotlight"@)]
    } else {
        Seq::empty()
    };
    let c: Seq<SourceView> = if opts.path {
        seq![SourceView::LoginShellPath("$PATH (shell de connexion)"@, 1, "PATH"@)]
    } else {
        Seq::empty()
    };
    let d: Seq<SourceView> = if opts.homebrew {
        seq![SourceView::Homebrew(1, "Homebrew"@)]
    } else {
        Seq::empty()
    };
    let e: Seq<SourceView> = if opts.macports {
        seq![
            SourceView::Folder("/opt/local/bin"@, 1, "MacPorts"@),
            SourceView::Folder("/opt/local/sbin"@, 1, "MacPorts"@),
        ]
    } else {
        Seq::empty()
    };
    let f = extra_sources(str_views(opts.extra_dirs@), home);
    lemma_extra_sources_are_extra_folders(str_views(opts.extra_dirs@), home);
    lemma_extra_sources_walked_four_levels(str_views(opts.extra_dirs@), home);
    let plan = spec_scan_plan(opts, home);
    assert(plan == a + b + c + d + e + f);
    let na = a.len() as int;
    let nb = na + b.len();
    let nc = nb + c.len();
    let nd = nc + d.len();
    let ne = nd + e.len();
    assert("Applications"@.len() != "MacPorts"@.len());
    assert("Dossier supplémentaire"@.len() != "MacPorts"@.len());
    assert("Dossier supplémentaire"@.len() != "Applications"@.len());
    assert forall|i: int| 0 <= i < plan.len() implies source_order(#[trigger] plan[i]) == (if i < na {
        0int
    } else if i < nb {
        1
    } else if i < nc {
        2
    } else if i < nd {
        3
    } else if i < ne {
        4
    } else {
        5
    }) && match plan[i] {
        SourceView::Folder(_, d, src) => d == (if src == "MacPorts"@ {
            1u32
        } else {
            4u32
        }),
        SourceView::LoginShellPath(_, d, _) => d == 1,
        SourceView::Homebrew(d, _) => d == 1,
        SourceView::Spotlight(_, _) => true,
    } by {
        if ne <= i {
            assert(plan[i] == f[i - ne]);
            assert(is_folder_of(f[i - ne], "Dossier supplémentaire"@));
        }
    }
}

proof fn lemma_extra_sources_walked_four_levels(raws: Seq<Seq<char>>, home: Seq<char>)
    ensures
        forall|i: int|
            0 <= i < extra_sources(raws, home).len() ==> (#[trigger] extra_sources(raws, home)[i]) is Folder
                && extra_sources(raws, home)[i]->Folder_1 == 4,
    decreases raws.len(),
{
    if raws.len() > 0 {
        let prev = extra_sources(raws.drop_last(), home);
        lemma_extra_sources_walked_four_levels(raws.drop_last(), home);
        let all = extra_sources(raws, home);
        assert forall|i: int| 0 <= i < all.len() implies (#[trigger] all[i]) is Folder && all[i]->Folder_1
            == 4 by {
            if i < prev.len() {
                assert(all[i] == prev[i]);
            }
        }
    }
}

fn folder(path: &str, depth: u32, source: &str) -> (r: PlannedSource)
    ensures
        r@ == SourceView::Folder(path@, depth, source@),
{
    PlannedSource::Folder { path: String::from_str(path), depth, source: String::from_str(source) }
}

/// The sources to visit for the given options, `home` being the user's
/// home folder.
pub fn scan_plan(opts: &ScanOptions, home: &str) -> (r: Vec<PlannedSource>)
    ensures
        plan_views(r@) == spec_scan_plan(*opts, home@),
{
    let mut plan: Vec<PlannedSource> = Vec::new();
    let ghost mut expected: Seq<SourceView> = Seq::empty();
    proof {
        assert(plan_views(plan@) =~= expected);
    }
    if opts.apps {
        plan.push(folder("/Applications", 4, "Applications"));
        let mut home_apps = String::from_str(home);
        home_apps.append("/Applications");
        plan.push(folder(home_apps.as_str(), 4, "Applications"));
        proof {
            expected = expected + seq![
                SourceView::Folder("/Applications"@, 4, "Applications"@),
                SourceView::Folder(home@ + "/Applications"@, 4, "Applications"@),
            ];
            assert(plan_views(plan@) =~= expected);
        }
    }
    let ghost after_apps = expected;
    if opts.spotlight {
        plan.push(
            PlannedSource::Spotlight {
                listed: String::from_str("Spotlight (mdfind)"),
                source: String::from_str("Spotlight"),
            },
        );
        proof {
            expected = expected + seq![SourceView::Spotlight("Spotlight (mdfind)"@, "Spotlight"@)];
            assert(plan_views(plan@) =~= expected);
        }
    }
    if opts.path {
        plan.push(
            PlannedSource::LoginShellPath {
                listed: String::from_str("$PATH (shell de connexion)"),
                depth: 1,
                source: String::from_str("PATH"),
            },
        );
        proof {
            expected = expected + seq![
                SourceView::LoginShellPath("$PATH (shell de connexion)"@, 1, "PATH"@),
            ];
            assert(plan_views(plan@) =~= expected);
        }
    }
    if opts.homebrew {
        plan.push(PlannedSource::Homebrew { depth: 1, source: String::from_str("Homebrew") });
        proof {
            expected = expected + seq![SourceView::Homebrew(1, "Homebrew"@)];
            assert(plan_views(plan@) =~= expected);
        }
    }
    if opts.macports {
        plan.push(folder("/opt/local/bin", 1, "MacPorts"));
        plan.push(folder("/opt/local/sbin", 1, "MacPorts"));
        proof {
            expected = expected + seq![
                SourceView::Folder("/opt/local/bin"@, 1, "MacPorts"@),
                SourceView::Folder("/opt/local/sbin"@, 1, "MacPorts"@),
            ];
            assert(plan_views(plan@) =~= expected);
        }
    }
    let ghost fixed = expected;
    let ghost raws = str_views(opts.extra_dirs@);
    let mut i: usize = 0;
    while i < opts.extra_dirs.len()
        invariant
            0 <= i <= opts.extra_dirs@.len(),
            raws == str_views(opts.extra_dirs@),
            plan_views(plan@) == fixed + extra_sources(raws.take(i as int), home@),
        decreases opts.extra_dirs@.len() - i,
    {
        let ghost before = plan_views(plan@);
        proof {
            let t = raws.take(i + 1);
            assert(t.drop_last() =~= raws.take(i as int));
            assert(t.last() == opts.extra_dirs@[i as int]@);
        }
        match expand_extra_dir(opts.extra_dirs[i].as_str(), home) {
            Some(d) => {
                plan.push(folder(d.as_str(), 4, "Dossier supplémentaire"));
                proof {
                    assert(plan_views(plan@) =~= before.push(
                        SourceView::Folder(d@, 4, "Dossier supplémentaire"@),
                    ));
                }
            },
            None => {},
        }
        proof {
            assert(plan_views(plan@) =~= fixed + extra_sources(raws.take(i + 1), home@));
        }
        i = i + 1;
    }
    proof {
        assert(raws.take(i as int) =~= raws);
        assert(plan_views(plan@) =~= spec_scan_plan(*opts, home@));
    }
    plan
}

/// Where a bundle keeps its Info.plist and executable.
#[derive(Debug, Clone, Copy, PartialEq, Eq, Structural)]
pub enum BundleLayout {
    /// `Contents/Info.plist` and `Contents/MacOS/`.
    Classic,
    /// An iOS app installed on Apple Silicon: Info.plist and executable at
    /// the root of the bundle that the `WrappedBundle` link points to.
    Wrapped,
}

/// The layout of a bundle: classic when `Contents/Info.plist` is a file;
/// wrapped when not, but the `WrappedBundle` link leads to a bundle with an
/// Info.plist; classic again in any other case.
pub open spec fn spec_bundle_layout(contents_info_plist: bool, wrapped_info_plist: Option<bool>) -> BundleLayout {
    if contents_info_plist {
        BundleLayout::Classic
    } else if wrapped_info_plist == Some(true) {
        BundleLayout::Wrapped
    } else {
        BundleLayout::Classic
    }
}

/// The layout of a bundle, from whether `Contents/Info.plist` is a file and,
/// when the `WrappedBundle` link can be read, whether its target holds an
/// Info.plist.
pub fn bundle_layout(contents_info_plist: bool, wrapped_info_plist: Option<bool>) -> (r: BundleLayout)
    ensures
        r == spec_bundle_layout(contents_info_plist, wrapped_info_plist),
{
    if contents_info_plist {
        BundleLayout::Classic
    } else {
        match wrapped_info_plist {
            Some(true) => BundleLayout::Wrapped,
            _ => BundleLayout::Classic,
        }
    }
}

/// What a scan in progress holds: the items found so far, the canonical
/// paths already visited, and the files skipped as scripts or as unreadable.
pub struct ScanView {
    pub items: Seq<Item>,
    pub seen: Seq<Seq<char>>,
    pub scripts_skipped: usize,
    pub unreadable: usize,
}

impl ScanView {
    /// No canonical path is visited twice, every item comes from a distinct
    /// visited path, and every item is well formed.
    pub open spec fn wf(self) -> bool {
        &&& self.seen.no_duplicates()
        &&& forall|i: int| 0 <= i < self.items.len() ==> self.seen.contains(#[trigger] self.items[i].real_path@)
        &&& forall|i: int, j: int|
            0 <= i < j < self.items.len() ==> #[trigger] self.items[i].real_path@
                != #[trigger] self.items[j].real_path@
        &&& forall|i: int| 0 <= i < self.items.len() ==> item_well_formed(#[trigger] self.items[i])
    }

    pub open spec fn has_seen(self, canonical: Seq<char>) -> bool {
        self.seen.contains(canonical)
    }
}

/// The state of a scan in progress. Its fields are private and always well
/// formed: see `ScanView::wf`.
pub struct ScanState {
    tally: Tally,
}

impl View for ScanState {
    type V = ScanView;

    closed spec fn view(&self) -> ScanView {
        ScanView {
            items: self.tally.items@,
            seen: str_views(self.tally.seen@),
            scripts_skipped: self.tally.scripts_skipped,
            unreadable: self.tally.unreadable,
        }
    }
}

impl ScanState {
    #[verifier::type_invariant]
    closed spec fn inv(self) -> bool {
        self.tally.wf()
    }

    proof fn lemma_view_wf(&self)
        requires
            self.tally.wf(),
        ensures
            self@.wf(),
    {
    }

    pub fn new() -> (r: ScanState)
        ensures
            r@.wf(),
            r@.items.len() == 0,
            r@.seen.len() == 0,
            r@.scripts_skipped == 0,
            r@.unreadable == 0,
    {
        let r = ScanState { tally: Tally::new() };
        proof {
            r.lemma_view_wf();
        }
        r
    }

    /// The items found so far.
    pub fn items(&self) -> (r: &Vec<Item>)
        ensures
            r@ == self@.items,
    {
        &self.tally.items
    }

    /// The number of files skipped as scripts (read, but not Mach-O).
    pub fn scripts_skipped(&self) -> (r: usize)
        ensures
            r == self@.scripts_skipped,
    {
        self.tally.scripts_skipped
    }

    /// The number of files that could not be read.
    pub fn unreadable(&self) -> (r: usize)
        ensures
            r == self@.unreadable,
    {
        self.tally.unreadable
    }

    /// Whether `canonical` was already visited.
    pub fn seen_before(&self, canonical: &str) -> (r: bool)
        ensures
            r == self@.has_seen(canonical@),
    {
        self.tally.seen_before(canonical)
    }

    fn take_tally(&mut self) -> (t: Tally)
        ensures
            t.wf(),
            t == old(self).tally,
    {
        proof {
            use_type_invariant(&*self);
        }
        let mut other = ScanState::new();
        std::mem::swap(self, &mut other);
        let ScanState { tally } = other;
        tally
    }

    /// Records an executable found on a source. A canonical path already
    /// visited is skipped; otherwise the file becomes an item when it is a
    /// Mach-O binary, and is counted as a script or as unreadable when it is
    /// not.
    pub fn add_exec(
        &mut self,
        path: &str,
        canonical: &str,
        source: &str,
        file_name: Option<&str>,
        read: HeaderRead,
    )
        requires
            read matches HeaderRead::Archs(a) ==> a@.len() > 0,
            old(self)@.scripts_skipped < usize::MAX,
            old(self)@.unreadable < usize::MAX,
        ensures
            final(self)@.wf(),
            final(self)@.has_seen(canonical@),
            old(self)@.has_seen(canonical@) ==> final(self)@ == old(self)@,
            !old(self)@.has_seen(canonical@) ==> {
                &&& final(self)@.seen == old(self)@.seen.push(canonical@)
                &&& match read {
                    HeaderRead::Archs(archs) => {
                        &&& final(self)@.items.len() == old(self)@.items.len() + 1
                        &&& final(self)@.items.drop_last() == old(self)@.items
                        &&& item_from(
                            final(self)@.items.last(),
                            "exec"@,
                            opt_str_or(file_name, "?"@),
                            None,
                            path@,
                            canonical@,
                            source@,
                            spec_labels(archs@),
                            spec_status_str(spec_classify(archs@)),
                        )
                        &&& final(self)@.scripts_skipped == old(self)@.scripts_skipped
                        &&& final(self)@.unreadable == old(self)@.unreadable
                    },
                    HeaderRead::NotMachO => {
                        &&& final(self)@.items == old(self)@.items
                        &&& final(self)@.scripts_skipped == old(self)@.scripts_skipped + 1
                        &&& final(self)@.unreadable == old(self)@.unreadable
                    },
                    HeaderRead::Unreadable => {
                        &&& final(self)@.items == old(self)@.items
                        &&& final(self)@.scripts_skipped == old(self)@.scripts_skipped
                        &&& final(self)@.unreadable == old(self)@.unreadable + 1
                    },
                }
            },
    {
        let mut t = self.take_tally();
        t.add_exec(path, canonical, source, file_name, read);
        *self = ScanState { tally: t };
        proof {
            self.lemma_view_wf();
        }
    }

    /// Records an application bundle found on a source. A canonical path
    /// already visited is skipped, and so is a bundle without an executable;
    /// any other bundle becomes an item, of status "unknown" when its
    /// executable is not a readable Mach-O binary.
    pub fn add_app(
        &mut self,
        path: &str,
        canonical: &str,
        source: &str,
        bundle_stem: Option<&str>,
        info: &InfoPlist,
        exe: ExeProbe,
    )
        requires
            exe matches ExeProbe::Present(HeaderRead::Archs(a)) ==> a@.len() > 0,
        ensures
            final(self)@.wf(),
            final(self)@.has_seen(canonical@),
            final(self)@.scripts_skipped == old(self)@.scripts_skipped,
            final(self)@.unreadable == old(self)@.unreadable,
            old(self)@.has_seen(canonical@) ==> final(self)@ == old(self)@,
            !old(self)@.has_seen(canonical@) ==> {
                &&& final(self)@.seen == old(self)@.seen.push(canonical@)
                &&& match exe {
                    ExeProbe::Missing => final(self)@.items == old(self)@.items,
                    ExeProbe::Present(read) => {
                        &&& final(self)@.items.len() == old(self)@.items.len() + 1
                        &&& final(self)@.items.drop_last() == old(self)@.items
                        &&& item_from(
                            final(self)@.items.last(),
                            "app"@,
                            spec_app_name(*info, bundle_stem),
                            info.version,
                            path@,
                            canonical@,
                            source@,
                            match read {
                                HeaderRead::Archs(archs) => spec_labels(archs@),
                                _ => Seq::empty(),
                            },
                            match read {
                                HeaderRead::Archs(archs) => spec_status_str(spec_classify(archs@)),
                                _ => "unknown"@,
                            },
                        )
                    },
                }
            },
    {
        let mut t = self.take_tally();
        t.add_app(path, canonical, source, bundle_stem, info, exe);
        *self = ScanState { tally: t };
        proof {
            self.lemma_view_wf();
        }
    }

    /// The report of a finished scan: the items in report order, with the
    /// counts of the scan and what the caller gathered about the host.
    pub fn finish(self, host: HostInfo, generated_at: String, scanned_dirs: Vec<String>) -> (r: Report)
        ensures
            forall|k: int| 0 <= k < r.items@.len() ==> item_well_formed(#[trigger] r.items@[k]),
            forall|i: int, j: int|
                0 <= i < j < r.items@.len() ==> #[trigger] r.items@[i].real_path@
                    != #[trigger] r.items@[j].real_path@,
            report_sorted(r.items@),
            r.items@.to_multiset() == self@.items.to_multiset(),
            exists|perm: Seq<int>| stable_arrangement(self@.items, r.items@, perm),
            r.scripts_skipped == self@.scripts_skipped,
            r.unreadable == self@.unreadable,
            r.host == host,
            r.generated_at == generated_at,
            r.scanned_dirs == scanned_dirs,
    {
        proof {
            use_type_invariant(&self);
        }
        let ghost items = self@.items;
        let ScanState { tally } = self;
        assert(tally.items@ == items);
        let r = tally.finish(host, generated_at, scanned_dirs);
        proof {
            let perm = choose|perm: Seq<int>| stable_arrangement(tally.items@, r.items@, perm);
            assert(stable_arrangement(items, r.items@, perm));
        }
        r
    }
}

} // verus!
