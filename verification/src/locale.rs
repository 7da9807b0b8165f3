//! The labels of the text and CSV reports, in English and in French.

use vstd::prelude::*;
use crate::text::str_eq;

verus! {

#[derive(Debug, Clone, Copy)]
pub struct Strings {
    pub host_label: &'static str,
    pub arch_label: &'static str,
    pub macos_label: &'static str,
    pub generated_label: &'static str,
    pub scanned_dirs_label: &'static str,
    pub apps_intel_title: &'static str,
    pub execs_intel_title: &'static str,
    pub obsolete_title: &'static str,
    pub unknown_title: &'static str,
    pub none_label: &'static str,
    pub source_label: &'static str,
    pub archs_label: &'static str,
    pub summary_title: &'static str,
    pub summary_apps_intel: &'static str,
    pub summary_execs_intel: &'static str,
    pub summary_obsolete: &'static str,
    pub summary_unknown: &'static str,
    pub summary_native: &'static str,
    pub summary_scripts_skipped: &'static str,
    pub summary_unreadable: &'static str,
    pub unknown_format_error: &'static str,
    pub csv_header: &'static str,
}

pub open spec fn spec_en_strings() -> Strings {
    Strings {
        host_label: "Host",
        arch_label: "Architecture",
        macos_label: "macOS",
        generated_label: "Generated on",
        scanned_dirs_label: "Scanned folders:",
        apps_intel_title: "Apps requiring Rosetta 2",
        execs_intel_title: "Executables requiring Rosetta 2",
        obsolete_title: "Obsolete (architecture too old, already unrunnable)",
        unknown_title: "Unknown (unable to read the executable)",
        none_label: "(none)",
        source_label: "source",
        archs_label: "archs",
        summary_title: "--- Summary ---",
        summary_apps_intel: "Apps requiring Rosetta 2",
        summary_execs_intel: "Executables requiring Rosetta 2",
        summary_obsolete: "Obsolete",
        summary_unknown: "Unknown",
        summary_native: "Native (arm64)",
        summary_scripts_skipped: "Scripts skipped",
        summary_unreadable: "Unreadable",
        unknown_format_error: "Unknown export format",
        csv_header: "type;name;version;path;real_path;source;architectures;status",
    }
}

pub open spec fn spec_fr_strings() -> Strings {
    Strings {
        host_label: "Machine",
        arch_label: "Architecture",
        macos_label: "macOS",
        generated_label: "Généré le",
        scanned_dirs_label: "Dossiers scannés :",
        apps_intel_title: "Apps nécessitant Rosetta 2",
        execs_intel_title: "Exécutables nécessitant Rosetta 2",
        obsolete_title: "Obsolètes (architecture trop ancienne, déjà inexécutable)",
        unknown_title: "Indéterminés (lecture de l'exécutable impossible)",
        none_label: "(aucun)",
        source_label: "source",
        archs_label: "archs",
        summary_title: "--- Résumé ---",
        summary_apps_intel: "Apps nécessitant Rosetta 2",
        summary_execs_intel: "Exécutables nécessitant Rosetta 2",
        summary_obsolete: "Obsolètes",
        summary_unknown: "Indéterminés",
        summary_native: "Natifs (arm64)",
        summary_scripts_skipped: "Scripts ignorés",
        summary_unreadable: "Illisibles",
        unknown_format_error: "Format d'export inconnu",
        csv_header: "type;nom;version;chemin;chemin_reel;source;architectures;statut",
    }
}

pub fn en_strings() -> (r: Strings)
    ensures
        r == spec_en_strings(),
{
    Strings {
        host_label: "Host",
        arch_label: "Architecture",
        macos_label: "macOS",
        generated_label: "Generated on",
        scanned_dirs_label: "Scanned folders:",
        apps_intel_title: "Apps requiring Rosetta 2",
        execs_intel_title: "Executables requiring Rosetta 2",
        obsolete_title: "Obsolete (architecture too old, already unrunnable)",
        unknown_title: "Unknown (unable to read the executable)",
        none_label: "(none)",
        source_label: "source",
        archs_label: "archs",
        summary_title: "--- Summary ---",
        summary_apps_intel: "Apps requiring Rosetta 2",
        summary_execs_intel: "Executables requiring Rosetta 2",
        summary_obsolete: "Obsolete",
        summary_unknown: "Unknown",
        summary_native: "Native (arm64)",
        summary_scripts_skipped: "Scripts skipped",
        summary_unreadable: "Unreadable",
        unknown_format_error: "Unknown export format",
        csv_header: "type;name;version;path;real_path;source;architectures;status",
    }
}

pub fn fr_strings() -> (r: Strings)
    ensures
        r == spec_fr_strings(),
{
    Strings {
        host_label: "Machine",
        arch_label: "Architecture",
        macos_label: "macOS",
        generated_label: "Généré le",
        scanned_dirs_label: "Dossiers scannés :",
        apps_intel_title: "Apps nécessitant Rosetta 2",
        execs_intel_title: "Exécutables nécessitant Rosetta 2",
        obsolete_title: "Obsolètes (architecture trop ancienne, déjà inexécutable)",
        unknown_title: "Indéterminés (lecture de l'exécutable impossible)",
        none_label: "(aucun)",
        source_label: "source",
        archs_label: "archs",
        summary_title: "--- Résumé ---",
        summary_apps_intel: "Apps nécessitant Rosetta 2",
        summary_execs_intel: "Exécutables nécessitant Rosetta 2",
        summary_obsolete: "Obsolètes",
        summary_unknown: "Indéterminés",
        summary_native: "Natifs (arm64)",
        summary_scripts_skipped: "Scripts ignorés",
        summary_unreadable: "Illisibles",
        unknown_format_error: "Format d'export inconnu",
        csv_header: "type;nom;version;chemin;chemin_reel;source;architectures;statut",
    }
}

/// The primary subtag of a locale: what comes before the first '-'.
pub open spec fn primary_subtag(locale: Seq<char>) -> Seq<char>
    decreases locale.len(),
{
    if locale.len() == 0 || locale[0] == '-' {
        Seq::empty()
    } else {
        seq![locale[0]] + primary_subtag(locale.drop_first())
    }
}

pub fn primary_subtag_of(locale: &str) -> (r: &str)
    ensures
        r@ == primary_subtag(locale@),
{
    let n = locale.unicode_len();
    let mut i: usize = 0;
    proof {
        assert(locale@.skip(0) =~= locale@);
        assert(locale@.take(0) + locale@ =~= locale@);
    }
    while i < n && locale.get_char(i) != '-'
        invariant
            n == locale@.len(),
            0 <= i <= n,
            forall|k: int| 0 <= k < i ==> locale@[k] != '-',
            primary_subtag(locale@) == locale@.take(i as int) + primary_subtag(locale@.skip(i as int)),
        decreases n - i,
    {
        proof {
            let rest = locale@.skip(i as int);
            assert(rest.drop_first() =~= locale@.skip(i + 1));
            assert(locale@.take(i + 1) =~= locale@.take(i as int) + seq![rest[0]]);
        }
        i = i + 1;
    }
    proof {
        assert(primary_subtag(locale@.skip(i as int)) =~= Seq::<char>::empty());
        assert(locale@.subrange(0, i as int) =~= locale@.take(i as int));
    }
    locale.substring_char(0, i)
}

/// The labels for a locale: French for any "fr" locale ("fr", "fr-FR",
/// "fr-CA"...), English for every other.
pub fn for_locale(locale: &str) -> (r: Strings)
    ensures
        primary_subtag(locale@) == "fr"@ ==> r == spec_fr_strings(),
        primary_subtag(locale@) != "fr"@ ==> r == spec_en_strings(),
{
    if str_eq(primary_subtag_of(locale), "fr") {
        fr_strings()
    } else {
        en_strings()
    }
}

} // verus!
