use old_app_detector::locale::for_locale;
use old_app_detector::report::{
    csv_field, export_content, export_file_name, to_csv, to_csv_in, to_txt, to_txt_in,
};
use old_app_detector::scan::{HostInfo, Item, Report};

fn sample_report() -> Report {
    Report {
        host: HostInfo {
            hostname: "mac-test".into(),
            arch: "arm64".into(),
            macos_version: "26.7".into(),
            app_version: String::new(),
        },
        generated_at: "16/09/2026 10:00:00".into(),
        scanned_dirs: vec!["/Applications".into()],
        items: vec![
            Item {
                kind: "app".into(),
                name: "Vieille App \"pro\"".into(),
                version: Some("1.0".into()),
                path: "/Applications/Vieille App.app".into(),
                real_path: "/Applications/Vieille App.app".into(),
                source: "Applications".into(),
                archs: vec!["x86_64".into()],
                status: "intel_only".into(),
            },
            Item {
                kind: "exec".into(),
                name: "outil".into(),
                version: None,
                path: "/usr/local/bin/outil".into(),
                real_path: "/usr/local/Cellar/outil/1.0/bin/outil".into(),
                source: "Homebrew".into(),
                archs: vec!["x86_64".into()],
                status: "intel_only".into(),
            },
        ],
        scripts_skipped: 3,
        unreadable: 1,
    }
}

#[test]
fn csv_escapes_quotes_and_has_bom_and_header() {
    let csv = to_csv(&sample_report());
    assert!(csv.starts_with('\u{FEFF}'));
    assert!(csv.contains("type;nom;version;chemin;chemin_reel;source;architectures;statut\r\n"));
    assert!(csv.contains("\"Vieille App \"\"pro\"\"\""));
    assert!(csv.contains("intel_only"));
}

#[test]
fn csv_has_one_data_row_per_item() {
    let csv = to_csv(&sample_report());
    assert_eq!(csv.lines().count(), 1 + 2);
}

#[test]
fn txt_shows_symlink_arrow_for_real_path_mismatch() {
    let txt = to_txt(&sample_report());
    assert!(txt.contains("/usr/local/bin/outil → /usr/local/Cellar/outil/1.0/bin/outil"));
}

#[test]
fn txt_summary_counts_match_items() {
    let txt = to_txt(&sample_report());
    assert!(txt.contains("Apps nécessitant Rosetta 2 (1)"));
    assert!(txt.contains("Scripts ignorés                  : 3"));
    assert!(txt.contains("Illisibles                       : 1"));
}

#[test]
fn csv_field_doubles_quotes() {
    assert_eq!(csv_field("a\"b"), "\"a\"\"b\"");
    assert_eq!(csv_field(""), "\"\"");
    assert_eq!(csv_field("é;x"), "\"é;x\"");
}

#[test]
fn csv_field_unquotes_to_its_text() {
    for text in ["Vieille App \"pro\"", "", "\"", "\"\"\"", "a\\\"b", "x;\"y\";z"] {
        let r = csv_field(text);
        assert!(r.starts_with('"') && r.ends_with('"') && r.len() >= 2);
        assert_eq!(r[1..r.len() - 1].replace("\"\"", "\""), text);
    }
    assert_eq!(csv_field("Vieille App \"pro\""), r#""Vieille App ""pro""""#);
    assert_eq!(csv_field("a\\b"), "\"a\\b\"");
}

#[test]
fn csv_exact_rows() {
    let csv = to_csv(&sample_report());
    let expected = "\u{FEFF}type;nom;version;chemin;chemin_reel;source;architectures;statut\r\n\
\"app\";\"Vieille App \"\"pro\"\"\";\"1.0\";\"/Applications/Vieille App.app\";\"/Applications/Vieille App.app\";\"Applications\";\"x86_64\";\"intel_only\"\r\n\
\"exec\";\"outil\";\"\";\"/usr/local/bin/outil\";\"/usr/local/Cellar/outil/1.0/bin/outil\";\"Homebrew\";\"x86_64\";\"intel_only\"\r\n";
    assert_eq!(csv, expected);
}

#[test]
fn csv_joins_several_archs() {
    let mut r = sample_report();
    r.items[0].archs = vec!["x86_64".into(), "arm64".into()];
    let csv = to_csv(&r);
    assert!(csv.contains("\"x86_64, arm64\""));
}

#[test]
fn txt_exact_document() {
    let txt = to_txt(&sample_report());
    let expected = [
        "=== Audit Rosetta 2 / OldAppDetector ===\n\n",
        "Machine     : mac-test\n",
        "Architecture: arm64\n",
        "macOS       : 26.7\n",
        "Généré le   : 16/09/2026 10:00:00\n",
        "Dossiers scannés :\n",
        "  - /Applications\n",
        "\n",
        "--- Apps nécessitant Rosetta 2 (1) ---\n",
        "  [app] Vieille App \"pro\" (1.0) — /Applications/Vieille App.app — source: Applications — archs: x86_64\n",
        "\n",
        "--- Exécutables nécessitant Rosetta 2 (1) ---\n",
        "  [exec] outil (—) — /usr/local/bin/outil → /usr/local/Cellar/outil/1.0/bin/outil — source: Homebrew — archs: x86_64\n",
        "\n",
        "--- Obsolètes (architecture trop ancienne, déjà inexécutable) (0) ---\n",
        "  (aucun)\n",
        "\n",
        "--- Indéterminés (lecture de l'exécutable impossible) (0) ---\n",
        "  (aucun)\n",
        "\n",
        "--- Résumé ---\n",
        "Apps nécessitant Rosetta 2       : 1\n",
        "Exécutables nécessitant Rosetta 2: 1\n",
        "Obsolètes                        : 0\n",
        "Indéterminés                     : 0\n",
        "Natifs (arm64)                   : 0\n",
        "Scripts ignorés                  : 3\n",
        "Illisibles                       : 1\n",
    ]
    .concat();
    assert_eq!(txt, expected);
}

#[test]
fn txt_summary_counts_cover_every_item() {
    let mut r = sample_report();
    let mut native = r.items[1].clone();
    native.status = "native".into();
    native.archs = vec![];
    let mut unknown = r.items[0].clone();
    unknown.status = "unknown".into();
    unknown.archs = vec![];
    let mut obsolete = r.items[1].clone();
    obsolete.status = "obsolete".into();
    r.items.push(native);
    r.items.push(unknown);
    r.items.push(obsolete);
    r.scripts_skipped = 1234;
    let txt = to_txt(&r);
    assert!(txt.contains("Natifs (arm64)                   : 1\n"));
    assert!(txt.contains("Indéterminés                     : 1\n"));
    assert!(txt.contains("Obsolètes                        : 1\n"));
    assert!(txt.contains("Scripts ignorés                  : 1234\n"));
    assert!(txt.contains("(—) — /usr/local/bin/outil"));
    assert!(txt.contains("archs: —\n"));
}

#[test]
fn export_known_and_unknown_formats() {
    let r = sample_report();
    let (ext, content) = export_content("csv", &r, "fr-FR").unwrap();
    assert_eq!(ext, "csv");
    assert_eq!(content, to_csv(&r));
    let (ext, content) = export_content("txt", &r, "fr").unwrap();
    assert_eq!(ext, "txt");
    assert_eq!(content, to_txt(&r));
    assert_eq!(export_content("pdf", &r, "fr").unwrap_err(), "Format d'export inconnu : pdf");
    assert_eq!(export_content("pdf", &r, "en-US").unwrap_err(), "Unknown export format : pdf");
    assert_eq!(export_file_name("mac-test", "csv"), "audit-rosetta-mac-test.csv");
}

#[test]
fn export_follows_the_locale() {
    let r = sample_report();
    let (_, csv) = export_content("csv", &r, "en-US").unwrap();
    assert!(csv.starts_with("\u{FEFF}type;name;version;path;real_path;source;architectures;status\r\n"));
    let (_, csv) = export_content("csv", &r, "de").unwrap();
    assert!(csv.starts_with("\u{FEFF}type;name;"));
    let (_, txt) = export_content("txt", &r, "en").unwrap();
    assert_eq!(txt, to_txt_in(&r, &for_locale("en")));
    assert!(txt.contains("Host        : mac-test\n"));
    assert!(txt.contains("Generated on: 16/09/2026 10:00:00\n"));
    assert!(txt.contains("--- Apps requiring Rosetta 2 (1) ---\n"));
    assert!(txt.contains("--- Obsolete (architecture too old, already unrunnable) (0) ---\n  (none)\n"));
    assert!(txt.contains("— source: Homebrew — archs: x86_64\n"));
    assert!(txt.contains("--- Summary ---\n"));
    assert!(txt.contains("Apps requiring Rosetta 2       : 1\n"));
    assert!(txt.contains("Executables requiring Rosetta 2: 1\n"));
    assert!(txt.contains("Unreadable                     : 1\n"));
    assert_eq!(to_csv_in(&r, &for_locale("fr")), to_csv(&r));
}

#[test]
fn summary_colons_share_a_column() {
    let txt = to_txt(&sample_report());
    let summary = txt.split("--- Résumé ---\n").nth(1).unwrap();
    let columns: Vec<usize> = summary
        .lines()
        .map(|l| l.chars().position(|c| c == ':').unwrap())
        .collect();
    assert_eq!(columns.len(), 7);
    assert!(columns.iter().all(|&c| c == 33));
}
