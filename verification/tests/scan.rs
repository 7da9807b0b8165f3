use old_app_detector::macho::{archs_from_header, Arch};
use old_app_detector::scan::{
    expand_extra_dir, has_app_extension, host_info_from, is_executable_mode, short_version,
    sort_items, status_rank, walk_step, ExeProbe, HeaderRead, InfoPlist, Item, ScanState, WalkStep,
    scan_plan, PlannedSource, ScanOptions, bundle_layout, BundleLayout,
};

fn thin_x86_64() -> Vec<u8> {
    let mut bytes = vec![0xCFu8, 0xFAu8, 0xEDu8, 0xFEu8];
    bytes.extend_from_slice(&0x0100_0007u32.to_le_bytes());
    bytes.extend_from_slice(&[0u8; 8]);
    bytes
}

fn thin_arm64() -> Vec<u8> {
    let mut bytes = vec![0xCFu8, 0xFAu8, 0xEDu8, 0xFEu8];
    bytes.extend_from_slice(&0x0100_000Cu32.to_le_bytes());
    bytes.extend_from_slice(&[0u8; 8]);
    bytes
}

fn header_read(bytes: &[u8]) -> HeaderRead {
    match archs_from_header(bytes) {
        Some(a) => HeaderRead::Archs(a),
        None => HeaderRead::NotMachO,
    }
}

#[test]
fn short_version_strips_trailing_zero_patch() {
    assert_eq!(short_version("0.1.0"), "0.1");
    assert_eq!(short_version("1.0.0"), "1.0");
    assert_eq!(short_version("1.2.3"), "1.2.3");
}

#[test]
fn short_version_edge_cases() {
    assert_eq!(short_version(".0"), "");
    assert_eq!(short_version("0"), "0");
    assert_eq!(short_version("1.10"), "1.10");
}

#[test]
fn fake_app_bundle_is_intel_only() {
    let info = InfoPlist {
        executable: Some("Foo".to_string()),
        version: Some("1.2.3".to_string()),
        name: None,
        display_name: Some("Foo App".to_string()),
    };
    assert_eq!(info.executable.as_deref(), Some("Foo"));
    let mut state = ScanState::new();
    state.add_app(
        "/tmp/Foo.app",
        "/tmp/Foo.app",
        "Test",
        Some("Foo"),
        &info,
        ExeProbe::Present(header_read(&thin_x86_64())),
    );
    let items = state.items();
    assert_eq!(items.len(), 1);
    assert_eq!(items[0].status, "intel_only");
    assert_eq!(items[0].name, "Foo App");
    assert_eq!(items[0].version.as_deref(), Some("1.2.3"));
}

#[test]
fn fake_exec_is_intel_only_and_script_is_skipped() {
    let mut state = ScanState::new();
    state.add_exec("/tmp/d/mytool", "/tmp/d/mytool", "Test", Some("mytool"), header_read(&thin_x86_64()));
    state.add_exec(
        "/tmp/d/myscript.sh",
        "/tmp/d/myscript.sh",
        "Test",
        Some("myscript.sh"),
        header_read(b"#!/bin/sh\necho hi\n"),
    );
    assert_eq!(state.items().len(), 1);
    assert_eq!(state.items()[0].status, "intel_only");
    assert_eq!(state.items()[0].kind, "exec");
    assert_eq!(state.scripts_skipped(), 1);
}

#[test]
fn dedup_by_canonical_path_skips_second_hit() {
    let mut state = ScanState::new();
    state.add_exec("/tmp/d/tool", "/tmp/d/tool", "First", Some("tool"), header_read(&thin_x86_64()));
    state.add_exec("/tmp/d/tool", "/tmp/d/tool", "Second", Some("tool"), header_read(&thin_x86_64()));
    assert_eq!(state.items().len(), 1, "le second passage sur le même chemin réel ne doit pas dupliquer");
    assert_eq!(state.items()[0].source, "First");
}

#[test]
fn app_bundle_not_descended_into() {
    // The walk of the test folder, 4 levels down, meets Nested.app: it is
    // reported as a bundle, never walked, so the helper inside is not seen;
    // a plain folder in its place would have been walked 3 levels down.
    assert_eq!(walk_step(4, true, false, 0o755, "Nested.app"), WalkStep::Bundle);
    assert_eq!(walk_step(4, true, false, 0o755, "Contents"), WalkStep::Descend(3));
    assert_eq!(walk_step(3, false, true, 0o755, "sneaky"), WalkStep::Executable);
    assert_eq!(walk_step(3, false, true, 0o644, "Info.plist"), WalkStep::Skip);
}

#[test]
fn walk_depth_counts_down_to_the_last_level() {
    assert_eq!(walk_step(2, true, false, 0o755, "bin"), WalkStep::Descend(1));
    // On the last level a subdirectory is not listed, files still are.
    assert_eq!(walk_step(1, true, false, 0o755, "bin"), WalkStep::Skip);
    assert_eq!(walk_step(1, false, true, 0o700, "tool"), WalkStep::Executable);
    assert_eq!(walk_step(1, true, false, 0o755, "Tool.app"), WalkStep::Bundle);
    // A walk with no level left takes nothing.
    assert_eq!(walk_step(0, false, true, 0o755, "tool"), WalkStep::Skip);
    assert_eq!(walk_step(0, true, false, 0o755, "Tool.app"), WalkStep::Skip);
    assert_eq!(walk_step(u32::MAX, true, false, 0o755, "d"), WalkStep::Descend(u32::MAX - 1));
}

#[test]
fn app_name_prefers_display_name_then_name() {
    let info = InfoPlist {
        executable: None,
        version: Some("2.0".to_string()),
        name: Some("Bar Name".to_string()),
        display_name: None,
    };
    let mut state = ScanState::new();
    state.add_app(
        "/A/Bar.app",
        "/A/Bar.app",
        "S",
        Some("Bar"),
        &info,
        ExeProbe::Present(header_read(&thin_arm64())),
    );
    assert_eq!(state.items()[0].name, "Bar Name");
    assert_eq!(state.items()[0].version.as_deref(), Some("2.0"));
    assert_eq!(old_app_detector::scan::app_executable_name(&info, Some("Bar")), "Bar");
}

#[test]
fn ios_wrapped_app_resolves_to_wrapped_binary() {
    let info = InfoPlist { executable: Some("Foo".to_string()), version: None, name: None, display_name: None };
    let mut state = ScanState::new();
    state.add_app(
        "/tmp/t/Foo.app",
        "/tmp/t/Foo.app",
        "Test",
        Some("Foo"),
        &info,
        ExeProbe::Present(header_read(&thin_arm64())),
    );
    assert_eq!(state.items().len(), 1);
    assert_eq!(state.items()[0].status, "native");
    assert_eq!(state.items()[0].path, "/tmp/t/Foo.app");
    assert_eq!(state.items()[0].name, "Foo");
}

#[test]
fn template_app_without_executable_is_skipped() {
    let info = InfoPlist::empty();
    assert!(info.executable.is_none());
    let mut state = ScanState::new();
    state.add_app("/tmp/WebApp.app", "/tmp/WebApp.app", "Test", Some("WebApp"), &info, ExeProbe::Missing);
    assert!(state.items().is_empty(), "une web-app sans exécutable ne doit produire aucun item");
}

#[test]
fn app_name_falls_back_to_bundle_name() {
    let info = InfoPlist::empty();
    let mut state = ScanState::new();
    state.add_app("/A/Bar.app", "/A/Bar.app", "S", Some("Bar"), &info, ExeProbe::Present(HeaderRead::Unreadable));
    assert_eq!(state.items()[0].name, "Bar");
    assert_eq!(state.items()[0].status, "unknown");
    assert!(state.items()[0].archs.is_empty());
    assert_eq!(state.items()[0].kind, "app");
    assert_eq!(old_app_detector::scan::app_executable_name(&info, None), "?");
}

#[test]
fn unreadable_exec_is_counted() {
    let mut state = ScanState::new();
    state.add_exec("/x", "/x", "S", None, HeaderRead::Unreadable);
    assert_eq!(state.unreadable(), 1);
    assert!(state.items().is_empty());
    state.add_exec("/y", "/y", "S", None, HeaderRead::Archs(vec![Arch::Arm64, Arch::X86_64]));
    assert_eq!(state.items()[0].name, "?");
    assert_eq!(state.items()[0].archs, vec!["arm64".to_string(), "x86_64".to_string()]);
    assert_eq!(state.items()[0].status, "native");
}

fn item(name: &str, status: &str, path: &str) -> Item {
    Item {
        kind: "exec".into(),
        name: name.into(),
        version: None,
        path: path.into(),
        real_path: path.into(),
        source: "S".into(),
        archs: vec![],
        status: status.into(),
    }
}

#[test]
fn items_sorted_by_status_then_name_stably() {
    let mut items = vec![
        item("b", "native", "/1"),
        item("a", "native", "/2"),
        item("z", "intel_only", "/3"),
        item("m", "unknown", "/4"),
        item("c", "obsolete", "/5"),
        item("a", "native", "/6"),
    ];
    sort_items(&mut items);
    let order: Vec<&str> = items.iter().map(|i| i.path.as_str()).collect();
    assert_eq!(order, vec!["/3", "/5", "/4", "/2", "/6", "/1"]);
    assert_eq!(status_rank("intel_only"), 0);
    assert_eq!(status_rank("native"), 3);
    assert_eq!(status_rank("anything"), 3);
}

#[test]
fn finish_sorts_and_keeps_counts() {
    let mut state = ScanState::new();
    state.add_exec("/n", "/n", "S", Some("n"), HeaderRead::Archs(vec![Arch::Arm64]));
    state.add_exec("/i", "/i", "S", Some("i"), HeaderRead::Archs(vec![Arch::X86_64]));
    state.add_exec("/s", "/s", "S", Some("s"), HeaderRead::NotMachO);
    let host = host_info_from(None, "aarch64", Some("14.5".into()), "0.1.0");
    let report = state.finish(host, String::new(), vec![]);
    assert_eq!(report.items[0].name, "i");
    assert_eq!(report.items[1].name, "n");
    assert_eq!(report.scripts_skipped, 1);
    assert_eq!(report.host.hostname, "inconnu");
    assert_eq!(report.host.arch, "arm64");
    assert_eq!(report.host.macos_version, "14.5");
    assert_eq!(report.host.app_version, "0.1");
}

#[test]
fn host_info_keeps_given_values() {
    let h = host_info_from(Some("mac".into()), "x86_64", None, "1.2.3");
    assert_eq!(h.hostname, "mac");
    assert_eq!(h.arch, "x86_64");
    assert_eq!(h.macos_version, "inconnue");
    assert_eq!(h.app_version, "1.2.3");
}

#[test]
fn extra_dirs_are_trimmed_and_expanded() {
    assert_eq!(expand_extra_dir("  ~/bin \n", "/Users/me"), Some("/Users/me/bin".to_string()));
    assert_eq!(expand_extra_dir("/opt/x", "/Users/me"), Some("/opt/x".to_string()));
    assert_eq!(expand_extra_dir(" \t ", "/Users/me"), None);
    assert_eq!(expand_extra_dir("~", "/Users/me"), Some("~".to_string()));
    assert_eq!(expand_extra_dir("\u{a0}/srv\u{3000}", "/h"), Some("/srv".to_string()));
}

#[test]
fn app_extension_and_modes() {
    assert!(has_app_extension("Foo.app"));
    assert!(has_app_extension("a.b.app"));
    assert!(!has_app_extension(".app"));
    assert!(!has_app_extension("Foo.apps"));
    assert!(!has_app_extension("app"));
    assert!(is_executable_mode(0o100));
    assert!(is_executable_mode(0o001));
    assert!(!is_executable_mode(0o644));
}

#[test]
fn scan_plan_follows_the_options() {
    let describe = |p: &PlannedSource| match p {
        PlannedSource::Folder { path, depth, source } => format!("dir {path} {depth} {source}"),
        PlannedSource::Spotlight { listed, source } => format!("spotlight {listed} {source}"),
        PlannedSource::LoginShellPath { listed, depth, source } => {
            format!("path {listed} {depth} {source}")
        }
        PlannedSource::Homebrew { depth, source } => format!("brew {depth} {source}"),
    };
    let all = ScanOptions {
        apps: true,
        spotlight: true,
        path: true,
        homebrew: true,
        macports: true,
        extra_dirs: vec![" ~/outils ".into(), "   ".into(), "/srv/bin".into()],
    };
    let plan: Vec<String> = scan_plan(&all, "/Users/me").iter().map(describe).collect();
    assert_eq!(
        plan,
        vec![
            "dir /Applications 4 Applications",
            "dir /Users/me/Applications 4 Applications",
            "spotlight Spotlight (mdfind) Spotlight",
            "path $PATH (shell de connexion) 1 PATH",
            "brew 1 Homebrew",
            "dir /opt/local/bin 1 MacPorts",
            "dir /opt/local/sbin 1 MacPorts",
            "dir /Users/me/outils 4 Dossier supplémentaire",
            "dir /srv/bin 4 Dossier supplémentaire",
        ]
    );
    let only_ports = ScanOptions {
        apps: false,
        spotlight: false,
        path: false,
        homebrew: false,
        macports: true,
        extra_dirs: vec![],
    };
    let plan: Vec<String> = scan_plan(&only_ports, "/h").iter().map(describe).collect();
    assert_eq!(plan, vec!["dir /opt/local/bin 1 MacPorts", "dir /opt/local/sbin 1 MacPorts"]);
}

#[test]
fn bundle_layout_prefers_contents() {
    assert_eq!(bundle_layout(true, Some(true)), BundleLayout::Classic);
    assert_eq!(bundle_layout(false, Some(true)), BundleLayout::Wrapped);
    assert_eq!(bundle_layout(false, Some(false)), BundleLayout::Classic);
    assert_eq!(bundle_layout(false, None), BundleLayout::Classic);
}
