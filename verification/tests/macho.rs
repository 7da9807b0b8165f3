use old_app_detector::macho::{
    archs_from_header, classify, Arch, Status, CPU_TYPE_ARM64, CPU_TYPE_I386, CPU_TYPE_POWERPC,
    CPU_TYPE_X86_64, FAT_MAGIC, FAT_MAGIC_64, MH_CIGAM, MH_MAGIC, MH_MAGIC_64,
};

fn thin_header(magic: u32, cputype: u32, big_endian: bool) -> Vec<u8> {
    let mut v = Vec::new();
    v.extend_from_slice(&magic.to_le_bytes());
    let ct = if big_endian {
        cputype.to_be_bytes()
    } else {
        cputype.to_le_bytes()
    };
    v.extend_from_slice(&ct);
    v.extend_from_slice(&[0u8; 8]);
    v
}

fn fat_header(archs: &[u32]) -> Vec<u8> {
    let mut v = Vec::new();
    v.extend_from_slice(&FAT_MAGIC.to_le_bytes());
    v.extend_from_slice(&(archs.len() as u32).to_be_bytes());
    for cputype in archs {
        v.extend_from_slice(&cputype.to_be_bytes());
        v.extend_from_slice(&[0u8; 16]);
    }
    v
}

fn fat64_header(archs: &[u32]) -> Vec<u8> {
    let mut v = Vec::new();
    v.extend_from_slice(&FAT_MAGIC_64.to_le_bytes());
    v.extend_from_slice(&(archs.len() as u32).to_be_bytes());
    for cputype in archs {
        v.extend_from_slice(&cputype.to_be_bytes());
        v.extend_from_slice(&[0u8; 28]);
    }
    v
}

#[test]
fn thin_x86_64_le() {
    let buf = thin_header(MH_MAGIC_64, CPU_TYPE_X86_64, false);
    assert_eq!(archs_from_header(&buf), Some(vec![Arch::X86_64]));
}

#[test]
fn thin_arm64_le() {
    let buf = thin_header(MH_MAGIC_64, CPU_TYPE_ARM64, false);
    assert_eq!(archs_from_header(&buf), Some(vec![Arch::Arm64]));
}

#[test]
fn thin_ppc_big_endian() {
    let buf = thin_header(MH_CIGAM, CPU_TYPE_POWERPC, true);
    assert_eq!(archs_from_header(&buf), Some(vec![Arch::PowerPc]));
    assert_eq!(classify(&[Arch::PowerPc]), Status::Obsolete);
}

#[test]
fn fat_x86_64_plus_arm64() {
    let buf = fat_header(&[CPU_TYPE_X86_64, CPU_TYPE_ARM64]);
    let archs = archs_from_header(&buf).unwrap();
    assert_eq!(archs.len(), 2);
    assert!(archs.contains(&Arch::X86_64));
    assert!(archs.contains(&Arch::Arm64));
    assert_eq!(classify(&archs), Status::Native);
}

#[test]
fn fat_x86_64_only_is_intel_only() {
    let buf = fat_header(&[CPU_TYPE_X86_64]);
    let archs = archs_from_header(&buf).unwrap();
    assert_eq!(classify(&archs), Status::IntelOnly);
}

#[test]
fn java_class_file_is_not_a_fat_macho() {
    let mut v = vec![0xCA, 0xFE, 0xBA, 0xBE];
    v.extend_from_slice(&0u16.to_be_bytes());
    v.extend_from_slice(&61u16.to_be_bytes());
    v.extend_from_slice(&[0u8; 20]);
    assert_eq!(archs_from_header(&v), None);
}

#[test]
fn shebang_script_is_none() {
    let buf = b"#!/bin/bash\necho hi\n".to_vec();
    assert_eq!(archs_from_header(&buf), None);
}

#[test]
fn empty_file_is_none() {
    assert_eq!(archs_from_header(&[]), None);
}

#[test]
fn too_short_for_cputype_is_none() {
    let buf = MH_MAGIC_64.to_le_bytes().to_vec();
    assert_eq!(archs_from_header(&buf), None);
}

#[test]
fn thin_32_bit_i386_le() {
    let buf = thin_header(MH_MAGIC, CPU_TYPE_I386, false);
    assert_eq!(archs_from_header(&buf), Some(vec![Arch::I386]));
    assert_eq!(classify(&[Arch::I386]), Status::Obsolete);
}

#[test]
fn thin_unknown_cputype_is_none() {
    let buf = thin_header(MH_MAGIC_64, 0x0100_0099, false);
    assert_eq!(archs_from_header(&buf), None);
}

#[test]
fn thin_header_read_back_ignores_trailing_bytes() {
    let mut buf = thin_header(MH_MAGIC_64, CPU_TYPE_ARM64, false);
    buf.extend_from_slice(&[0xff; 100]);
    assert_eq!(archs_from_header(&buf), Some(vec![Arch::Arm64]));
}

#[test]
fn fat_64_entries_are_32_bytes() {
    let buf = fat64_header(&[CPU_TYPE_ARM64, CPU_TYPE_X86_64]);
    assert_eq!(archs_from_header(&buf), Some(vec![Arch::Arm64, Arch::X86_64]));
}

#[test]
fn fat_cigam_on_disk_bytes_are_read() {
    // CA FE BA BE on disk, as universal binaries are stored.
    let mut v = vec![0xCA, 0xFE, 0xBA, 0xBE];
    v.extend_from_slice(&1u32.to_be_bytes());
    v.extend_from_slice(&CPU_TYPE_X86_64.to_be_bytes());
    v.extend_from_slice(&[0u8; 16]);
    assert_eq!(archs_from_header(&v), Some(vec![Arch::X86_64]));
}

#[test]
fn fat_unknown_slices_are_skipped_and_all_unknown_is_none() {
    let buf = fat_header(&[0x0100_0099, CPU_TYPE_ARM64]);
    assert_eq!(archs_from_header(&buf), Some(vec![Arch::Arm64]));
    let buf = fat_header(&[0x0100_0099]);
    assert_eq!(archs_from_header(&buf), None);
}

#[test]
fn fat_cut_before_last_slice_is_none() {
    let mut buf = fat_header(&[CPU_TYPE_X86_64, CPU_TYPE_ARM64]);
    buf.truncate(8 + 20 + 3);
    assert_eq!(archs_from_header(&buf), None);
}

#[test]
fn fat_slice_count_limits() {
    let mut zero = FAT_MAGIC.to_le_bytes().to_vec();
    zero.extend_from_slice(&0u32.to_be_bytes());
    assert_eq!(archs_from_header(&zero), None);
    let many: Vec<u32> = vec![CPU_TYPE_ARM64; 30];
    assert_eq!(archs_from_header(&fat_header(&many)), None);
    let most: Vec<u32> = vec![CPU_TYPE_ARM64; 29];
    assert_eq!(archs_from_header(&fat_header(&most)).map(|v| v.len()), Some(29));
}

#[test]
fn classify_prefers_arm64_then_x86_64() {
    assert_eq!(classify(&[Arch::X86_64, Arch::Arm64]), Status::Native);
    assert_eq!(classify(&[Arch::I386, Arch::X86_64]), Status::IntelOnly);
    assert_eq!(classify(&[]), Status::Obsolete);
}

#[test]
fn labels_and_status_strings() {
    assert_eq!(Arch::Arm64.label(), "arm64");
    assert_eq!(Arch::X86_64.label(), "x86_64");
    assert_eq!(Arch::I386.label(), "i386");
    assert_eq!(Arch::Arm.label(), "arm");
    assert_eq!(Arch::PowerPc.label(), "ppc");
    assert_eq!(Status::Native.as_str(), "native");
    assert_eq!(Status::IntelOnly.as_str(), "intel_only");
    assert_eq!(Status::Obsolete.as_str(), "obsolete");
    assert_eq!(Arch::from_cputype(0x0100_0012), Some(Arch::PowerPc));
    assert_eq!(Arch::from_cputype(12), Some(Arch::Arm));
    assert_eq!(Arch::from_cputype(0), None);
}
