use mempe::error::AppError;
use mempe::pe::directories::clear_bad_directories;
use mempe::pe::exports::ExportIndex;
use mempe::pe::headers::IMAGE_SCN_CNT_CODE;
use mempe::pe::imports::{analyze, decode_x64_thunk, decode_x86_thunk};
use mempe::pe::layout::layout_sections;
use mempe::pe::merge::merge_header_evidence;
use mempe::pe::parse::parse_memory_image;
use mempe::pe::rebuild::{rebuild, RebuiltImage};
use mempe::pe::recover::{
    recover_section_headers, recovered_characteristics, ProtectionCoverage, IMAGE_SCN_MEM_EXECUTE, IMAGE_SCN_MEM_READ,
    IMAGE_SCN_MEM_WRITE,
};
use mempe::pe::{EntryPointRva, PeKind, RegionEvidence};
use pelite::PeFile;

#[test]
fn rebuilds_a_memory_layout_pe32_plus() -> Result<(), AppError> {
    let memory = fixture_pe64();
    let rebuilt = rebuild(
        &memory,
        &[],
        0x0000_7FF6_0000_0000,
        None,
        &ExportIndex::default(),
        None,
    )?;

    assert!(!rebuilt.is_dll);
    assert_eq!(rebuilt.section_count, 1);
    assert!(PeFile::from_bytes(&rebuilt.bytes).is_ok());
    assert_eq!(&rebuilt.bytes[0x200..0x204], &[0x90, 0x90, 0xC3, 0]);
    Ok(())
}

#[test]
fn rebuilds_a_memory_layout_pe32_dll() -> Result<(), AppError> {
    let memory = fixture_pe32();
    let rebuilt = rebuild(
        &memory,
        &[],
        0x0040_0000,
        None,
        &ExportIndex::default(),
        None,
    )?;

    assert!(rebuilt.is_dll);
    assert_eq!(rebuilt.kind, PeKind::Pe32);
    assert!(PeFile::from_bytes(&rebuilt.bytes).is_ok());
    assert_eq!(&rebuilt.bytes[0x200..0x204], &[0x55, 0x8B, 0xEC, 0xC3]);
    Ok(())
}

#[test]
fn restores_damaged_headers_from_disk_structure() -> Result<(), AppError> {
    let mut disk = fixture_pe64();
    put_u32(&mut disk, 0x98 + 60, 0x000F_0000);
    let mut memory = disk.clone();
    memory[..0x200].fill(0);

    let rebuilt = rebuild(
        &memory,
        &[],
        0x0000_7FF6_0000_0000,
        Some(&disk),
        &ExportIndex::default(),
        None,
    )?;

    assert!(rebuilt.disk_headers_used);
    assert!(PeFile::from_bytes(&rebuilt.bytes).is_ok());
    assert_eq!(&rebuilt.bytes[0x200..0x204], &[0x90, 0x90, 0xC3, 0]);
    Ok(())
}

#[test]
fn preserves_valid_memory_entry_point_during_disk_merge()
-> Result<(), AppError> {
    let disk = fixture_pe64();
    let mut memory = disk.clone();
    put_u32(&mut memory, 0x80, 0);
    put_u32(&mut memory, 0x98 + 16, 0x1001);

    let rebuilt = rebuild(
        &memory,
        &[],
        0x0000_7FF6_0000_0000,
        Some(&disk),
        &ExportIndex::default(),
        None,
    )?;

    assert!(rebuilt.disk_headers_used);
    assert_eq!(get_u32(&rebuilt.bytes, 0x98 + 16), 0x1001);
    Ok(())
}

#[test]
fn rejects_disk_headers_that_conflict_with_memory_architecture() {
    let disk = fixture_pe64();
    let mut memory = disk.clone();
    put_u32(&mut memory, 0x80, 0);
    put_u16(&mut memory, 0x84, 0x014C);

    let result = rebuild(
        &memory,
        &[],
        0x0000_7FF6_0000_0000,
        Some(&disk),
        &ExportIndex::default(),
        None,
    );

    assert!(result.is_err());
}

#[test]
fn applies_only_valid_manual_entry_points() -> Result<(), AppError> {
    let memory = fixture_pe64();
    let valid = EntryPointRva::new(0x1002).ok_or(AppError::fixed("valid entry point is missing"))?;
    let invalid = EntryPointRva::new(0x180).ok_or(AppError::fixed("invalid test entry point is missing"))?;

    let rebuilt = rebuild(
        &memory,
        &[],
        0x0000_7FF6_0000_0000,
        None,
        &ExportIndex::default(),
        Some(valid),
    )?;
    let invalid_result = rebuild(
        &memory,
        &[],
        0x0000_7FF6_0000_0000,
        None,
        &ExportIndex::default(),
        Some(invalid),
    );

    assert_eq!(get_u32(&rebuilt.bytes, 0x98 + 16), 0x1002);
    assert!(invalid_result.is_err());
    Ok(())
}

#[test]
fn recalculates_derived_optional_header_fields() -> Result<(), AppError> {
    let mut memory = fixture_pe64();
    let section = 0x98 + 0xF0;
    put_u32(&mut memory, 0x98 + 4, 1);
    put_u32(&mut memory, 0x98 + 8, 2);
    put_u32(&mut memory, 0x98 + 12, 3);
    put_u32(&mut memory, 0x98 + 20, 4);
    put_u32(&mut memory, section + 36, 0xE000_00E0);

    let rebuilt = rebuild(
        &memory,
        &[],
        0x0000_7FF6_0000_0000,
        None,
        &ExportIndex::default(),
        None,
    )?;

    assert_eq!(get_u32(&rebuilt.bytes, 0x98 + 4), 0x1000);
    assert_eq!(get_u32(&rebuilt.bytes, 0x98 + 8), 0x1000);
    assert_eq!(get_u32(&rebuilt.bytes, 0x98 + 12), 0x1000);
    assert_eq!(get_u32(&rebuilt.bytes, 0x98 + 20), 0x1000);
    Ok(())
}

#[test]
fn removes_invalid_x64_unwind_entries() -> Result<(), AppError> {
    let mut memory = fixture_pe64();
    let optional = 0x98;
    put_u32(&mut memory, optional + 112 + 3 * 8, 0x1100);
    put_u32(&mut memory, optional + 112 + 3 * 8 + 4, 12);
    put_u32(&mut memory, 0x1100, 0x1000);
    put_u32(&mut memory, 0x1104, 0x1010);
    put_u32(&mut memory, 0x1108, 0x1200);

    let rebuilt = rebuild(
        &memory,
        &[],
        0x0000_7FF6_0000_0000,
        None,
        &ExportIndex::default(),
        None,
    )?;

    assert_eq!(rebuilt.invalid_unwind_entries, 1);
    assert!(PeFile::from_bytes(&rebuilt.bytes).is_ok());
    Ok(())
}

#[test]
fn recovers_section_access_from_committed_memory() -> Result<(), AppError> {
    let mut memory = fixture_pe64();
    let section = 0x98 + 0xF0;
    put_u32(&mut memory, section + 36, IMAGE_SCN_CNT_CODE);
    let regions = [RegionEvidence {
        offset: 0x1000,
        size: 0x1000,
        readable: true,
        writable: false,
        executable: true,
    }];

    let rebuilt = rebuild(
        &memory,
        &regions,
        0x0000_7FF6_0000_0000,
        None,
        &ExportIndex::default(),
        None,
    )?;
    let characteristics = get_u32(&rebuilt.bytes, section + 36);

    assert_ne!(characteristics & IMAGE_SCN_MEM_EXECUTE, 0);
    assert_ne!(characteristics & IMAGE_SCN_MEM_READ, 0);
    assert_eq!(characteristics & IMAGE_SCN_MEM_WRITE, 0);
    Ok(())
}

#[test]
fn requires_substantial_write_coverage() {
    let mut regions = [
        RegionEvidence {
            offset: 0x1000,
            size: 0x1000,
            readable: true,
            writable: true,
            executable: false,
        },
        RegionEvidence {
            offset: 0x2000,
            size: 0x3000,
            readable: true,
            writable: false,
            executable: false,
        },
    ];

    let sparse = recovered_characteristics(0, &regions, 0x1000, 0x5000);
    let retained = recovered_characteristics(IMAGE_SCN_MEM_WRITE, &regions, 0x1000, 0x5000);
    regions[0].size = 0x2000;
    regions[1].offset = 0x3000;
    regions[1].size = 0x2000;
    let substantial = recovered_characteristics(0, &regions, 0x1000, 0x5000);

    assert_eq!(sparse & IMAGE_SCN_MEM_WRITE, 0);
    assert_ne!(retained & IMAGE_SCN_MEM_WRITE, 0);
    assert_ne!(substantial & IMAGE_SCN_MEM_WRITE, 0);
}

#[test]
fn recovers_runtime_data_beyond_declared_image_size() -> Result<(), AppError>
{
    let mut memory = fixture_pe64();
    memory.resize(0x3000, 0);
    memory[0x2500] = 0xC3;
    let regions = [RegionEvidence {
        offset: 0x1000,
        size: 0x2000,
        readable: true,
        writable: false,
        executable: true,
    }];

    let rebuilt = rebuild(
        &memory,
        &regions,
        0x0000_7FF6_0000_0000,
        None,
        &ExportIndex::default(),
        None,
    )?;
    let section = 0x98 + 0xF0;

    assert_eq!(get_u32(&rebuilt.bytes, section + 8), 0x1501);
    assert_eq!(get_u32(&rebuilt.bytes, 0x98 + 56), 0x3000);
    assert_eq!(rebuilt.bytes[0x1700], 0xC3);
    Ok(())
}

#[test]
fn finds_two_adjacent_resolved_imports() -> Result<(), AppError> {
    let export_base = 0x0000_7FFB_0000_0000u64;
    let export_image = fixture_with_imports(true);
    let index = ExportIndex::build(&[(export_base, export_image.as_slice(), None)]);
    let mut target = fixture_with_imports(false);
    put_u64(&mut target, 0x2000, export_base + 0x1000);
    put_u64(&mut target, 0x2008, export_base + 0x1010);
    let image = parse_memory_image(&target)?;

    let plan = analyze(&target, 0x0000_7FF6_0000_0000, image.model(), &index);

    assert_eq!(plan.recovered, 2);
    assert_eq!(plan.groups.len(), 1);
    assert_eq!(plan.groups[0].module, "fixture.dll");

    let rebuilt = rebuild(&target, &[], 0x0000_7FF6_0000_0000, None, &index, None)?;
    assert_eq!(rebuilt.imports_rebuilt, 2);
    assert_eq!(rebuilt.section_count, 3);
    assert!(PeFile::from_bytes(&rebuilt.bytes).is_ok());
    Ok(())
}

fn fixture_with_imports(with_exports: bool) -> Vec<u8> {
    let mut image = vec![0u8; 0x3000];
    put_u16(&mut image, 0, 0x5A4D);
    put_u32(&mut image, 0x3c, 0x80);
    put_u32(&mut image, 0x80, 0x0000_4550);
    put_u16(&mut image, 0x84, 0x8664);
    put_u16(&mut image, 0x86, 2);
    put_u16(&mut image, 0x94, 0xF0);
    put_u16(&mut image, 0x96, 0x22);
    let optional = 0x98;
    put_u16(&mut image, optional, 0x20B);
    put_u32(&mut image, optional + 16, 0x1000);
    put_u64(&mut image, optional + 24, 0x0000_7FF6_0000_0000);
    put_u32(&mut image, optional + 32, 0x1000);
    put_u32(&mut image, optional + 36, 0x200);
    put_u32(&mut image, optional + 56, 0x3000);
    put_u32(&mut image, optional + 60, 0x400);
    put_u32(&mut image, optional + 108, 16);
    let text = optional + 0xF0;
    image[text..text + 5].copy_from_slice(b".text");
    put_u32(&mut image, text + 8, 0x1000);
    put_u32(&mut image, text + 12, 0x1000);
    put_u32(&mut image, text + 16, 0x200);
    put_u32(&mut image, text + 36, 0x6000_0020);
    let data = text + 40;
    image[data..data + 6].copy_from_slice(b".idata");
    put_u32(&mut image, data + 8, 0x1000);
    put_u32(&mut image, data + 12, 0x2000);
    put_u32(&mut image, data + 16, 0x200);
    put_u32(&mut image, data + 36, 0x4000_0040);
    if with_exports {
        add_exports(&mut image, optional);
    }
    image
}

fn add_exports(image: &mut [u8], optional: usize) {
    put_u32(image, optional + 112, 0x2000);
    put_u32(image, optional + 116, 0x100);
    put_u32(image, 0x2000 + 12, 0x2080);
    put_u32(image, 0x2000 + 16, 1);
    put_u32(image, 0x2000 + 20, 2);
    put_u32(image, 0x2000 + 24, 2);
    put_u32(image, 0x2000 + 28, 0x2040);
    put_u32(image, 0x2000 + 32, 0x2048);
    put_u32(image, 0x2000 + 36, 0x2050);
    put_u32(image, 0x2040, 0x1000);
    put_u32(image, 0x2044, 0x1010);
    put_u32(image, 0x2048, 0x2090);
    put_u32(image, 0x204c, 0x2096);
    put_u16(image, 0x2050, 0);
    put_u16(image, 0x2052, 1);
    image[0x2080..0x208c].copy_from_slice(b"fixture.dll\0");
    image[0x2090..0x2096].copy_from_slice(b"First\0");
    image[0x2096..0x209d].copy_from_slice(b"Second\0");
}

fn fixture_pe64() -> Vec<u8> {
    let mut image = vec![0u8; 0x2000];
    put_u16(&mut image, 0, 0x5A4D);
    put_u32(&mut image, 0x3c, 0x80);
    put_u32(&mut image, 0x80, 0x0000_4550);
    put_u16(&mut image, 0x84, 0x8664);
    put_u16(&mut image, 0x86, 1);
    put_u16(&mut image, 0x94, 0xF0);
    put_u16(&mut image, 0x96, 0x22);
    let optional = 0x98;
    put_u16(&mut image, optional, 0x20B);
    put_u32(&mut image, optional + 16, 0x1000);
    put_u64(&mut image, optional + 24, 0x0001_4000_0000);
    put_u32(&mut image, optional + 32, 0x1000);
    put_u32(&mut image, optional + 36, 0x200);
    put_u32(&mut image, optional + 56, 0x2000);
    put_u32(&mut image, optional + 60, 0x200);
    put_u32(&mut image, optional + 108, 16);
    let section = optional + 0xF0;
    image[section..section + 5].copy_from_slice(b".text");
    put_u32(&mut image, section + 8, 0x1000);
    put_u32(&mut image, section + 12, 0x1000);
    put_u32(&mut image, section + 16, 0x200);
    put_u32(&mut image, section + 36, 0x6000_0020);
    image[0x1000..0x1004].copy_from_slice(&[0x90, 0x90, 0xC3, 0]);
    image
}

fn fixture_pe32() -> Vec<u8> {
    let mut image = vec![0u8; 0x2000];
    put_u16(&mut image, 0, 0x5A4D);
    put_u32(&mut image, 0x3c, 0x80);
    put_u32(&mut image, 0x80, 0x0000_4550);
    put_u16(&mut image, 0x84, 0x014C);
    put_u16(&mut image, 0x86, 1);
    put_u16(&mut image, 0x94, 0xE0);
    put_u16(&mut image, 0x96, 0x2102);
    let optional = 0x98;
    put_u16(&mut image, optional, 0x10B);
    put_u32(&mut image, optional + 16, 0x1000);
    put_u32(&mut image, optional + 28, 0x0040_0000);
    put_u32(&mut image, optional + 32, 0x1000);
    put_u32(&mut image, optional + 36, 0x200);
    put_u32(&mut image, optional + 56, 0x2000);
    put_u32(&mut image, optional + 60, 0x200);
    put_u32(&mut image, optional + 92, 16);
    let section = optional + 0xE0;
    image[section..section + 5].copy_from_slice(b".text");
    put_u32(&mut image, section + 8, 0x1000);
    put_u32(&mut image, section + 12, 0x1000);
    put_u32(&mut image, section + 16, 0x200);
    put_u32(&mut image, section + 36, 0x6000_0020);
    image[0x1000..0x1004].copy_from_slice(&[0x55, 0x8B, 0xEC, 0xC3]);
    image
}

fn put_u16(bytes: &mut [u8], offset: usize, value: u16) {
    bytes[offset..offset + 2].copy_from_slice(&value.to_le_bytes());
}

fn put_u32(bytes: &mut [u8], offset: usize, value: u32) {
    bytes[offset..offset + 4].copy_from_slice(&value.to_le_bytes());
}

fn put_u64(bytes: &mut [u8], offset: usize, value: u64) {
    bytes[offset..offset + 8].copy_from_slice(&value.to_le_bytes());
}

fn get_u32(bytes: &[u8], offset: usize) -> u32 {
    u32::from_le_bytes([
        bytes[offset],
        bytes[offset + 1],
        bytes[offset + 2],
        bytes[offset + 3],
    ])
}

const BASE: u64 = 0x0000_7FF6_0000_0000;

fn plain(memory: &[u8]) -> Result<RebuiltImage, AppError> {
    rebuild(memory, &[], BASE, None, &ExportIndex::default(), None)
}

fn failure(memory: &[u8]) -> String {
    plain(memory).unwrap_err().message().to_string()
}

#[test]
fn section_data_stands_where_headers_say() -> Result<(), AppError> {
    let mut memory = fixture_with_imports(false);
    for (offset, byte) in memory.iter_mut().enumerate().skip(0x1000) {
        *byte = (offset % 251) as u8;
    }
    let rebuilt = plain(&memory)?;
    for index in 0..2usize {
        let header = 0x98 + 0xF0 + 40 * index;
        let address = get_u32(&rebuilt.bytes, header + 12) as usize;
        let size = get_u32(&rebuilt.bytes, header + 16) as usize;
        let offset = get_u32(&rebuilt.bytes, header + 20) as usize;
        assert_eq!(size, 0x1000);
        assert_eq!(offset, 0x200 + 0x1000 * index);
        assert_eq!(rebuilt.bytes[offset..offset + size], memory[address..address + size]);
    }
    assert_eq!(rebuilt.bytes.len(), 0x2200);
    Ok(())
}

#[test]
fn headers_say_where_the_image_was() -> Result<(), AppError> {
    let rebuilt = plain(&fixture_pe64())?;
    assert_eq!(get_u32(&rebuilt.bytes, 0x98 + 24), 0);
    assert_eq!(get_u32(&rebuilt.bytes, 0x98 + 28), 0x7FF6);
    let small = rebuild(&fixture_pe32(), &[], 0x1234_0000, None, &ExportIndex::default(), None)?;
    assert_eq!(get_u32(&small.bytes, 0x98 + 28), 0x1234_0000);
    assert_eq!(failure(&fixture_pe32()), "observed PE32 image base exceeds 32 bits");
    Ok(())
}

#[test]
fn import_sections_can_be_read() -> Result<(), AppError> {
    let export_base = 0x0000_7FFB_0000_0000u64;
    let library = fixture_with_imports(true);
    let index = ExportIndex::build(&[(export_base, library.as_slice(), None)]);
    let mut memory = fixture_with_imports(false);
    put_u64(&mut memory, 0x2000, export_base + 0x1000);
    put_u64(&mut memory, 0x2008, export_base + 0x1010);
    let rebuilt = rebuild(&memory, &[], BASE, None, &index, None)?;
    let file = &rebuilt.bytes;
    let header = 0x98 + 0xF0 + 80;
    assert_eq!(&file[header..header + 8], b".mempe\0\0");
    let rva = get_u32(file, header + 12);
    let at = get_u32(file, header + 20) as usize;
    assert_eq!(rva, 0x3000);
    assert_eq!(get_u32(file, 0x98 + 112 + 8), rva);
    assert_eq!(get_u32(file, 0x98 + 112 + 12), 40);
    let lookup = at + (get_u32(file, at) - rva) as usize;
    let module = at + (get_u32(file, at + 12) - rva) as usize;
    assert_eq!(&file[module..module + 12], b"fixture.dll\0");
    assert_eq!(get_u32(file, at + 16), 0x2000);
    assert_eq!(&file[at + 20..at + 40], &[0u8; 20]);
    let first = at + (get_u32(file, lookup) - rva) as usize;
    let second = at + (get_u32(file, lookup + 8) - rva) as usize;
    assert_eq!(&file[first..first + 8], b"\0\0First\0");
    assert_eq!(&file[second..second + 9], b"\0\0Second\0");
    assert_eq!(get_u32(file, lookup + 16), 0);
    assert_eq!(get_u32(file, 0x98 + 56), 0x4000);
    assert_eq!(file[0x86], 3);
    Ok(())
}

#[test]
fn jumps_lead_to_symbols() {
    let mut memory = vec![0u8; 0x100];
    memory[0x10..0x16].copy_from_slice(&[0xFF, 0x25, 0x0A, 0, 0, 0]);
    put_u64(&mut memory, 0x20, 0x1122_3344_5566);
    assert_eq!(decode_x64_thunk(&memory, 0x1000, 0x10), Some(0x1122_3344_5566));
    memory[0x40..0x42].copy_from_slice(&[0x48, 0xB8]);
    put_u64(&mut memory, 0x42, 0xAABB);
    memory[0x4A..0x4C].copy_from_slice(&[0xFF, 0xE0]);
    assert_eq!(decode_x64_thunk(&memory, 0x1000, 0x40), Some(0xAABB));
    assert_eq!(decode_x64_thunk(&memory, 0x1000, 0x50), None);
    assert_eq!(decode_x64_thunk(&memory, 0x1000, 0xF5), None);
    memory[0x60..0x66].copy_from_slice(&[0xFF, 0x25, 0x20, 0x10, 0, 0]);
    assert_eq!(decode_x86_thunk(&memory, 0x1000, 0x60), Some(0x3344_5566));
    memory[0x70..0x77].copy_from_slice(&[0xB8, 1, 2, 3, 4, 0xFF, 0xE0]);
    assert_eq!(decode_x86_thunk(&memory, 0x1000, 0x70), Some(0x0403_0201));
}

#[test]
fn lost_directories_are_cleared() -> Result<(), AppError> {
    let mut memory = fixture_pe64();
    put_u32(&mut memory, 0x98 + 112 + 2 * 8, 0x1800);
    put_u32(&mut memory, 0x98 + 112 + 2 * 8 + 4, 0x10);
    put_u32(&mut memory, 0x98 + 112 + 4 * 8, 0x1000);
    put_u32(&mut memory, 0x98 + 112 + 4 * 8 + 4, 0x10);
    put_u32(&mut memory, 0x98 + 112 + 5 * 8, 0x1FF8);
    put_u32(&mut memory, 0x98 + 112 + 5 * 8 + 4, 0x10);
    let rebuilt = plain(&memory)?;
    assert_eq!(rebuilt.cleared_directories, 2);
    assert_eq!(get_u32(&rebuilt.bytes, 0x98 + 112 + 2 * 8), 0x1800);
    assert_eq!(get_u32(&rebuilt.bytes, 0x98 + 112 + 4 * 8), 0);
    assert_eq!(get_u32(&rebuilt.bytes, 0x98 + 112 + 5 * 8), 0);
    Ok(())
}

#[test]
fn valid_unwind_entries_stay() -> Result<(), AppError> {
    let mut memory = fixture_pe64();
    put_u32(&mut memory, 0x98 + 112 + 24, 0x1100);
    put_u32(&mut memory, 0x98 + 112 + 28, 24);
    put_u32(&mut memory, 0x1100, 0x1000);
    put_u32(&mut memory, 0x1104, 0x1010);
    put_u32(&mut memory, 0x1108, 0x1200);
    put_u32(&mut memory, 0x110C, 0x1010);
    put_u32(&mut memory, 0x1110, 0x1020);
    put_u32(&mut memory, 0x1114, 0x1204);
    memory[0x1204] = 1;
    let rebuilt = plain(&memory)?;
    assert_eq!(rebuilt.invalid_unwind_entries, 1);
    assert_eq!(get_u32(&rebuilt.bytes, 0x98 + 112 + 24), 0x1100);
    assert_eq!(get_u32(&rebuilt.bytes, 0x98 + 112 + 28), 12);
    assert_eq!(get_u32(&rebuilt.bytes, 0x300), 0x1010);
    assert_eq!(get_u32(&rebuilt.bytes, 0x308), 0x1204);
    assert_eq!(get_u32(&rebuilt.bytes, 0x30C), 0);
    Ok(())
}

#[test]
fn refuses_entry_points_outside_of_code() {
    let result = rebuild(
        &fixture_pe64(),
        &[],
        BASE,
        None,
        &ExportIndex::default(),
        EntryPointRva::new(0x180),
    );
    assert_eq!(
        result.unwrap_err().message(),
        "manual entry point RVA 0x180 is not inside an executable section"
    );
}

#[test]
fn repaired_images_keep_captured_data() -> Result<(), AppError> {
    let disk = fixture_pe64();
    let mut memory = disk.clone();
    memory[..0x200].fill(0xEE);
    memory[0x1800] = 0x77;
    let repaired = merge_header_evidence(&memory, &disk)?;
    assert_eq!(repaired[..0x200], disk[..0x200]);
    assert_eq!(repaired[0x200..], memory[0x200..]);
    let error = merge_header_evidence(&memory[..0x1000], &disk).unwrap_err();
    assert_eq!(error.message(), "disk SizeOfImage exceeds the captured image");
    let mut other = disk.clone();
    put_u16(&mut other, 0x98, 0x10B);
    put_u16(&mut other, 0x84, 0);
    let error = merge_header_evidence(&other, &disk).unwrap_err();
    assert_eq!(
        error.message(),
        "disk headers conflict with the captured optional-header format"
    );
    Ok(())
}

#[test]
fn both_failures_are_named() {
    let mut disk = fixture_pe64();
    let memory = vec![0u8; 0x2000];
    put_u32(&mut disk, 0x98 + 56, 0x1800);
    put_u32(&mut disk, 0x98 + 0xF0 + 8, 0x800);
    let result = rebuild(&memory, &[], BASE, Some(&disk), &ExportIndex::default(), None);
    assert!(result.is_ok());
    let result = rebuild(&memory, &[], BASE, None, &ExportIndex::default(), None);
    assert_eq!(
        result.unwrap_err().message(),
        "PE header is not valid: DOS MZ signature is missing; scan found no valid header"
    );
}

#[test]
fn files_with_too_many_sections_are_refused() {
    let mut memory = vec![0u8; 0x6_3000];
    let head = fixture_pe64();
    memory[..0x188].copy_from_slice(&head[..0x188]);
    put_u16(&mut memory, 0x86, 97);
    put_u32(&mut memory, 0x98 + 56, 0x6_3000);
    for index in 0..97usize {
        let section = 0x188 + 40 * index;
        put_u32(&mut memory, section + 8, 0x1000);
        put_u32(&mut memory, section + 12, 0x2000 + 0x1000 * index as u32);
    }
    assert!(failure(&memory).starts_with("rebuilt PE failed independent reparse: "));
}

#[test]
fn coverage_is_measured_inside_a_section() {
    let regions = [
        RegionEvidence { offset: 0, size: 0x1800, readable: true, writable: true, executable: false },
        RegionEvidence { offset: 0x1800, size: 0x800, readable: true, writable: false, executable: true },
    ];
    let coverage = ProtectionCoverage::measure(&regions, 0x1000, 0x2000);
    assert_eq!(coverage.committed, 0x1000);
    assert_eq!(coverage.writable, 0x800);
    assert_eq!(coverage.executable, 0x800);
    assert!(!coverage.write_is_substantial(0x1000));
    assert_eq!(recovered_characteristics(0x20, &regions, 0x1000, 0x2000), 0x6000_0020);
}

/// An image whose headers stand two bytes further on.
fn shifted_pe64() -> Vec<u8> {
    let mut memory = fixture_pe64();
    memory.copy_within(0x80..0x1B0, 0x82);
    put_u32(&mut memory, 0x3C, 0x82);
    memory
}

/// An image with `count` sections, of which all but the first are empty.
fn crowded_pe64(count: u16) -> Vec<u8> {
    let mut memory = fixture_pe64();
    memory.resize(0x4000, 0);
    put_u16(&mut memory, 0x86, count);
    put_u32(&mut memory, 0x98 + 56, 0x4000);
    put_u32(&mut memory, 0x188 + 12, 0x2000);
    memory[0x1000..].fill(0);
    memory
}

#[test]
fn sound_headers_are_accepted() -> Result<(), AppError> {
    assert_eq!(plain(&crowded_pe64(96))?.section_count, 96);
    assert_eq!(
        failure(&crowded_pe64(97)),
        "rebuilt PE failed independent reparse: data insanity"
    );
    assert_eq!(
        failure(&shifted_pe64()),
        "rebuilt PE failed independent reparse: address misaligned"
    );
    let mut small = fixture_pe64();
    put_u16(&mut small, 0x86, 4);
    put_u32(&mut small, 0x98 + 32, 0x200);
    put_u32(&mut small, 0x188 + 8, 0x100);
    put_u32(&mut small, 0x188 + 12, 0);
    put_u32(&mut small, 0x188 + 16, 0);
    assert_eq!(failure(&small), "rebuilt PE failed independent reparse: data insanity");
    put_u32(&mut small, 0x188 + 8, 0x300);
    assert_eq!(plain(&small)?.section_count, 4);
    Ok(())
}

#[test]
fn recovery_touches_only_sizes_and_flags() -> Result<(), AppError> {
    let mut memory = fixture_pe64();
    memory.resize(0x3000, 0);
    memory[0x2500] = 0xC3;
    let regions = [RegionEvidence {
        offset: 0x1000,
        size: 0x2000,
        readable: true,
        writable: true,
        executable: true,
    }];
    let image = parse_memory_image(&memory)?;
    let after = recover_section_headers(&memory, image.model(), &regions)?.unwrap();
    let section = 0x188usize;
    let size = 0x98 + 56;
    for offset in 0..memory.len() {
        let may_change = (section + 8..section + 12).contains(&offset)
            || (section + 36..section + 40).contains(&offset)
            || (size..size + 4).contains(&offset);
        assert!(may_change || after[offset] == memory[offset]);
    }
    assert_eq!(get_u32(&after, section + 8), 0x1501);
    assert_eq!(get_u32(&after, section + 36), 0xE000_0020);
    assert_eq!(get_u32(&after, size), 0x3000);
    assert!(recover_section_headers(&memory, image.model(), &[])?.is_none());
    Ok(())
}

#[test]
fn directories_are_cleared_once() -> Result<(), AppError> {
    let mut memory = fixture_pe64();
    for (index, rva) in [(2usize, 0x1800u32), (4, 0x1000), (5, 0x1FF8)] {
        put_u32(&mut memory, 0x98 + 112 + 8 * index, rva);
        put_u32(&mut memory, 0x98 + 112 + 8 * index + 4, 0x10);
    }
    let image = parse_memory_image(&memory)?;
    let layouts = layout_sections(image.model(), memory.len(), 0x200)?;
    let mut first = memory.clone();
    assert_eq!(clear_bad_directories(&mut first, image.model(), &layouts, 0x200)?, 2);
    for offset in 0..memory.len() {
        let cleared = (0x98 + 112 + 32..0x98 + 112 + 48).contains(&offset);
        assert_eq!(first[offset], if cleared { 0 } else { memory[offset] });
    }
    let mut second = first.clone();
    assert_eq!(clear_bad_directories(&mut second, image.model(), &layouts, 0x200)?, 0);
    assert_eq!(second, first);
    Ok(())
}
