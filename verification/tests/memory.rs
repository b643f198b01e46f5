use mempe::error::AppError;
use mempe::memory::{
    add_image_size, captured_image, executable_non_image_allocations, group_images, header_request,
    is_executable, is_readable, is_stability_region, is_writable, measure_image, memory_signature,
    plan_image_reads, record_hidden, regions_in_range, require_main, sample_page, stability_pages,
    win32_status, AcquisitionMode, HiddenScan, MemoryRegion, PageProbe, ReadPart, RegionRead,
    RegionWalk, StabilityStep, StabilityWatch, WalkStep, MAX_IMAGE_BYTES, MAX_STABILITY_READS,
    MEM_COMMIT, MEM_IMAGE, MEM_MAPPED, MEM_PRIVATE, PAGE_EXECUTE, PAGE_EXECUTE_READ,
    PAGE_EXECUTE_WRITECOPY, PAGE_GUARD, PAGE_NOACCESS, PAGE_READONLY, PAGE_READWRITE, PAGE_SIZE,
    READ_CHUNK, STABLE_POLL_COUNT,
};
use mempe::process::{ModuleInfo, ProcessId, TargetArchitecture, TargetProcess};

fn region(base: u64, size: u64) -> MemoryRegion {
    MemoryRegion {
        base,
        allocation_base: base,
        size,
        state: 0,
        protect: 0,
        kind: 0,
    }
}

#[test]
fn selects_only_regions_overlapping_an_image() -> Result<(), AppError> {
    let regions = [
        region(0x1000, 0x1000),
        region(0x2000, 0x1000),
        region(0x3000, 0x1000),
    ];

    let selected = regions_in_range(&regions, 0x1800, 0x1000)?;

    assert_eq!(selected.len(), 2);
    assert_eq!(selected[0].base, 0x1000);
    assert_eq!(selected[1].base, 0x2000);
    Ok(())
}

#[test]
fn rejects_an_overflowing_image_range() {
    let result = regions_in_range(&[], u64::MAX, 2);

    assert!(result.is_err());
}

#[test]
fn samples_content_across_large_relevant_regions() {
    let regions = [
        MemoryRegion {
            base: 0x1000,
            allocation_base: 0x1000,
            size: PAGE_SIZE * 512,
            state: MEM_COMMIT,
            protect: PAGE_EXECUTE_READ,
            kind: MEM_IMAGE,
        },
        MemoryRegion {
            base: 0x400000,
            allocation_base: 0x400000,
            size: PAGE_SIZE,
            state: MEM_COMMIT,
            protect: PAGE_READWRITE,
            kind: MEM_PRIVATE,
        },
    ];

    let pages = stability_pages(&regions);

    assert_eq!(pages.len(), MAX_STABILITY_READS);
    assert_eq!(pages.first(), Some(&(0x1000, PAGE_SIZE)));
    assert_eq!(pages.last(), Some(&(0x1000 + PAGE_SIZE * 511, PAGE_SIZE)));
}

#[test]
fn includes_executable_mapped_and_private_allocations() {
    let regions = [
        MemoryRegion {
            base: 0x1000,
            allocation_base: 0x1000,
            size: PAGE_SIZE,
            state: MEM_COMMIT,
            protect: PAGE_EXECUTE_READ,
            kind: MEM_PRIVATE,
        },
        MemoryRegion {
            base: 0x2000,
            allocation_base: 0x2000,
            size: PAGE_SIZE,
            state: MEM_COMMIT,
            protect: PAGE_EXECUTE_READ,
            kind: MEM_MAPPED,
        },
        MemoryRegion {
            base: 0x3000,
            allocation_base: 0x3000,
            size: PAGE_SIZE,
            state: MEM_COMMIT,
            protect: PAGE_EXECUTE_READ,
            kind: MEM_IMAGE,
        },
    ];

    let allocations = executable_non_image_allocations(&regions);

    assert_eq!(allocations.len(), 2);
    assert!(allocations.contains(&0x1000));
    assert!(allocations.contains(&0x2000));
}

fn committed(base: u64, allocation_base: u64, size: u64, protect: u32, kind: u32) -> MemoryRegion {
    MemoryRegion { base, allocation_base, size, state: MEM_COMMIT, protect, kind }
}

fn module(base: u64) -> ModuleInfo {
    ModuleInfo { name: "m.dll".to_string(), path: "C:\\m.dll".to_string(), base, size: 0x1000 }
}

fn target(main_base: u64, bases: &[u64]) -> TargetProcess {
    TargetProcess {
        pid: ProcessId::new(4).unwrap(),
        name: "t.exe".to_string(),
        architecture: TargetArchitecture::X64,
        created: 1,
        main_module: module(main_base),
        modules: bases.iter().map(|base| module(*base)).collect(),
    }
}

#[test]
fn protection_decides_access() {
    assert!(is_readable(PAGE_READONLY) && is_readable(PAGE_EXECUTE_READ));
    assert!(!is_readable(PAGE_EXECUTE) && !is_readable(PAGE_NOACCESS));
    assert!(!is_readable(PAGE_READWRITE | PAGE_GUARD));
    assert!(is_readable(PAGE_READWRITE | 0x200));
    assert!(is_executable(PAGE_EXECUTE) && !is_executable(PAGE_READWRITE));
    assert!(!is_executable(PAGE_EXECUTE | PAGE_GUARD));
    assert!(is_writable(PAGE_EXECUTE_WRITECOPY) && !is_writable(PAGE_EXECUTE_READ));
    assert!(is_stability_region(&committed(0, 0, 1, PAGE_READWRITE, MEM_IMAGE)));
    assert!(!is_stability_region(&committed(0, 0, 1, PAGE_READWRITE, MEM_PRIVATE)));
}

#[test]
fn samples_spread_over_all_pages() {
    assert_eq!(sample_page(0, 513, 256), 0);
    assert_eq!(sample_page(255, 513, 256), 512);
    assert_eq!(sample_page(128, 513, 256), 257);
    assert_eq!(sample_page(5, 10, 1), 0);
    let regions = [committed(0x1000, 0x1000, 0x1800, PAGE_EXECUTE_READ, MEM_PRIVATE)];
    assert_eq!(stability_pages(&regions), [(0x1000, 0x1000), (0x2000, 0x800)]);
}

#[test]
fn limits_the_combined_size() {
    let mut total = 0xFFFF_0000u64;
    assert!(add_image_size(&mut total, 0x1_0000).is_ok());
    assert_eq!(total, 0x1_0000_0000);
    let error = add_image_size(&mut total, 1).unwrap_err();
    assert_eq!(
        error.message(),
        "combined in-memory image data exceeds the 4 GiB safety limit"
    );
    let mut huge = u64::MAX;
    let error = add_image_size(&mut huge, 1).unwrap_err();
    assert_eq!(error.message(), "combined image size overflowed");
}

#[test]
fn walks_over_regions() {
    let mut walk = RegionWalk::start();
    assert_eq!(walk.step(Some(region(0, 0x1000))), Ok(WalkStep::Ask(0x1000)));
    assert_eq!(walk.step(Some(region(0x1000, 0x3000))), Ok(WalkStep::Ask(0x4000)));
    let error = walk.step(Some(region(0x1000, 0x1000))).unwrap_err();
    assert_eq!(error.message(), "VirtualQueryEx returned the same address twice");
    let error = walk.step(Some(region(0x5000, 0))).unwrap_err();
    assert_eq!(error.message(), "VirtualQueryEx returned the same address twice");
    let error = walk.step(Some(region(u64::MAX, 2))).unwrap_err();
    assert_eq!(error.message(), "virtual memory region address overflowed");
    assert_eq!(walk.step(None), Ok(WalkStep::Finished));
    assert_eq!(walk.finish().len(), 2);
}

#[test]
fn groups_regions_by_image() -> Result<(), AppError> {
    let regions = [
        committed(0x1000, 0x1000, 0x1000, PAGE_READONLY, MEM_IMAGE),
        committed(0x2000, 0x1000, 0x1000, PAGE_EXECUTE_READ, MEM_IMAGE),
        committed(0x8000, 0x8000, 0x1000, PAGE_READONLY, MEM_MAPPED),
        committed(0x9000, 0x9000, 0x1000, PAGE_READONLY, MEM_PRIVATE),
    ];
    let groups = group_images(&regions, &vec![module(0x8000), module(0)])?;
    assert_eq!(groups.len(), 2);
    assert_eq!(groups.get(&0x1000).unwrap().regions.len(), 2);
    assert_eq!(groups.get(&0x1000).unwrap().end, 0x3000);
    assert_eq!(groups.get(&0x8000).unwrap().end, 0x9000);
    let bad = [committed(u64::MAX, 0x1000, 2, PAGE_READONLY, MEM_IMAGE)];
    let error = group_images(&bad, &Vec::new()).unwrap_err();
    assert_eq!(error.message(), "image memory region address overflowed");
    Ok(())
}

#[test]
fn too_many_images_are_refused() {
    let modules: Vec<ModuleInfo> = (1..=4097u64).map(module).collect();
    let error = group_images(&[], &modules).unwrap_err();
    assert_eq!(error.message(), "in-memory image count exceeds the 4096-image safety limit");
}

#[test]
fn searches_executable_allocations_page_by_page() -> Result<(), AppError> {
    let regions = vec![
        committed(0x1000, 0x1000, 0x1800, PAGE_EXECUTE_READ, MEM_PRIVATE),
        committed(0x3000, 0x1000, 0x1000, PAGE_NOACCESS, MEM_PRIVATE),
        committed(0x4000, 0x1000, 0x1000, PAGE_READONLY, MEM_PRIVATE),
        committed(0x9000, 0x9000, 0x1000, PAGE_READONLY, MEM_PRIVATE),
    ];
    let allocations = executable_non_image_allocations(&regions);
    let mut scan = HiddenScan::start(regions, allocations)?;
    let mut probes = Vec::new();
    while let Some(probe) = scan.next()? {
        probes.push((probe.address, probe.available));
    }
    assert_eq!(probes, [(0x1000, 0x4000), (0x2000, 0x3000), (0x4000, 0x1000)]);
    assert_eq!(scan.next()?, None);
    Ok(())
}

#[test]
fn long_searches_stop() -> Result<(), AppError> {
    let size = PAGE_SIZE * 262_145;
    let regions = vec![committed(0x1000, 0x1000, size, PAGE_EXECUTE_READ, MEM_PRIVATE)];
    let allocations = executable_non_image_allocations(&regions);
    let mut scan = HiddenScan::start(regions, allocations)?;
    let mut pages = 0u32;
    let error = loop {
        match scan.next() {
            Ok(Some(_)) => pages += 1,
            Ok(None) => panic!("the search came to its end"),
            Err(error) => break error,
        }
    };
    assert_eq!(pages, 262_144);
    assert_eq!(error.message(), "non-image PE scan exceeds the 262144-page safety limit");
    Ok(())
}

#[test]
fn overflowing_allocations_are_refused() {
    let regions = vec![committed(u64::MAX - 1, 0x1000, 4, PAGE_EXECUTE_READ, MEM_PRIVATE)];
    let allocations = executable_non_image_allocations(&regions);
    let error = HiddenScan::start(regions, allocations).err().unwrap();
    assert_eq!(error.message(), "non-image allocation address overflowed");
}

#[test]
fn only_pages_with_a_signature_are_read_further() {
    let probe = PageProbe { address: 0x1000, available: 0x4000 };
    assert_eq!(header_request(&probe, Some(*b"MZ")), Some(0x4000));
    assert_eq!(header_request(&probe, Some(*b"ZM")), None);
    assert_eq!(header_request(&probe, None), None);
    let large = PageProbe { address: 0x1000, available: 0x4_0000 };
    assert_eq!(header_request(&large, Some(*b"MZ")), Some(0x1_0000));
}

#[test]
fn hidden_images_must_fit_their_allocation() -> Result<(), AppError> {
    let header = header_bytes();
    let mut found = Vec::new();
    record_hidden(&mut found, &PageProbe { address: 0x1000, available: 0x1FFF }, &header)?;
    assert!(found.is_empty());
    record_hidden(&mut found, &PageProbe { address: 0x1000, available: 0x2000 }, &header)?;
    record_hidden(&mut found, &PageProbe { address: 0x5000, available: 0x3000 }, &[0u8; 64])?;
    assert_eq!(found, [(0x1000, 0x2000)]);
    let large = PageProbe { address: 0x7000, available: MAX_IMAGE_BYTES + 1 };
    let error = record_hidden(&mut found, &large, &header).unwrap_err();
    assert_eq!(
        error.message(),
        "hidden image allocation at 0x0000000000007000 exceeds the 1 GiB image safety limit"
    );
    Ok(())
}

fn header_bytes() -> Vec<u8> {
    let mut bytes = vec![0u8; 0x200];
    let fields: [(usize, u32); 9] = [
        (0, 0x5A4D),
        (0x3C, 0x80),
        (0x80, 0x4550),
        (0x84, 0x0001_8664),
        (0x94, 0x0022_00F0),
        (0x98, 0x20B),
        (0x98 + 32, 0x1000),
        (0x98 + 36, 0x200),
        (0x98 + 56, 0x2000),
    ];
    for (offset, value) in fields.iter() {
        bytes[*offset..*offset + 4].copy_from_slice(&value.to_le_bytes());
    }
    bytes
}

#[test]
fn plans_what_is_read_of_an_image() -> Result<(), AppError> {
    let mut free = committed(0x6000, 0x1000, 0x1000, PAGE_READONLY, MEM_IMAGE);
    free.state = 0x2000;
    let regions = [
        committed(0x0, 0x0, 0x1800, PAGE_READONLY, MEM_PRIVATE),
        committed(0x1800, 0x1000, 0x800, PAGE_NOACCESS, MEM_IMAGE),
        committed(0x2000, 0x1000, 0x8000, PAGE_EXECUTE_READ, MEM_IMAGE),
        free,
    ];
    let reads = plan_image_reads(0x1000, 0x2000, &regions)?;
    assert_eq!(
        reads.parts,
        [ReadPart { offset: 0, length: 0x800 }, ReadPart { offset: 0x1000, length: 0x1000 }]
    );
    assert_eq!(reads.unreadable_pages, 1);
    assert_eq!(reads.evidence.len(), 3);
    assert!(reads.evidence[2].executable && !reads.evidence[2].writable);
    assert!(!reads.evidence[1].readable);
    assert_eq!(
        plan_image_reads(u64::MAX, 2, &[]).unwrap_err().message(),
        "image address overflowed"
    );
    let bad = [committed(u64::MAX, 0, 2, PAGE_READONLY, MEM_IMAGE)];
    assert_eq!(
        plan_image_reads(0x1000, 2, &bad).unwrap_err().message(),
        "image region address overflowed"
    );
    Ok(())
}

#[test]
fn unreadable_chunks_are_read_page_by_page() {
    let length = READ_CHUNK + 0x1800;
    let mut read = RegionRead::start(length);
    assert_eq!(read.next(), Some(ReadPart { offset: 0, length: READ_CHUNK }));
    assert!(!read.finish_step(true));
    assert_eq!(read.next(), Some(ReadPart { offset: READ_CHUNK, length: 0x1800 }));
    assert!(!read.finish_step(false));
    assert_eq!(read.next(), Some(ReadPart { offset: READ_CHUNK, length: 0x1000 }));
    assert!(read.finish_step(false));
    assert_eq!(read.next(), Some(ReadPart { offset: READ_CHUNK + 0x1000, length: 0x800 }));
    assert!(!read.finish_step(true));
    assert_eq!(read.next(), None);
    assert_eq!(read.unreadable_pages(), 1);
}

#[test]
fn modules_name_their_images() {
    let target = target(0x1000, &[0x1000, 0x8000]);
    let main = captured_image(&target, 0x1000, vec![1], Vec::new(), 2, false);
    assert!(main.is_main && !main.hidden);
    assert_eq!(main.name.as_deref(), Some("m.dll"));
    assert_eq!(main.path.as_deref(), Some("C:\\m.dll"));
    assert_eq!(main.unreadable_pages, 2);
    let hidden = captured_image(&target, 0x9000, Vec::new(), Vec::new(), 0, true);
    assert!(hidden.hidden && hidden.name.is_none() && hidden.path.is_none());
    let error = require_main(&vec![hidden]).unwrap_err();
    assert_eq!(
        error.message(),
        "the main image allocation was not present in the captured address space"
    );
    assert!(require_main(&vec![main]).is_ok());
}

#[test]
fn images_have_a_size() {
    let mut total = 0u64;
    assert_eq!(measure_image(&mut total, 0x1000, 0x3000), Ok(0x2000));
    assert_eq!(total, 0x2000);
    assert_eq!(
        measure_image(&mut total, 0x3000, 0x1000).unwrap_err().message(),
        "image allocation has an invalid address range"
    );
    assert_eq!(
        measure_image(&mut total, 0x3000, 0x3000).unwrap_err().message(),
        "image at 0x0000000000003000 has unsupported size 0 bytes"
    );
    assert_eq!(total, 0x2000);
    total = 0x1_0000_0000 - 0x1000;
    assert_eq!(
        measure_image(&mut total, 0x1000, 0x3000).unwrap_err().message(),
        "combined in-memory image data exceeds the 4 GiB safety limit"
    );
    assert_eq!(total, 0x1_0000_1000);
}

#[test]
fn signatures_follow_memory() {
    let regions = [committed(0x1000, 0x1000, 0x1000, PAGE_EXECUTE_READ, MEM_PRIVATE)];
    let first = memory_signature(&regions, &vec![Some(vec![1, 2])]);
    assert_eq!(first, memory_signature(&regions, &vec![Some(vec![1, 2])]));
    assert_ne!(first, memory_signature(&regions, &vec![Some(vec![1, 3])]));
    assert_ne!(first, memory_signature(&regions, &vec![None]));
    assert_ne!(first, memory_signature(&[], &vec![Some(vec![1, 2])]));
}

#[test]
fn memory_settles_after_four_looks() {
    let mut watch = StabilityWatch::start();
    for signature in [1, 2, 2, 2].iter() {
        assert_eq!(watch.observe(*signature), StabilityStep::Again);
    }
    assert_eq!(watch.observe(2), StabilityStep::Settled);
    let mut watch = StabilityWatch::start();
    for signature in 1..STABLE_POLL_COUNT as u64 {
        assert_eq!(watch.observe(signature), StabilityStep::Again);
    }
    assert_eq!(watch.observe(0), StabilityStep::GaveUp);
}

#[test]
fn describes_statuses_and_modes() {
    assert_eq!(
        win32_status("PssCaptureSnapshot", "denied", 5).message(),
        "PssCaptureSnapshot failed: denied (error 5)"
    );
    assert_eq!(AcquisitionMode::PssClone.text(), "PSS snapshot");
    assert_eq!(AcquisitionMode::LiveRead.text(), "live process read");
}

#[test]
fn searches_find_every_image() -> Result<(), AppError> {
    let regions = vec![
        committed(0x10_0000, 0x10_0000, 0x6000, PAGE_EXECUTE_READ, MEM_PRIVATE),
        committed(0x20_0000, 0x20_0000, 0x2000, PAGE_READONLY, MEM_PRIVATE),
    ];
    let mut memory = vec![0u8; 0x6000];
    // An image, a signature without headers, and an image that does not fit.
    memory[0x1000..0x1200].copy_from_slice(&header_bytes());
    memory[0x3000..0x3002].copy_from_slice(b"MZ");
    memory[0x5000..0x5200].copy_from_slice(&header_bytes());
    let allocations = executable_non_image_allocations(&regions);
    let mut scan = HiddenScan::start(regions, allocations)?;
    let mut found = Vec::new();
    while let Some(probe) = scan.next()? {
        let at = (probe.address - 0x10_0000) as usize;
        if let Some(length) = header_request(&probe, Some([memory[at], memory[at + 1]])) {
            record_hidden(&mut found, &probe, &memory[at..at + length as usize])?;
        }
    }
    assert_eq!(found, [(0x10_1000, 0x5000)]);
    Ok(())
}
