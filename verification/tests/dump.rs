use mempe::dump::{
    artifact_info, build, build_image, empty_report, output_name, prepare_images,
    rebuild_with_disk_headers, should_write, with_extension, ArtifactInfo, BuildReport,
    DumpOutcome, DumpSummary, Rebuilding,
};
use mempe::error::AppError;
use mempe::memory::{AcquisitionMode, Capture, CapturedImage, StabilityInfo};
use mempe::output::{clean_name, CollisionPolicy, OutputPlan, WrittenFile};
use mempe::pe::exports::{ExportIndex, ExportStats};
use mempe::pe::rebuild::RebuiltImage;
use mempe::pe::{EntryPointRva, PeKind};
use mempe::process::{ModuleInfo, ProcessId, TargetArchitecture, TargetProcess};
use mempe::report::{
    find_target, finish_dump, render_capture, render_failure, render_stability, render_target,
    render_warnings, Ending, Line, Step,
};
use mempe::cli::Command;

fn artifact(is_main: bool, hidden: bool, imports: usize) -> WrittenFile<ArtifactInfo> {
    WrittenFile {
        path: String::new(),
        context: ArtifactInfo {
            base: 0,
            kind: PeKind::Pe32Plus,
            sections: 1,
            unreadable_pages: 2,
            salvaged_headers: false,
            disk_headers_used: false,
            cleared_directories: 1,
            invalid_unwind_entries: 0,
            imports_rebuilt: imports,
            ambiguous_imports: 0,
            hidden,
            is_main,
        },
    }
}

#[test]
fn summarizes_artifacts_without_parallel_lists() {
    let artifacts = [artifact(true, false, 2), artifact(false, true, 3)];

    let summary = DumpSummary::from_artifacts(&artifacts);

    assert_eq!(summary.dlls, 1);
    assert_eq!(summary.hidden_images, 1);
    assert_eq!(summary.unreadable_pages, 4);
    assert_eq!(summary.cleared_directories, 2);
    assert_eq!(summary.imports_rebuilt, 5);
}

const MAIN_BASE: u64 = 0x0001_4000_0000;

fn put_u16(bytes: &mut [u8], offset: usize, value: u16) {
    bytes[offset..offset + 2].copy_from_slice(&value.to_le_bytes());
}

fn put_u32(bytes: &mut [u8], offset: usize, value: u32) {
    bytes[offset..offset + 4].copy_from_slice(&value.to_le_bytes());
}

fn image_bytes(characteristics: u16) -> Vec<u8> {
    let mut image = vec![0u8; 0x2000];
    put_u16(&mut image, 0, 0x5A4D);
    put_u32(&mut image, 0x3c, 0x80);
    put_u32(&mut image, 0x80, 0x4550);
    put_u16(&mut image, 0x84, 0x8664);
    put_u16(&mut image, 0x86, 1);
    put_u16(&mut image, 0x94, 0xF0);
    put_u16(&mut image, 0x96, characteristics);
    put_u16(&mut image, 0x98, 0x20B);
    put_u32(&mut image, 0x98 + 16, 0x1000);
    put_u32(&mut image, 0x98 + 32, 0x1000);
    put_u32(&mut image, 0x98 + 36, 0x200);
    put_u32(&mut image, 0x98 + 56, 0x2000);
    put_u32(&mut image, 0x98 + 60, 0x200);
    put_u32(&mut image, 0x98 + 108, 16);
    put_u32(&mut image, 0x188 + 8, 0x1000);
    put_u32(&mut image, 0x188 + 12, 0x1000);
    put_u32(&mut image, 0x188 + 36, 0x6000_0020);
    image
}

fn captured(base: u64, bytes: Vec<u8>, name: Option<&str>) -> CapturedImage {
    CapturedImage {
        base,
        bytes,
        regions: Vec::new(),
        unreadable_pages: 0,
        name: name.map(|text| text.to_string()),
        path: None,
        is_main: base == MAIN_BASE,
        hidden: false,
    }
}

fn module(base: u64) -> ModuleInfo {
    ModuleInfo { name: "m".to_string(), path: "C:\\m".to_string(), base, size: 0x2000 }
}

fn target(bases: &[u64]) -> TargetProcess {
    TargetProcess {
        pid: ProcessId::new(4216).unwrap(),
        name: "target.exe".to_string(),
        architecture: TargetArchitecture::X64,
        created: 1,
        main_module: module(MAIN_BASE),
        modules: bases.iter().map(|base| module(*base)).collect(),
    }
}

fn capture(images: Vec<CapturedImage>) -> Capture {
    Capture {
        mode: AcquisitionMode::LiveRead,
        setup_milliseconds: 12,
        fallback_reason: Some("denied".to_string()),
        images,
        executable_non_image_allocations: 2,
    }
}

fn run(target: &TargetProcess, capture: Capture, entry_point: Option<EntryPointRva>) -> BuildReport {
    let mut rebuilding = Rebuilding::start(capture, entry_point);
    while !rebuilding.is_done() {
        rebuilding = match rebuilding.wanted_file() {
            None => rebuilding.try_memory(),
            Some(path) => {
                assert_eq!(path, "C:\\lost.dll");
                rebuilding.try_disk(Err(AppError::fixed("no such file")))
            }
        };
    }
    build(target, rebuilding)
}

fn written(report: BuildReport) -> DumpOutcome {
    let paths = report.files.iter().map(|file| file.preferred_name.clone()).collect();
    report.write(paths)
}

#[test]
fn complete_dumps_hold_all_known_images() {
    let images = vec![
        captured(0x9000_0000, image_bytes(0x2022), Some("b.dll")),
        captured(MAIN_BASE, image_bytes(0x22), Some("target.exe")),
        captured(0x8000_0000, image_bytes(0x22), None),
    ];
    let report = run(&target(&[MAIN_BASE, 0x9000_0000]), capture(images), EntryPointRva::new(0x1010));
    assert_eq!(report.files.len(), 2);
    assert_eq!(report.files[0].preferred_name, "target.exe");
    assert_eq!(report.files[1].preferred_name, "b.dll");
    assert_eq!(report.files[0].bytes[0x98 + 16..0x98 + 20], [0x10, 0x10, 0, 0]);
    assert_eq!(report.files[1].bytes[0x98 + 16..0x98 + 20], [0, 0x10, 0, 0]);
    let outcome = written(report);
    assert!(outcome.is_complete() && outcome.main_rebuilt());
    assert_eq!(outcome.dll_failures(), 0);
    assert_eq!(outcome.summary.dlls, 1);
    assert_eq!(outcome.artifacts[1].path, "b.dll");
    assert_eq!(outcome.artifacts[1].context.base, 0x9000_0000);
}

#[test]
fn failures_are_reported() {
    let mut lost = captured(0x8000_0000, vec![0u8; 0x1000], Some("lost.dll"));
    lost.path = Some("C:\\lost.dll".to_string());
    let mut hidden = captured(0x7000_0000, vec![0u8; 0x1000], None);
    hidden.hidden = true;
    let images = vec![
        lost,
        captured(0x6000_0000, vec![0u8; 0x1000], None),
        hidden,
        captured(MAIN_BASE, image_bytes(0x22), Some("target.exe")),
    ];
    let report = run(&target(&[MAIN_BASE, 0x8000_0000, 0x5000_0000]), capture(images), None);
    assert!(report.main_rebuilt);
    assert_eq!(report.files.len(), 1);
    assert_eq!(report.dll_failures, 2);
    assert_eq!(report.failures.len(), 2);
    assert_eq!(report.failures[0].name, "hidden PE");
    assert_eq!(report.failures[1].name, "lost.dll");
    assert_eq!(
        report.failures[1].error.message(),
        "PE header is not valid: DOS MZ signature is missing; scan found no valid header; could \
         not read disk headers from C:\\lost.dll: no such file"
    );
    assert!(!written(report).is_complete());
}

#[test]
fn the_main_image_comes_first() {
    let images = prepare_images(vec![
        captured(3, Vec::new(), None),
        captured(MAIN_BASE, Vec::new(), Some("main")),
        captured(1, Vec::new(), None),
        captured(2, Vec::new(), None),
    ]);
    let bases: Vec<u64> = images.iter().map(|image| image.base).collect();
    assert_eq!(bases, [MAIN_BASE, 1, 2, 3]);
}

#[test]
fn names_get_the_right_extension() {
    assert_eq!(with_extension("C:\\a\\b.tmp", "exe"), "b.exe");
    assert_eq!(with_extension("b", "dll"), "b.dll");
    assert_eq!(with_extension("..", "dll"), "dump.dll");
    let mut rebuilt = rebuilt_image();
    let unnamed = captured(0x8000_0000, Vec::new(), None);
    assert_eq!(output_name(&target(&[]), &unnamed, &rebuilt), "module-0000000080000000.dll");
    rebuilt.is_dll = false;
    assert_eq!(output_name(&target(&[]), &unnamed, &rebuilt), "module-0000000080000000.exe");
    let program = captured(0x8000_0000, Vec::new(), Some("helper.scr"));
    assert_eq!(output_name(&target(&[]), &program, &rebuilt), "helper.exe");
}

#[test]
fn the_main_image_keeps_the_name_of_the_target() {
    let rebuilt = rebuilt_image();
    let main = captured(MAIN_BASE, Vec::new(), Some("other.dll"));
    assert_eq!(output_name(&target(&[]), &main, &rebuilt), "target.exe");
    for name in ["a.scr", "TARGET.EXE", "Setup.Tmp", "noextension", "a.b.com"] {
        let mut process = target(&[]);
        process.name = name.to_string();
        assert_eq!(output_name(&process, &main, &rebuilt), name);
        assert_eq!(clean_name(name), Ok(name.to_string()));
    }
}

#[test]
fn modules_keep_the_names_that_they_have() {
    let rebuilt = rebuilt_image();
    for name in ["winspool.drv", "COMCTL32.DLL", "a.ocx", "plain"] {
        let module = captured(0x8000_0000, Vec::new(), Some(name));
        assert_eq!(output_name(&target(&[]), &module, &rebuilt), name);
    }
    let hidden = captured(0x8000_0000, Vec::new(), Some("C:\\a\\b.cpl"));
    assert_eq!(output_name(&target(&[]), &hidden, &rebuilt), "b.cpl");
    // A name that no file can have does not stop the other files.
    for (name, expected) in [("..", "dump.dll"), ("...", "...dll"), ("  ", "  .dll")] {
        let odd = captured(0x8000_0000, Vec::new(), Some(name));
        let chosen = output_name(&target(&[]), &odd, &rebuilt);
        assert_eq!(chosen, expected);
        assert!(clean_name(&chosen).is_ok());
    }
}

fn rebuilt_image() -> RebuiltImage {
    RebuiltImage {
        bytes: vec![1, 2, 3],
        kind: PeKind::Pe32,
        is_dll: true,
        section_count: 4,
        salvaged_headers: true,
        disk_headers_used: true,
        cleared_directories: 5,
        invalid_unwind_entries: 6,
        imports_rebuilt: 7,
        ambiguous_imports: 8,
    }
}

#[test]
fn only_known_images_are_written() {
    let rebuilt = rebuilt_image();
    let mut plain = rebuilt_image();
    plain.is_dll = false;
    let unnamed = captured(1, Vec::new(), None);
    assert!(should_write(&unnamed, &rebuilt, false));
    assert!(!should_write(&unnamed, &plain, false));
    assert!(should_write(&unnamed, &plain, true));
    assert!(should_write(&captured(MAIN_BASE, Vec::new(), None), &plain, false));
    let info = artifact_info(&unnamed, &rebuilt);
    assert_eq!(info.sections, 4);
    assert_eq!(info.ambiguous_imports, 8);
    assert!(info.salvaged_headers && !info.is_main);
}

fn no_stats() -> ExportStats {
    ExportStats { modules: 3, addresses: 14, forwarders: 2, unresolved_forwarders: 1 }
}

#[test]
fn modules_that_were_not_captured_have_failed() {
    let images = vec![captured(0x1000, Vec::new(), None)];
    let mut report = empty_report(&target(&[MAIN_BASE, 0x1000, 0x2000, 0x3000]), &images, no_stats(), 5, 1);
    assert_eq!(report.dll_failures, 2);
    build_image(&target(&[]), &images[0], Ok(rebuilt_image()), &mut report);
    assert_eq!(report.files.len(), 1);
    assert_eq!(report.files[0].bytes, [1, 2, 3]);
    build_image(&target(&[]), &images[0], Err(AppError::fixed("bad")), &mut report);
    assert_eq!(report.failures.len(), 0);
}

#[test]
fn disk_headers_are_the_second_try() {
    let mut image = captured(0x9000_0000, vec![0u8; 0x2000], Some("a.dll"));
    let index = ExportIndex::default();
    let error = AppError::fixed("first");
    let result = rebuild_with_disk_headers(&image, &index, None, error, Ok(image_bytes(0x2022)));
    assert_eq!(result.unwrap_err().message(), "first");
    image.path = Some("C:\\a.dll".to_string());
    let error = AppError::fixed("first");
    let result = rebuild_with_disk_headers(&image, &index, None, error, Ok(image_bytes(0x2022)));
    assert!(result.unwrap().disk_headers_used);
}

#[test]
fn counts_stop_at_the_largest_number() {
    let mut summary = DumpSummary::default();
    let mut info = artifact(false, true, usize::MAX).context;
    summary.add(&info);
    info.imports_rebuilt = 5;
    info.salvaged_headers = true;
    summary.add(&info);
    assert_eq!(summary.imports_rebuilt, usize::MAX);
    assert_eq!(summary.repaired_headers, 1);
    assert_eq!(summary.dlls, 2);
}

fn outcome(main_rebuilt: bool) -> DumpOutcome {
    let mut report = empty_report(&target(&[MAIN_BASE, 0x2000]), &Vec::new(), no_stats(), 5, 1);
    report.main_rebuilt = main_rebuilt;
    let main = captured(MAIN_BASE, Vec::new(), None);
    build_image(&target(&[]), &main, Ok(rebuilt_image()), &mut report);
    report.main_rebuilt = main_rebuilt;
    build_image(&target(&[]), &main, Err(AppError::fixed("bad")), &mut report);
    report.write(vec!["C:\\mempe\\target.exe".to_string()])
}

fn texts(lines: &[Line]) -> Vec<String> {
    lines.iter().map(|line| line.text()).collect()
}

#[test]
fn reports_what_was_written() {
    let plan = OutputPlan::new("C:\\mempe".to_string(), CollisionPolicy::Rename);
    let mut lines = Vec::new();
    let ending = finish_dump(&mut lines, &plan, &outcome(true));
    assert_eq!(ending, Ending::Partial);
    assert_eq!(
        texts(&lines),
        [
            "OUTPUT",
            "  Main       C:\\mempe\\target.exe",
            "  Layout     PE32, 4 sections, base 0x0000000140000000",
            "  DLLs       0",
            "  Hidden PEs 0",
            "  Folder     C:\\mempe",
            "",
            "ANALYSIS",
            "  Exports    3 modules, 14 addresses",
            "  Forwarders 2",
            "  Imports    7 recovered",
            "  Non-image  5 executable allocations",
            "",
            "WARNINGS",
            "  WARN  5 invalid or file-only directories were cleared",
            "  WARN  1 damaged PE headers were repaired",
            "  WARN  1 images used disk headers; section data came from memory",
            "  WARN  8 ambiguous import pointers were skipped",
            "  WARN  6 invalid x64 unwind entries were removed",
            "  WARN  1 forwarded exports did not match a loaded image",
            "  WARN  Could not rebuild target.exe at 0x0000000140000000: bad",
            "  WARN  4 executable non-image allocations did not contain a full PE",
            "PARTIAL  Main rebuilt: true; DLL failures: 1",
        ]
    );
}

#[test]
fn complete_dumps_end_well() {
    let plan = OutputPlan::new("f".to_string(), CollisionPolicy::Rename);
    let mut done = outcome(true);
    done.dll_failures = 0;
    let mut lines = Vec::new();
    assert_eq!(finish_dump(&mut lines, &plan, &done), Ending::Complete);
    assert_eq!(lines.last().unwrap().text(), "DONE  Analysis-ready memory images");
    done.main_rebuilt = false;
    assert_eq!(finish_dump(&mut lines, &plan, &done), Ending::Partial);
    assert_eq!(
        lines.last().unwrap().text(),
        "PARTIAL  Main rebuilt: false; DLL failures: 0"
    );
}

#[test]
fn quiet_dumps_have_no_warnings() {
    let mut quiet = outcome(true);
    quiet.failures = Vec::new();
    quiet.summary = DumpSummary::default();
    quiet.export_stats.unresolved_forwarders = 0;
    quiet.executable_non_image_allocations = 1;
    assert!(!quiet.has_warnings());
    let mut lines = Vec::new();
    render_warnings(&mut lines, &quiet);
    assert!(lines.is_empty());
    quiet.summary.unreadable_pages = 3;
    render_warnings(&mut lines, &quiet);
    assert_eq!(texts(&lines), ["", "WARNINGS", "  WARN  3 unreadable pages were zero-filled"]);
}

#[test]
fn reports_the_target_and_its_capture() {
    let mut lines = Vec::new();
    render_target(&mut lines, &target(&[]), "8.00 KiB");
    render_capture(&mut lines, &capture(Vec::new()));
    assert_eq!(
        texts(&lines),
        [
            "TARGET",
            "  Name       target.exe",
            "  PID        4216",
            "  Arch       x64",
            "  Image      0x0000000140000000 (8.00 KiB)",
            "",
            "CAPTURE",
            "  Method     live process read",
            "  Setup      12 ms",
            "  Images     0",
            "  WARN  PSS was unavailable (denied); live memory may have changed",
            "",
        ]
    );
}

#[test]
fn reports_waiting_and_failures() {
    let mut lines = Vec::new();
    find_target(&mut lines, &Command::Pid(ProcessId::new(4).unwrap()));
    assert!(lines.is_empty());
    find_target(&mut lines, &Command::Watch("a.exe".to_string()));
    let settled = StabilityInfo { elapsed_milliseconds: 400, settled: true };
    let moving = StabilityInfo { elapsed_milliseconds: 3000, settled: false };
    render_stability(&mut lines, &Ok(settled));
    render_stability(&mut lines, &Ok(moving));
    render_stability(&mut lines, &Err(AppError::fixed("gone")));
    let ending = render_failure(&mut lines, Step::Capture, &AppError::fixed("gone"));
    assert_eq!(ending, Ending::NoCapture);
    assert_eq!(
        texts(&lines),
        [
            "WATCH",
            "  Process    a.exe",
            "  Status     Waiting for a new process",
            "",
            "  OK  Memory was stable after 400 ms",
            "  WARN  Memory did not settle after 3000 ms; using the latest state",
            "  WARN  Could not check memory stability: gone",
            "  ERROR  Capture failed: gone",
        ]
    );
    assert_eq!(Line::Field("a very long name".to_string(), "x".to_string()).text(), "  a very long namex");
}

#[test]
fn exit_codes_tell_how_it_ended() {
    let codes: Vec<u8> = [
        Ending::Help,
        Ending::Complete,
        Ending::BadArguments,
        Ending::NoOutput,
        Ending::NoTarget,
        Ending::NoCapture,
        Ending::NotWritten,
        Ending::Partial,
    ]
    .iter()
    .map(|ending| ending.exit_code())
    .collect();
    assert_eq!(codes, [0, 0, 1, 1, 2, 2, 2, 3]);
}

#[test]
fn failed_steps_end_the_program() {
    let steps = [
        (Step::Arguments, Ending::BadArguments, 1u8, "  ERROR  bad"),
        (Step::Output, Ending::NoOutput, 1, "  ERROR  bad"),
        (Step::Target, Ending::NoTarget, 2, "  ERROR  bad"),
        (Step::Capture, Ending::NoCapture, 2, "  ERROR  Capture failed: bad"),
        (Step::Writing, Ending::NotWritten, 2, "  ERROR  Could not write mempe: bad"),
    ];
    for (step, ending, code, text) in steps {
        let mut lines = Vec::new();
        assert_eq!(render_failure(&mut lines, step, &AppError::fixed("bad")), ending);
        assert_eq!(step.stopped(), ending);
        assert_eq!(ending.exit_code(), code);
        assert_eq!(texts(&lines), [text]);
    }
}
