use mempe::process::{
    architecture_of, capture_wait, filetime_value, find_main_module, find_new_target, list_goes_on,
    matching_pids, paths_equal, process_path, retry_snapshot, target_name, wide_string,
    windows_error, ListKind, ModuleInfo, NextEntry, ProcessEntry, ProcessId, TargetArchitecture,
    TargetProcess, Watch, MAX_MODULES, MAX_PROCESSES, MAX_WATCH_POLLS,
};

fn pid(value: u32) -> ProcessId {
    ProcessId::new(value).unwrap()
}

fn module(path: &str, base: u64) -> ModuleInfo {
    ModuleInfo {
        name: path.to_string(),
        path: path.to_string(),
        base,
        size: 0x1000,
    }
}

fn target(number: u32, created: u64) -> TargetProcess {
    TargetProcess {
        pid: pid(number),
        name: "t.exe".to_string(),
        architecture: TargetArchitecture::X64,
        created,
        main_module: module("t.exe", 0x1000),
        modules: Vec::new(),
    }
}

fn entry(number: u32, name: &str) -> ProcessEntry {
    ProcessEntry { pid: pid(number), name: name.to_string() }
}

#[test]
fn process_ids_are_never_zero() {
    assert!(ProcessId::new(0).is_none());
    assert_eq!(pid(4216).get(), 4216);
}

#[test]
fn machines_decide_the_architecture() {
    assert_eq!(architecture_of(0x014C, 0x8664), Ok(TargetArchitecture::X86));
    assert_eq!(architecture_of(0, 0x8664), Ok(TargetArchitecture::X64));
    let error = architecture_of(0, 0xAA64).unwrap_err();
    assert_eq!(error.message(), "unsupported target machine: 0xAA64");
    assert_eq!(TargetArchitecture::X86.text(), "x86");
    assert_eq!(TargetArchitecture::X64.text(), "x64");
}

#[test]
fn targets_are_named_by_their_file() {
    assert_eq!(target_name("C:\\a\\b.exe").unwrap(), "b.exe");
    let error = target_name("C:\\").unwrap_err();
    assert_eq!(error.message(), "target image name is not valid Unicode");
}

#[test]
fn the_main_module_has_the_path_of_the_process() {
    let modules = [module("C:\\a.dll", 1), module("C:\\T.EXE", 2), module("c:\\t.exe", 3)];
    assert_eq!(find_main_module("c:\\t.exe", &modules).unwrap().base, 2);
    assert_eq!(find_main_module("c:\\other.exe", &modules).unwrap().base, 1);
    let error = find_main_module("c:\\t.exe", &[]).unwrap_err();
    assert_eq!(error.message(), "target has no modules");
    assert!(paths_equal("C:\\A", "c:\\a"));
}

#[test]
fn decodes_wide_text() {
    assert_eq!(wide_string(&[0x61, 0x62, 0, 0x63]), "ab");
    assert_eq!(wide_string(&[]), "");
    assert_eq!(wide_string(&[0xD83D, 0xDE00]), "\u{1F600}");
    assert_eq!(wide_string(&[0xD83D, 0x61]), "\u{FFFD}a");
    assert_eq!(wide_string(&[0xDE00]), "\u{FFFD}");
}

#[test]
fn reads_process_paths() {
    let buffer = [0x43u16, 0x3A, 0x5C, 0x78, 0, 0];
    assert_eq!(process_path(&buffer, 4).unwrap(), "C:\\x");
    let error = process_path(&buffer, 7).unwrap_err();
    assert_eq!(error.message(), "Windows returned an invalid process path length");
    let error = process_path(&[0xDC00], 1).unwrap_err();
    assert_eq!(error.message(), "process path contains invalid UTF-16");
}

#[test]
fn waits_a_second_after_the_start() {
    assert_eq!(filetime_value(5, 1), 0x1_0000_0005);
    assert_eq!(capture_wait(1_000, 1_000), 1_000_000_000);
    assert_eq!(capture_wait(1_000, 6_001_000), 400_000_000);
    assert_eq!(capture_wait(1_000, 10_001_000), 0);
    assert_eq!(capture_wait(u64::MAX, 0), u64::MAX);
}

#[test]
fn matches_names_without_case() {
    let entries = [entry(4, "A.exe"), entry(8, "b.exe"), entry(12, "a.EXE")];
    let pids = matching_pids("a.exe", &entries);
    assert_eq!(pids.len(), 2);
    assert!(pids.contains(&4) && pids.contains(&12));
}

#[test]
fn the_watch_ignores_running_processes() {
    let mut watch = Watch::start("a.exe", &[entry(4, "a.exe")]).unwrap();
    assert!(watch.poll(&[entry(4, "a.exe"), entry(8, "b.exe")]).is_empty());
    let found = watch.poll(&[entry(4, "A.EXE"), entry(12, "a.exe"), entry(12, "a.exe")]);
    assert_eq!(found, vec![pid(12)]);
    // A number that was given up can come back with a new process.
    assert!(watch.poll(&[entry(16, "b.exe")]).is_empty());
    assert_eq!(watch.poll(&[entry(4, "a.exe")]), vec![pid(4)]);
}

#[test]
fn the_watch_takes_only_what_it_found() {
    let mut watch = Watch::start("a.exe", &[]).unwrap();
    assert!(watch.confirm(pid(4), 100, Some(100)));
    assert!(!watch.confirm(pid(8), 100, Some(101)));
    assert!(!watch.confirm(pid(12), 100, None));
    assert!(watch.poll(&[entry(8, "a.exe"), entry(12, "a.exe")]).is_empty());
    let error = Watch::start("", &[]).err().unwrap();
    assert_eq!(error.message(), "watch name cannot be empty");
}

#[test]
fn the_watch_ends_after_a_day() {
    let mut watch = Watch::start("a.exe", &[]).unwrap();
    let mut polls = 0usize;
    let error = loop {
        match watch.go_on() {
            Ok(()) => {
                assert!(watch.poll(&[]).is_empty());
                polls += 1;
            }
            Err(error) => break error,
        }
    };
    assert_eq!(polls, MAX_WATCH_POLLS);
    assert_eq!(
        error.message(),
        "watch timed out after 24 hours without a new matching process"
    );
}

#[test]
fn the_oldest_candidate_is_taken() {
    assert!(find_new_target(Vec::new()).is_none());
    let chosen = find_new_target(vec![target(8, 20), target(12, 10), target(4, 10)]).unwrap();
    assert_eq!(chosen.pid.get(), 4);
}

#[test]
fn describes_failed_calls() {
    assert_eq!(
        windows_error("OpenProcess", "denied").message(),
        "OpenProcess failed: denied"
    );
}

fn denied() -> NextEntry {
    NextEntry::Failed("denied".to_string())
}

#[test]
fn lists_are_limited() {
    assert_eq!(list_goes_on(ListKind::Processes, 1, NextEntry::More), Ok(true));
    assert_eq!(list_goes_on(ListKind::Processes, MAX_PROCESSES, NextEntry::End), Ok(false));
    let error = list_goes_on(ListKind::Processes, MAX_PROCESSES, NextEntry::More).unwrap_err();
    assert_eq!(error.message(), "too many processes were returned");
    let error = list_goes_on(ListKind::Processes, 1, denied()).unwrap_err();
    assert_eq!(error.message(), "Process32NextW failed: denied");
    assert_eq!(list_goes_on(ListKind::Modules, MAX_MODULES - 1, NextEntry::More), Ok(true));
    let error = list_goes_on(ListKind::Modules, MAX_MODULES, NextEntry::More).unwrap_err();
    assert_eq!(error.message(), "too many modules were returned");
    let error = list_goes_on(ListKind::Modules, 1, denied()).unwrap_err();
    assert_eq!(error.message(), "Module32NextW failed: denied");
}

#[test]
fn modules_are_listed_again_while_they_change() {
    assert_eq!(retry_snapshot(7, true, "length"), Ok(()));
    let error = retry_snapshot(8, true, "length").unwrap_err();
    assert_eq!(error.message(), "could not get a stable module list after eight tries");
    let error = retry_snapshot(1, false, "denied").unwrap_err();
    assert_eq!(error.message(), "CreateToolhelp32Snapshot(modules) failed: denied");
}
