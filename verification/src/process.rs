//! The target process: what is known of it, and how a new one is told from those that ran before.

use std::collections::HashSet;
use vstd::prelude::*;

use crate::error::{AppError, AppResult};
use crate::error;
use crate::path::file_name;
use crate::path;
use crate::pe::parse::{MACHINE_AMD64, MACHINE_I386};
use crate::text::{eq_ignore_case, with_wide_hex};
use crate::text;

verus! {

broadcast use vstd::std_specs::hash::group_hash_axioms;

pub const MAX_PROCESSES: usize = 65_536;

pub const MAX_MODULES: usize = 4_096;

pub const MAX_MODULE_SNAPSHOT_TRIES: usize = 8;

pub const MAX_WATCH_POLLS: usize = 864_000;

/// The time between the start of a process and its capture, in units of 100 nanoseconds.
pub const CAPTURE_DELAY_FILETIME: u64 = 10_000_000;

/// The number of a process: never zero.
#[derive(Clone, Copy, Debug, PartialEq, Eq, Structural)]
pub struct ProcessId(u32);

impl View for ProcessId {
    type V = u32;

    closed spec fn view(&self) -> u32 {
        self.0
    }
}

impl ProcessId {
    #[verifier::type_invariant]
    spec fn is_set(self) -> bool {
        self.0 != 0
    }

    /// The process with this number, unless that is zero.
    pub fn new(value: u32) -> (pid: Option<ProcessId>)
        ensures
            value == 0 ==> pid is None,
            value != 0 ==> pid is Some && pid->0@ == value,
    {
        if value != 0 {
            Some(ProcessId(value))
        } else {
            None
        }
    }

    /// The number of the process.
    pub fn get(self) -> (value: u32)
        ensures
            value == self@,
            value != 0,
    {
        proof {
            use_type_invariant(self);
        }
        self.0
    }
}

/// The instruction set of a target.
#[derive(Clone, Copy, Debug, PartialEq, Eq, Structural)]
pub enum TargetArchitecture {
    X86,
    X64,
}

impl TargetArchitecture {
    /// The name that is shown for the instruction set.
    pub open spec fn name(self) -> Seq<char> {
        match self {
            TargetArchitecture::X86 => "x86"@,
            TargetArchitecture::X64 => "x64"@,
        }
    }

    /// The name that is shown for the instruction set.
    pub fn text(&self) -> (name: &'static str)
        ensures
            name@ == self.name(),
    {
        match self {
            TargetArchitecture::X86 => "x86",
            TargetArchitecture::X64 => "x64",
        }
    }
}

/// The machine that a process runs on: its own, or else that of the system.
pub open spec fn process_architecture(process_machine: u16, native_machine: u16) -> Result<
    TargetArchitecture,
    Seq<char>,
> {
    let machine = if process_machine == 0 {
        native_machine
    } else {
        process_machine
    };
    if machine == MACHINE_I386 {
        Ok(TargetArchitecture::X86)
    } else if machine == MACHINE_AMD64 {
        Ok(TargetArchitecture::X64)
    } else {
        Err("unsupported target machine: 0x"@ + text::wide_hex(machine as nat, 4))
    }
}

/// The instruction set of a process, from the machines that the system reports. Zero stands for
/// a process that runs on the machine of the system.
pub fn architecture_of(process_machine: u16, native_machine: u16) -> (architecture: AppResult<
    TargetArchitecture,
>)
    ensures
        match process_architecture(process_machine, native_machine) {
            Ok(expected) => architecture == Ok::<TargetArchitecture, AppError>(expected),
            Err(message) => error::fails(architecture, message),
        },
{
    let machine: u16 = if process_machine == 0 {
        native_machine
    } else {
        process_machine
    };
    if machine == MACHINE_I386 {
        return Ok(TargetArchitecture::X86);
    }
    if machine == MACHINE_AMD64 {
        return Ok(TargetArchitecture::X64);
    }
    Err(AppError::new(with_wide_hex("unsupported target machine: 0x", machine as u64, 4)))
}

/// A module that the loader has mapped.
#[derive(Debug)]
pub struct ModuleInfo {
    pub name: String,
    pub path: String,
    pub base: u64,
    pub size: u64,
}

/// A module, seen mathematically.
pub struct ModuleView {
    pub name: Seq<char>,
    pub path: Seq<char>,
    pub base: u64,
    pub size: u64,
}

impl View for ModuleInfo {
    type V = ModuleView;

    open spec fn view(&self) -> ModuleView {
        ModuleView { name: self.name@, path: self.path@, base: self.base, size: self.size }
    }
}

impl ModuleInfo {
    /// The same module once more.
    pub fn copy(&self) -> (module: ModuleInfo)
        ensures
            module@ == self@,
    {
        ModuleInfo {
            name: self.name.clone(),
            path: self.path.clone(),
            base: self.base,
            size: self.size,
        }
    }
}

/// Modules, seen mathematically.
pub open spec fn module_views(modules: Seq<ModuleInfo>) -> Seq<ModuleView> {
    modules.map_values(|module: ModuleInfo| module@)
}

/// A process that can be dumped.
#[derive(Debug)]
pub struct TargetProcess {
    pub pid: ProcessId,
    pub name: String,
    pub architecture: TargetArchitecture,
    pub created: u64,
    pub main_module: ModuleInfo,
    pub modules: Vec<ModuleInfo>,
}

/// A running process.
#[derive(Debug)]
pub struct ProcessEntry {
    pub pid: ProcessId,
    pub name: String,
}

/// What is said of a path whose file name cannot be told.
pub open spec fn nameless() -> Seq<char> {
    "target image name is not valid Unicode"@
}

/// The name of a target: the file name of its image.
pub fn target_name(image: &str) -> (name: AppResult<String>)
    ensures
        match path::file_name_of(image@) {
            Some(expected) => name is Ok && name->Ok_0@ == expected,
            None => error::fails(name, nameless()),
        },
{
    match file_name(image) {
        Some(name) => Ok(name),
        None => Err(AppError::fixed("target image name is not valid Unicode")),
    }
}

/// Compares two paths without regard to the case of ASCII letters.
pub fn paths_equal(left: &str, right: &str) -> (equal: bool)
    ensures
        equal == text::same_letters(left@, right@),
{
    eq_ignore_case(left, right)
}

/// The module with this index is the first whose file is the image of the process.
pub open spec fn is_main(image: Seq<char>, modules: Seq<ModuleView>, index: int) -> bool {
    &&& 0 <= index < modules.len()
    &&& text::same_letters(modules[index].path, image)
    &&& forall|earlier: int|
        0 <= earlier < index ==> !text::same_letters(
            (#[trigger] modules[earlier]).path,
            image,
        )
}

/// The main module: the first whose file is the image of the process, or else the first.
pub open spec fn main_module_of(image: Seq<char>, modules: Seq<ModuleView>) -> Result<
    ModuleView,
    Seq<char>,
> {
    if modules.len() == 0 {
        Err("target has no modules"@)
    } else if exists|index: int| #[trigger] is_main(image, modules, index) {
        Ok(modules[choose|index: int| #[trigger] is_main(image, modules, index)])
    } else {
        Ok(modules[0])
    }
}

/// Finds the main module.
pub fn find_main_module(image: &str, modules: &[ModuleInfo]) -> (module: AppResult<ModuleInfo>)
    ensures
        error::agrees(module, main_module_of(image@, module_views(modules@))),
{
    let ghost views = module_views(modules@);
    let mut index: usize = 0;
    while index < modules.len()
        invariant
            index <= modules@.len(),
            views == module_views(modules@),
            forall|earlier: int|
                0 <= earlier < index ==> !text::same_letters(
                    (#[trigger] views[earlier]).path,
                    image@,
                ),
        decreases modules@.len() - index,
    {
        assert(views[index as int] == modules@[index as int]@);
        if paths_equal(modules[index].path.as_str(), image) {
            proof {
                assert(is_main(image@, views, index as int));
                let chosen = choose|other: int| #[trigger] is_main(image@, views, other);
                assert(is_main(image@, views, chosen));
                if chosen < index {
                    assert(!text::same_letters(views[chosen].path, image@));
                } else if index < chosen {
                    assert(!text::same_letters(views[index as int].path, image@));
                }
            }
            return Ok(modules[index].copy());
        }
        index = index + 1;
    }
    if modules.len() == 0 {
        return Err(AppError::fixed("target has no modules"));
    }
    assert(views[0] == modules@[0]@);
    Ok(modules[0].copy())
}

/// `char::from_u32` of std: the character with this number, if there is one. The numbers from
/// 0xD800 to 0xDFFF and those above 0x10FFFF have none.
pub assume_specification[ char::from_u32 ](code: u32) -> (letter: Option<char>)
    ensures
        letter == (if code < 0xD800 || (0xE000 <= code && code <= 0x10_FFFF) {
            Some(code as char)
        } else {
            None
        }),
;

/// The character that stands for units that encode none.
pub const REPLACEMENT: char = '\u{FFFD}';

/// The unit is the first half of a pair.
pub open spec fn high_surrogate(unit: u16) -> bool {
    0xD800 <= unit <= 0xDBFF
}

/// The unit is the second half of a pair.
pub open spec fn low_surrogate(unit: u16) -> bool {
    0xDC00 <= unit <= 0xDFFF
}

/// The first character of UTF-16 text, and how many units it takes. A half without its other
/// half is no character.
pub open spec fn first_character(units: Seq<u16>) -> (Option<char>, int) {
    let unit = units[0];
    if !high_surrogate(unit) && !low_surrogate(unit) {
        (Some(unit as char), 1)
    } else if high_surrogate(unit) && units.len() > 1 && low_surrogate(units[1]) {
        (Some((0x1_0000 + (unit - 0xD800) * 0x400 + (units[1] - 0xDC00)) as char), 2)
    } else {
        (None, 1)
    }
}

/// UTF-16 text, with a replacement for each unit that encodes no character.
pub open spec fn lossy_text(units: Seq<u16>) -> Seq<char>
    decreases units.len(),
{
    if units.len() == 0 {
        Seq::empty()
    } else {
        let (letter, taken) = first_character(units);
        seq![
            match letter {
                Some(letter) => letter,
                None => REPLACEMENT,
            },
        ] + lossy_text(units.skip(taken))
    }
}

/// Every unit encodes a character.
pub open spec fn well_formed(units: Seq<u16>) -> bool
    decreases units.len(),
{
    units.len() == 0 || (first_character(units).0 is Some && well_formed(
        units.skip(first_character(units).1),
    ))
}

/// Decodes the units from `from` up to `to`, and says whether each encodes a character.
fn decode(units: &[u16], from: usize, to: usize) -> (decoded: (String, bool))
    requires
        from <= to <= units@.len(),
    ensures
        decoded.0@ == lossy_text(units@.subrange(from as int, to as int)),
        decoded.1 == well_formed(units@.subrange(from as int, to as int)),
{
    let ghost all = units@.subrange(from as int, to as int);
    let mut string: String = String::new();
    let mut sound: bool = true;
    let mut at: usize = from;
    assert(string@ + lossy_text(all) =~= lossy_text(all));
    assert(units@.subrange(at as int, to as int) =~= all);
    while at < to
        invariant
            from <= at <= to <= units@.len(),
            all == units@.subrange(from as int, to as int),
            string@ + lossy_text(units@.subrange(at as int, to as int)) == lossy_text(all),
            well_formed(all) == (sound && well_formed(units@.subrange(at as int, to as int))),
        decreases to - at,
    {
        let ghost rest = units@.subrange(at as int, to as int);
        let ghost before = string@;
        let unit: u16 = units[at];
        assert(rest[0] == unit);
        let mut code: u32 = unit as u32;
        let mut taken: usize = 1;
        if 0xD800 <= unit && unit <= 0xDBFF && to - at > 1 && 0xDC00 <= units[at + 1] && units[at
            + 1] <= 0xDFFF {
            assert(rest[1] == units@[at + 1]);
            code = 0x1_0000 + (unit as u32 - 0xD800) * 0x400 + (units[at + 1] as u32 - 0xDC00);
            taken = 2;
        }
        match char::from_u32(code) {
            Some(letter) => {
                string.push(letter);
            },
            None => {
                string.push(REPLACEMENT);
                sound = false;
            },
        }
        proof {
            let (letter, count) = first_character(rest);
            assert(count == taken);
            assert(rest.skip(count) =~= units@.subrange(at + taken, to as int));
            assert(string@ + lossy_text(rest.skip(count)) =~= before + lossy_text(rest));
        }
        at = at + taken;
    }
    assert(lossy_text(units@.subrange(at as int, to as int)) =~= Seq::empty());
    (string, sound)
}

/// The units before the first zero.
pub open spec fn before_zero(units: Seq<u16>) -> Seq<u16>
    decreases units.len(),
{
    if units.len() == 0 || units[0] == 0 {
        Seq::empty()
    } else {
        seq![units[0]] + before_zero(units.skip(1))
    }
}

proof fn lemma_before_zero(units: Seq<u16>, count: int)
    requires
        0 <= count <= units.len(),
        forall|i: int| 0 <= i < count ==> #[trigger] units[i] != 0,
        count == units.len() || units[count] == 0,
    ensures
        before_zero(units) == units.take(count),
    decreases units.len(),
{
    if count > 0 {
        let rest = units.skip(1);
        assert forall|i: int| 0 <= i < count - 1 implies #[trigger] rest[i] != 0 by {
            assert(rest[i] == units[i + 1]);
        }
        lemma_before_zero(rest, count - 1);
        assert(units.take(count) =~= seq![units[0]] + rest.take(count - 1));
    } else {
        assert(units.take(0) =~= Seq::<u16>::empty());
    }
}

/// The text in a buffer: up to its first zero, with a replacement for each unit that encodes no
/// character.
pub fn wide_string(buffer: &[u16]) -> (string: String)
    ensures
        string@ == lossy_text(before_zero(buffer@)),
{
    let mut length: usize = 0;
    while length < buffer.len() && buffer[length] != 0
        invariant
            length <= buffer@.len(),
            forall|i: int| 0 <= i < length ==> #[trigger] buffer@[i] != 0,
        decreases buffer@.len() - length,
    {
        length = length + 1;
    }
    proof {
        lemma_before_zero(buffer@, length as int);
        assert(buffer@.subrange(0, length as int) =~= buffer@.take(length as int));
    }
    decode(buffer, 0, length).0
}

/// The path in the first `used` units of a buffer.
pub fn process_path(buffer: &[u16], used: usize) -> (path: AppResult<String>)
    ensures
        if used > buffer@.len() {
            error::fails(path, "Windows returned an invalid process path length"@)
        } else if !well_formed(buffer@.take(used as int)) {
            error::fails(path, "process path contains invalid UTF-16"@)
        } else {
            path is Ok && path->Ok_0@ == lossy_text(buffer@.take(used as int))
        },
{
    if used > buffer.len() {
        return Err(AppError::fixed("Windows returned an invalid process path length"));
    }
    assert(buffer@.subrange(0, used as int) =~= buffer@.take(used as int));
    let decoded: (String, bool) = decode(buffer, 0, used);
    if !decoded.1 {
        return Err(AppError::fixed("process path contains invalid UTF-16"));
    }
    Ok(decoded.0)
}

/// The time that two 32-bit halves stand for, in units of 100 nanoseconds.
pub fn filetime_value(low: u32, high: u32) -> (value: u64)
    ensures
        value == 0x1_0000_0000 * high + low,
{
    0x1_0000_0000 * (high as u64) + low as u64
}

/// The nanoseconds to wait before a process that started at `created` is captured.
pub open spec fn wait_before_capture(created: u64, now: u64) -> int {
    let deadline = if created + CAPTURE_DELAY_FILETIME > u64::MAX {
        u64::MAX as int
    } else {
        created + CAPTURE_DELAY_FILETIME
    };
    if deadline <= now {
        0
    } else if (deadline - now) * 100 > u64::MAX {
        u64::MAX as int
    } else {
        (deadline - now) * 100
    }
}

/// The nanoseconds to wait before a process that started at `created` is captured.
pub fn capture_wait(created: u64, now: u64) -> (nanoseconds: u64)
    ensures
        nanoseconds == wait_before_capture(created, now),
{
    let deadline: u64 = created.saturating_add(CAPTURE_DELAY_FILETIME);
    let remaining: u64 = deadline.saturating_sub(now);
    match remaining.checked_mul(100) {
        Some(nanoseconds) => nanoseconds,
        None => u64::MAX,
    }
}

/// A process with this number and this name runs.
pub open spec fn runs(name: Seq<char>, entries: Seq<ProcessEntry>, pid: u32) -> bool {
    exists|i: int|
        0 <= i < entries.len() && (#[trigger] entries[i]).pid@ == pid && text::same_letters(
            entries[i].name@,
            name,
        )
}

/// The processes with this name, without regard to the case of ASCII letters.
pub fn matching_pids(name: &str, entries: &[ProcessEntry]) -> (pids: HashSet<u32>)
    ensures
        forall|pid: u32| #[trigger] pids@.contains(pid) <==> runs(name@, entries@, pid),
{
    let mut pids: HashSet<u32> = HashSet::new();
    let mut index: usize = 0;
    while index < entries.len()
        invariant
            index <= entries@.len(),
            forall|pid: u32| #[trigger]
                pids@.contains(pid) <==> exists|i: int|
                    0 <= i < index && (#[trigger] entries@[i]).pid@ == pid && text::same_letters(
                        entries@[i].name@,
                        name@,
                    ),
        decreases entries@.len() - index,
    {
        if eq_ignore_case(entries[index].name.as_str(), name) {
            pids.insert(entries[index].pid.get());
        }
        index = index + 1;
    }
    pids
}

/// The processes with this name that run now and are not among `known`, in the order of the
/// list, each one once, and no more than can be looked at.
pub open spec fn new_pids(
    name: Seq<char>,
    entries: Seq<ProcessEntry>,
    known: Set<u32>,
    count: nat,
) -> Seq<u32>
    decreases count,
{
    if count == 0 {
        Seq::empty()
    } else {
        let earlier = new_pids(name, entries, known, (count - 1) as nat);
        let entry = entries[count - 1];
        if text::same_letters(entry.name@, name) && !known.contains(entry.pid@)
            && !earlier.contains(entry.pid@) && earlier.len() < MAX_PROCESSES {
            earlier.push(entry.pid@)
        } else {
            earlier
        }
    }
}

/// The watch never takes a process that ran already: each process that it lists is new, runs now,
/// and has the name.
pub proof fn known_processes_are_ignored(
    name: Seq<char>,
    entries: Seq<ProcessEntry>,
    known: Set<u32>,
    count: nat,
)
    requires
        count <= entries.len(),
    ensures
        forall|index: int|
            #![trigger new_pids(name, entries, known, count)[index]]
            0 <= index < new_pids(name, entries, known, count).len() ==> !known.contains(
                new_pids(name, entries, known, count)[index],
            ) && runs(name, entries, new_pids(name, entries, known, count)[index]),
    decreases count,
{
    if count > 0 {
        known_processes_are_ignored(name, entries, known, (count - 1) as nat);
        let earlier = new_pids(name, entries, known, (count - 1) as nat);
        let pids = new_pids(name, entries, known, count);
        assert forall|index: int| #![trigger pids[index]] 0 <= index < pids.len() implies !known.contains(
            pids[index],
        ) && runs(name, entries, pids[index]) by {
            if index < earlier.len() {
                assert(pids[index] == earlier[index]);
            } else {
                assert(entries[count - 1].pid@ == pids[index]);
            }
        }
    }
}

/// Processes, seen as their numbers.
pub open spec fn pid_views(pids: Seq<ProcessId>) -> Seq<u32> {
    pids.map_values(|pid: ProcessId| pid@)
}

/// Watching for a new process of one name.
pub struct Watch {
    name: String,
    known: HashSet<u32>,
    polls: usize,
}

impl Watch {
    /// The name that is watched for.
    pub closed spec fn wanted(&self) -> Seq<char> {
        self.name@
    }

    /// The processes that do not count as new.
    pub closed spec fn known(&self) -> Set<u32> {
        self.known@
    }

    /// How often the processes were looked at.
    pub closed spec fn polls(&self) -> int {
        self.polls as int
    }

    /// Starts to watch. The processes that run already do not count as new.
    pub fn start(name: &str, entries: &[ProcessEntry]) -> (watch: AppResult<Watch>)
        ensures
            name@.len() == 0 ==> error::fails(watch, "watch name cannot be empty"@),
            name@.len() > 0 ==> watch is Ok && watch->Ok_0.wanted() == name@
                && watch->Ok_0.polls() == 0 && forall|pid: u32|
                #[trigger]
                watch->Ok_0.known().contains(pid) <==> runs(name@, entries@, pid),
    {
        if name.is_empty() {
            return Err(AppError::fixed("watch name cannot be empty"));
        }
        Ok(Watch { name: name.to_owned(), known: matching_pids(name, entries), polls: 0 })
    }

    /// Takes note of the processes that run now, and lists the new ones. A process that has ended
    /// is forgotten.
    pub fn poll(&mut self, entries: &[ProcessEntry]) -> (pids: Vec<ProcessId>)
        requires
            old(self).polls() < MAX_WATCH_POLLS,
        ensures
            final(self).wanted() == old(self).wanted(),
            final(self).polls() == old(self).polls() + 1,
            forall|pid: u32| #[trigger]
                final(self).known().contains(pid) <==> old(self).known().contains(pid) && runs(
                    old(self).wanted(),
                    entries@,
                    pid,
                ),
            pid_views(pids@) == new_pids(
                old(self).wanted(),
                entries@,
                old(self).known(),
                entries@.len(),
            ),
    {
        let mut still: HashSet<u32> = HashSet::new();
        let mut listed: HashSet<u32> = HashSet::new();
        let mut pids: Vec<ProcessId> = Vec::new();
        let ghost known = self.known@;
        let ghost name = self.name@;
        let mut index: usize = 0;
        assert(pid_views(pids@) =~= Seq::empty());
        while index < entries.len()
            invariant
                index <= entries@.len(),
                known == self.known@,
                name == self.name@,
                *self == *old(self),
                pid_views(pids@) == new_pids(name, entries@, known, index as nat),
                forall|pid: u32| #[trigger]
                    listed@.contains(pid) <==> pid_views(pids@).contains(pid),
                forall|pid: u32| #[trigger]
                    still@.contains(pid) <==> known.contains(pid) && exists|i: int|
                        0 <= i < index && (#[trigger] entries@[i]).pid@ == pid
                            && text::same_letters(entries@[i].name@, name),
            decreases entries@.len() - index,
        {
            if eq_ignore_case(entries[index].name.as_str(), self.name.as_str()) {
                let pid: ProcessId = entries[index].pid;
                let number: u32 = pid.get();
                if self.known.contains(&number) {
                    still.insert(number);
                } else if !listed.contains(&number) && pids.len() < MAX_PROCESSES {
                    let ghost earlier = pids@;
                    pids.push(pid);
                    listed.insert(number);
                    proof {
                        assert(pid_views(pids@) =~= pid_views(earlier).push(number));
                        assert forall|other: u32| #[trigger]
                            listed@.contains(other) == pid_views(pids@).contains(other) by {
                            if pid_views(earlier).contains(other) {
                                let i = choose|i: int|
                                    0 <= i < pid_views(earlier).len() && pid_views(earlier)[i]
                                        == other;
                                assert(pid_views(pids@)[i] == other);
                            }
                            if other == number {
                                assert(pid_views(pids@)[earlier.len() as int] == other);
                            }
                        }
                    }
                }
            }
            index = index + 1;
        }
        self.known = still;
        self.polls = self.polls + 1;
        pids
    }

    /// Checks that the processes may be looked at once more. After 24 hours the watch gives up.
    pub fn go_on(&self) -> (outcome: AppResult<()>)
        ensures
            self.polls() < MAX_WATCH_POLLS ==> outcome is Ok,
            self.polls() >= MAX_WATCH_POLLS ==> error::fails(
                outcome,
                "watch timed out after 24 hours without a new matching process"@,
            ),
    {
        if self.polls < MAX_WATCH_POLLS {
            Ok(())
        } else {
            Err(AppError::fixed("watch timed out after 24 hours without a new matching process"))
        }
    }

    /// Takes a process for the target if it is still the one that was found, and else counts it
    /// among the known ones. `confirmed` is when the process with this number started, asked once
    /// more.
    pub fn confirm(&mut self, pid: ProcessId, created: u64, confirmed: Option<u64>) -> (taken: bool)
        ensures
            taken == (confirmed == Some(created)),
            final(self).wanted() == old(self).wanted(),
            final(self).polls() == old(self).polls(),
            final(self).known() == if taken {
                old(self).known()
            } else {
                old(self).known().insert(pid@)
            },
    {
        if let Some(started) = confirmed {
            if started == created {
                return true;
            }
        }
        self.known.insert(pid.get());
        false
    }
}

/// The one process comes before the other: it started earlier, or at the same time with a
/// smaller number.
pub open spec fn comes_before(left: TargetProcess, right: TargetProcess) -> bool {
    left.created < right.created || (left.created == right.created && left.pid@ < right.pid@)
}

/// The candidate with this index is the one to take: none comes before it, and of those that come
/// with it, it is the first.
pub open spec fn is_first_target(candidates: Seq<TargetProcess>, index: int) -> bool {
    &&& 0 <= index < candidates.len()
    &&& forall|i: int|
        0 <= i < candidates.len() ==> !comes_before(#[trigger] candidates[i], candidates[index])
    &&& forall|i: int| 0 <= i < index ==> comes_before(candidates[index], #[trigger] candidates[i])
}

/// Chooses the target among the new processes that could be queried: the one that started first.
pub fn find_new_target(candidates: Vec<TargetProcess>) -> (target: Option<TargetProcess>)
    ensures
        candidates@.len() == 0 <==> target is None,
        target is Some ==> exists|index: int| #[trigger]
            is_first_target(candidates@, index) && candidates@[index] == target->0,
{
    let mut list: Vec<TargetProcess> = candidates;
    if list.len() == 0 {
        return None;
    }
    let mut best: usize = 0;
    let mut index: usize = 1;
    while index < list.len()
        invariant
            best < index <= list@.len(),
            list@ == candidates@,
            forall|i: int| 0 <= i < index ==> !comes_before(#[trigger] list@[i], list@[best as int]),
            forall|i: int| 0 <= i < best ==> comes_before(list@[best as int], #[trigger] list@[i]),
        decreases list@.len() - index,
    {
        let created: u64 = list[index].created;
        let best_created: u64 = list[best].created;
        if created < best_created || (created == best_created && list[index].pid.get()
            < list[best].pid.get()) {
            best = index;
        }
        index = index + 1;
    }
    assert(is_first_target(candidates@, best as int));
    Some(list.remove(best))
}

/// What is said of a call that failed.
pub open spec fn call_failure(action: Seq<char>, detail: Seq<char>) -> Seq<char> {
    action + " failed: "@ + detail
}

/// The error of a call that failed; `detail` is what the system says of it.
pub fn windows_error(action: &str, detail: &str) -> (error: AppError)
    ensures
        error@ == call_failure(action@, detail@),
{
    let mut message: String = action.to_owned();
    message.append(" failed: ");
    message.append(detail);
    AppError::new(message)
}

/// What the system answers when it is asked for the next entry of a list.
#[derive(Debug)]
pub enum NextEntry {
    More,
    End,
    /// The call failed; this is what the system says of it.
    Failed(String),
}

/// What a list of the system holds.
#[derive(Clone, Copy, Debug, PartialEq, Eq, Structural)]
pub enum ListKind {
    Processes,
    Modules,
}

/// Whether a list goes on after `seen` entries, or why it cannot be used.
pub open spec fn list_continues(kind: ListKind, seen: usize, answer: NextEntry) -> Result<
    bool,
    Seq<char>,
> {
    match (answer, kind) {
        (NextEntry::End, _) => Ok(false),
        (NextEntry::Failed(detail), ListKind::Processes) => Err(
            call_failure("Process32NextW"@, detail@),
        ),
        (NextEntry::Failed(detail), ListKind::Modules) => Err(
            call_failure("Module32NextW"@, detail@),
        ),
        (NextEntry::More, ListKind::Processes) => if seen >= MAX_PROCESSES {
            Err("too many processes were returned"@)
        } else {
            Ok(true)
        },
        (NextEntry::More, ListKind::Modules) => if seen >= MAX_MODULES {
            Err("too many modules were returned"@)
        } else {
            Ok(true)
        },
    }
}

/// Decides whether a list goes on after `seen` entries.
pub fn list_goes_on(kind: ListKind, seen: usize, answer: NextEntry) -> (more: AppResult<bool>)
    ensures
        match list_continues(kind, seen, answer) {
            Ok(expected) => more == Ok::<bool, AppError>(expected),
            Err(message) => error::fails(more, message),
        },
{
    match answer {
        NextEntry::End => Ok(false),
        NextEntry::Failed(detail) => match kind {
            ListKind::Processes => Err(windows_error("Process32NextW", detail.as_str())),
            ListKind::Modules => Err(windows_error("Module32NextW", detail.as_str())),
        },
        NextEntry::More => match kind {
            ListKind::Processes => if seen >= MAX_PROCESSES {
                Err(AppError::fixed("too many processes were returned"))
            } else {
                Ok(true)
            },
            ListKind::Modules => if seen >= MAX_MODULES {
                Err(AppError::fixed("too many modules were returned"))
            } else {
                Ok(true)
            },
        },
    }
}

/// Why no list of modules was taken, if that is final after `tries` tries.
pub open spec fn snapshot_failure(tries: usize, unstable: bool, detail: Seq<char>) -> Option<
    Seq<char>,
> {
    if !unstable {
        Some(call_failure("CreateToolhelp32Snapshot(modules)"@, detail))
    } else if tries >= MAX_MODULE_SNAPSHOT_TRIES {
        Some("could not get a stable module list after eight tries"@)
    } else {
        None
    }
}

/// Decides whether the modules are listed once more after `tries` tries that failed. Only a list
/// that changed meanwhile is worth another try; `unstable` says whether it did, and `detail` what
/// the system says.
pub fn retry_snapshot(tries: usize, unstable: bool, detail: &str) -> (outcome: AppResult<()>)
    ensures
        match snapshot_failure(tries, unstable, detail@) {
            Some(message) => error::fails(outcome, message),
            None => outcome is Ok,
        },
{
    if !unstable {
        return Err(windows_error("CreateToolhelp32Snapshot(modules)", detail));
    }
    if tries >= MAX_MODULE_SNAPSHOT_TRIES {
        return Err(AppError::fixed("could not get a stable module list after eight tries"));
    }
    Ok(())
}

} // verus!
