//! What the command line asks for, and which process is taken.

use vstd::prelude::*;

use crate::cli;
use crate::cli::{ArgumentView, CommandView, RequestView};
use crate::process;
use crate::process::{ListKind, ModuleView, NextEntry, ProcessEntry, TargetArchitecture};
use crate::text;

verus! {

/// An argument that can be read.
pub open spec fn readable(string: Seq<char>) -> ArgumentView {
    ArgumentView { text: string, valid: true }
}

proof fn lemma_options()
    ensures
        "-p"@ == seq!['-', 'p'],
        "-w"@ == seq!['-', 'w'],
        "-e"@ == seq!['-', 'e'],
        "-h"@ == seq!['-', 'h'],
        "--entry-point"@ == seq![
            '-',
            '-',
            'e',
            'n',
            't',
            'r',
            'y',
            '-',
            'p',
            'o',
            'i',
            'n',
            't',
        ],
        "--help"@ == seq!['-', '-', 'h', 'e', 'l', 'p'],
{
    reveal_strlit("-p");
    reveal_strlit("-w");
    reveal_strlit("-e");
    reveal_strlit("-h");
    reveal_strlit("--entry-point");
    reveal_strlit("--help");
    assert("-p"@ =~= seq!['-', 'p']);
    assert("-w"@ =~= seq!['-', 'w']);
    assert("-e"@ =~= seq!['-', 'e']);
    assert("-h"@ =~= seq!['-', 'h']);
    assert("--entry-point"@ =~= seq![
        '-',
        '-',
        'e',
        'n',
        't',
        'r',
        'y',
        '-',
        'p',
        'o',
        'i',
        'n',
        't',
    ]);
    assert("--help"@ =~= seq!['-', '-', 'h', 'e', 'l', 'p']);
}

/// The two names of the option for the entry point.
pub open spec fn entry_option(option: Seq<char>) -> bool {
    ||| option == seq!['-', 'e']
    ||| option == seq!['-', '-', 'e', 'n', 't', 'r', 'y', '-', 'p', 'o', 'i', 'n', 't']
}

proof fn lemma_pid_and_entry_point(args: Seq<ArgumentView>, pid: u32, rva: u32)
    requires
        args.len() == 5,
        args[1].text == seq!['-', 'p'],
        args[2].valid,
        cli::number_of(args[2].text) == Some(pid as nat),
        entry_option(args[3].text),
        args[4].valid,
        cli::number_of(args[4].text) == Some(rva as nat),
        pid != 0,
        rva != 0,
    ensures
        cli::request_of(args) == Ok::<Option<RequestView>, Seq<char>>(
            Some(RequestView { command: CommandView::Pid(pid), entry_point: Some(rva) }),
        ),
{
    lemma_options();
    assert(seq!['-', 'p'][1] == 'p' && seq!['-', 'h'][1] == 'h');
    assert(seq!['-', '-', 'h', 'e', 'l', 'p'].len() == 6);
}

/// A request for a process and an entry point holds both numbers, as they were given.
pub proof fn requests_hold_pid_and_entry_point(
    program: ArgumentView,
    pid: u32,
    option: Seq<char>,
    rva: u32,
)
    requires
        pid != 0,
        rva != 0,
        entry_option(option),
    ensures
        cli::request_of(
            seq![
                program,
                readable(seq!['-', 'p']),
                readable(text::decimal(pid as nat)),
                readable(option),
                readable("0x"@ + text::hex(rva as nat)),
            ],
        ) == Ok::<Option<RequestView>, Seq<char>>(
            Some(RequestView { command: CommandView::Pid(pid), entry_point: Some(rva) }),
        ),
        cli::request_of(
            seq![
                program,
                readable(seq!['-', 'p']),
                readable("0x"@ + text::hex(pid as nat)),
                readable(option),
                readable(text::decimal(rva as nat)),
            ],
        ) == Ok::<Option<RequestView>, Seq<char>>(
            Some(RequestView { command: CommandView::Pid(pid), entry_point: Some(rva) }),
        ),
{
    cli::decimal_and_hex_agree(pid);
    cli::decimal_and_hex_agree(rva);
    let first = seq![
        program,
        readable(seq!['-', 'p']),
        readable(text::decimal(pid as nat)),
        readable(option),
        readable("0x"@ + text::hex(rva as nat)),
    ];
    let second = seq![
        program,
        readable(seq!['-', 'p']),
        readable("0x"@ + text::hex(pid as nat)),
        readable(option),
        readable(text::decimal(rva as nat)),
    ];
    lemma_pid_and_entry_point(first, pid, rva);
    lemma_pid_and_entry_point(second, pid, rva);
}

/// A request to watch holds the name as it was given, with or without an entry point.
pub proof fn requests_hold_watched_name(
    program: ArgumentView,
    name: Seq<char>,
    option: Seq<char>,
    rva: u32,
)
    requires
        name.len() > 0,
        forall|i: int|
            #![trigger name[i]]
            0 <= i < name.len() ==> name[i] != '/' && name[i] != '\\',
        rva != 0,
        entry_option(option),
    ensures
        cli::request_of(seq![program, readable(seq!['-', 'w']), readable(name)]) == Ok::<
            Option<RequestView>,
            Seq<char>,
        >(Some(RequestView { command: CommandView::Watch(name), entry_point: None })),
        cli::request_of(
            seq![
                program,
                readable(seq!['-', 'w']),
                readable(name),
                readable(option),
                readable(text::decimal(rva as nat)),
            ],
        ) == Ok::<Option<RequestView>, Seq<char>>(
            Some(RequestView { command: CommandView::Watch(name), entry_point: Some(rva) }),
        ),
{
    lemma_options();
    cli::decimal_and_hex_agree(rva);
    assert(seq!['-', 'w'][1] == 'w' && seq!['-', 'h'][1] == 'h' && seq!['-', 'p'][1] == 'p');
    assert(seq!['-', '-', 'h', 'e', 'l', 'p'].len() == 6);
}

/// A request is made exactly of a known option with a good value, and maybe the option for the
/// entry point with a good number; or of the option for help alone.
pub proof fn requests_are_made_of_known_options(args: Seq<ArgumentView>)
    requires
        cli::request_of(args) is Ok,
    ensures
        args.len() == 2 || args.len() == 3 || args.len() == 5,
        args.len() == 2 <==> cli::request_of(args)->Ok_0 is None,
        args.len() == 2 ==> args[1].text == seq!['-', 'h'] || args[1].text == seq![
            '-',
            '-',
            'h',
            'e',
            'l',
            'p',
        ],
        args.len() > 2 ==> args[2].valid && (args[1].text == seq!['-', 'p'] || args[1].text == seq![
            '-',
            'w',
        ]),
        args.len() > 2 ==> (args[1].text == seq!['-', 'p'] <==> cli::request_of(
            args,
        )->Ok_0->0.command is Pid),
        args.len() == 5 ==> entry_option(args[3].text) && args[4].valid,
        args.len() > 2 ==> (args.len() == 5 <==> cli::request_of(args)->Ok_0->0.entry_point is Some),
{
    lemma_options();
    assert(seq!['-', 'w'][1] == 'w' && seq!['-', 'h'][1] == 'h' && seq!['-', 'p'][1] == 'p');
}

/// The architecture is that of the process, or that of the machine where the process names none:
/// 0x14C for 32 bits, 0x8664 for 64 bits, and nothing else.
pub proof fn architectures_have_their_numbers(process_machine: u16, native_machine: u16)
    ensures
        ({
            let answer = process::process_architecture(process_machine, native_machine);
            &&& answer == Ok::<TargetArchitecture, Seq<char>>(TargetArchitecture::X86) <==> (
            process_machine == 0x14C || (process_machine == 0 && native_machine == 0x14C))
            &&& answer == Ok::<TargetArchitecture, Seq<char>>(TargetArchitecture::X64) <==> (
            process_machine == 0x8664 || (process_machine == 0 && native_machine == 0x8664))
        }),
{
}

/// The main module is the first with the path of the process, whatever the case of its letters;
/// without one it is the first of all.
pub proof fn main_modules_have_the_path_of_the_process(
    image: Seq<char>,
    modules: Seq<ModuleView>,
    index: int,
)
    requires
        0 <= index < modules.len(),
        forall|earlier: int|
            0 <= earlier < index ==> !text::same_letters(
                (#[trigger] modules[earlier]).path,
                image,
            ),
    ensures
        text::same_letters(modules[index].path, image) ==> process::main_module_of(image, modules)
            == Ok::<ModuleView, Seq<char>>(modules[index]),
        index == modules.len() - 1 && !text::same_letters(modules[index].path, image)
            ==> process::main_module_of(image, modules) == Ok::<ModuleView, Seq<char>>(modules[0]),
        process::main_module_of(image, Seq::empty()) is Err,
{
    if text::same_letters(modules[index].path, image) {
        assert(process::is_main(image, modules, index));
        let found = choose|found: int| #[trigger] process::is_main(image, modules, found);
        assert(process::is_main(image, modules, found));
        assert(found == index) by {
            if found < index {
                assert(!text::same_letters(modules[found].path, image));
            } else if index < found {
                assert(!text::same_letters(modules[index].path, image));
            }
        }
    } else if index == modules.len() - 1 {
        assert forall|other: int| !#[trigger] process::is_main(image, modules, other) by {
            if 0 <= other < modules.len() {
                assert(!text::same_letters(modules[other].path, image));
            }
        }
    }
}

/// Every running process of the name that is not known is listed, and only once, as long as there
/// are fewer than 65536.
pub proof fn new_processes_are_listed_once(
    name: Seq<char>,
    entries: Seq<ProcessEntry>,
    known: Set<u32>,
    count: nat,
)
    requires
        count <= entries.len(),
        process::new_pids(name, entries, known, count).len() < 65536,
    ensures
        forall|i: int|
            #![trigger entries[i]]
            0 <= i < count && text::same_letters(entries[i].name@, name) && !known.contains(
                entries[i].pid@,
            ) ==> process::new_pids(name, entries, known, count).contains(entries[i].pid@),
        process::new_pids(name, entries, known, count).no_duplicates(),
    decreases count,
{
    if count > 0 {
        let fewer = (count - 1) as nat;
        let earlier = process::new_pids(name, entries, known, fewer);
        let pids = process::new_pids(name, entries, known, count);
        new_processes_are_listed_once(name, entries, known, fewer);
        let last = entries[count - 1];
        assert forall|i: int|
            #![trigger entries[i]]
            0 <= i < count && text::same_letters(entries[i].name@, name) && !known.contains(
                entries[i].pid@,
            ) implies pids.contains(entries[i].pid@) by {
            if i < fewer {
                let place = choose|place: int|
                    0 <= place < earlier.len() && earlier[place] == entries[i].pid@;
                assert(pids[place] == entries[i].pid@);
            } else if !earlier.contains(last.pid@) {
                assert(pids[earlier.len() as int] == last.pid@);
            }
        }
        assert(pids.no_duplicates()) by {
            assert forall|i: int, j: int|
                0 <= i < pids.len() && 0 <= j < pids.len() && i != j implies pids[i] != pids[j] by {
                if i < earlier.len() && j < earlier.len() {
                    assert(earlier[i] != earlier[j]);
                } else if i < earlier.len() {
                    assert(earlier.contains(earlier[i]));
                } else {
                    assert(earlier.contains(earlier[j]));
                }
            }
        }
    }
}

/// A process is captured one second after its start: what is left of it, in nanoseconds, where
/// times count steps of 100 of them.
pub proof fn processes_run_for_a_second(created: u64, now: u64)
    requires
        created + 10_000_000 <= u64::MAX,
        created <= now,
    ensures
        process::wait_before_capture(created, now) == if now - created >= 10_000_000 {
            0
        } else {
            1_000_000_000 - 100 * (now - created)
        },
{
}

/// The older process is taken, and of two of the same age the one with the lower number.
pub proof fn older_processes_come_first(
    left: process::TargetProcess,
    right: process::TargetProcess,
)
    ensures
        left.created < right.created ==> process::comes_before(left, right)
            && !process::comes_before(right, left),
        left.created == right.created ==> (process::comes_before(left, right) <==> left.pid@
            < right.pid@),
{
}

/// Lists of more than 65536 processes and of more than 4096 modules are refused, and a list that
/// ends is done.
pub proof fn lists_are_limited(seen: usize)
    ensures
        process::list_continues(ListKind::Processes, seen, NextEntry::More) == Ok::<
            bool,
            Seq<char>,
        >(true) <==> seen < 65536,
        process::list_continues(ListKind::Processes, seen, NextEntry::More) is Err <==> seen
            >= 65536,
        process::list_continues(ListKind::Modules, seen, NextEntry::More) == Ok::<bool, Seq<char>>(
            true,
        ) <==> seen < 4096,
        process::list_continues(ListKind::Modules, seen, NextEntry::More) is Err <==> seen >= 4096,
        process::list_continues(ListKind::Processes, seen, NextEntry::End) == Ok::<
            bool,
            Seq<char>,
        >(false),
        process::list_continues(ListKind::Modules, seen, NextEntry::End) == Ok::<bool, Seq<char>>(
            false,
        ),
{
}

/// A module list that changes while it is read is asked for eight times; another failure is one at
/// once.
pub proof fn unstable_lists_are_tried_again(tries: usize, detail: Seq<char>)
    ensures
        process::snapshot_failure(tries, true, detail) is Some <==> tries >= 8,
        process::snapshot_failure(tries, false, detail) is Some,
{
}

/// A letter of two units is put together from both, and a letter of one unit is that unit.
pub proof fn letters_are_put_together(letter: char, rest: Seq<u16>)
    ensures
        (letter as int) < 0x1_0000 ==> process::lossy_text(
            seq![(letter as int) as u16] + rest,
        ) == seq![letter] + process::lossy_text(rest),
        letter as int >= 0x1_0000 ==> process::lossy_text(
            seq![
                (0xD800 + (letter as int - 0x1_0000) / 0x400) as u16,
                (0xDC00 + (letter as int - 0x1_0000) % 0x400) as u16,
            ] + rest,
        ) == seq![letter] + process::lossy_text(rest),
{
    if (letter as int) < 0x1_0000 {
        let units = seq![(letter as int) as u16] + rest;
        assert(units.skip(1) =~= rest);
        assert(units[0] == letter as int);
        assert(units[0] as char == letter);
        assert(process::first_character(units) == (Some(letter), 1int));
    } else {
        let high = (0xD800 + (letter as int - 0x1_0000) / 0x400) as u16;
        let low = (0xDC00 + (letter as int - 0x1_0000) % 0x400) as u16;
        let units = seq![high, low] + rest;
        assert(units.skip(2) =~= rest);
        assert(units[0] == high && units[1] == low);
        assert(0x1_0000 + (high - 0xD800) * 0x400 + (low - 0xDC00) == letter as int);
        assert(process::first_character(units) == (Some(letter), 2int));
    }
}

/// A unit that is half of a letter without its other half becomes the replacement letter.
pub proof fn half_letters_are_replaced(unit: u16, rest: Seq<u16>)
    requires
        0xD800 <= unit <= 0xDFFF,
        unit >= 0xDC00 || rest.len() == 0 || !(0xDC00 <= rest[0] <= 0xDFFF),
    ensures
        process::lossy_text(seq![unit] + rest) == seq!['\u{FFFD}'] + process::lossy_text(rest),
        !process::well_formed(seq![unit] + rest),
{
    let units = seq![unit] + rest;
    assert(units.skip(1) =~= rest);
    assert(units[0] == unit);
    if rest.len() > 0 {
        assert(units[1] == rest[0]);
    }
}

/// What stands before the first zero is taken.
pub proof fn texts_end_at_zero(units: Seq<u16>, rest: Seq<u16>)
    requires
        forall|i: int| 0 <= i < units.len() ==> #[trigger] units[i] != 0,
    ensures
        process::before_zero(units) == units,
        process::before_zero(units + seq![0u16] + rest) == units,
    decreases units.len(),
{
    let all = units + seq![0u16] + rest;
    if units.len() == 0 {
        assert(all[0] == 0);
        assert(process::before_zero(units) =~= units);
        assert(process::before_zero(all) =~= units);
    } else {
        let fewer = units.skip(1);
        assert forall|i: int| 0 <= i < fewer.len() implies #[trigger] fewer[i] != 0 by {
            assert(fewer[i] == units[i + 1]);
        }
        texts_end_at_zero(fewer, rest);
        assert(all[0] == units[0]);
        assert(all.skip(1) =~= fewer + seq![0u16] + rest);
        assert(seq![units[0]] + fewer =~= units);
    }
}

} // verus!
