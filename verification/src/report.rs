//! What is shown to the user.

use vstd::prelude::*;

use crate::cli::Command;
use crate::dump::{ArtifactInfo, BuildFailure, DumpOutcome, DumpSummary};
use crate::error::{AppError, AppResult};
use crate::memory::{Capture, StabilityInfo};
use crate::output::{OutputPlan, WrittenFile};
use crate::process::TargetProcess;
use crate::text::{joined, push_decimal, push_wide_hex, with_decimal};
use crate::text;

verus! {

/// The columns that the name of a field takes.
pub const FIELD_WIDTH: usize = 11;

/// A line of the report.
#[derive(Debug, PartialEq, Eq)]
pub enum Line {
    Section(String),
    Field(String, String),
    Success(String),
    Warning(String),
    Failure(String),
    Done(String),
    Partial(String),
    Blank,
}

/// A line of the report, seen mathematically.
pub enum LineView {
    Section(Seq<char>),
    Field(Seq<char>, Seq<char>),
    Success(Seq<char>),
    Warning(Seq<char>),
    Failure(Seq<char>),
    Done(Seq<char>),
    Partial(Seq<char>),
    Blank,
}

impl View for Line {
    type V = LineView;

    open spec fn view(&self) -> LineView {
        match self {
            Line::Section(name) => LineView::Section(name@),
            Line::Field(name, value) => LineView::Field(name@, value@),
            Line::Success(message) => LineView::Success(message@),
            Line::Warning(message) => LineView::Warning(message@),
            Line::Failure(message) => LineView::Failure(message@),
            Line::Done(message) => LineView::Done(message@),
            Line::Partial(message) => LineView::Partial(message@),
            Line::Blank => LineView::Blank,
        }
    }
}

/// Lines, seen mathematically.
pub open spec fn line_views(lines: Seq<Line>) -> Seq<LineView> {
    lines.map_values(|line: Line| line@)
}

/// The spaces behind the name of a field.
pub open spec fn padding(length: int) -> Seq<char> {
    if length >= FIELD_WIDTH {
        Seq::empty()
    } else {
        Seq::new((FIELD_WIDTH - length) as nat, |index: int| ' ')
    }
}

/// The text of a line, without color. The last line of a report has an empty one before it.
pub open spec fn line_text(line: LineView) -> Seq<char> {
    match line {
        LineView::Section(name) => name,
        LineView::Field(name, value) => "  "@ + name + padding(name.len() as int) + value,
        LineView::Success(message) => "  OK  "@ + message,
        LineView::Warning(message) => "  WARN  "@ + message,
        LineView::Failure(message) => "  ERROR  "@ + message,
        LineView::Done(message) => "DONE  "@ + message,
        LineView::Partial(message) => "PARTIAL  "@ + message,
        LineView::Blank => Seq::empty(),
    }
}

impl Line {
    /// The text of the line, without color.
    pub fn text(&self) -> (result: String)
        ensures
            result@ == line_text(self@),
    {
        match self {
            Line::Section(name) => name.clone(),
            Line::Field(name, value) => {
                let mut result: String = joined("  ", name.as_str());
                let mut length: usize = name.as_str().unicode_len();
                let ghost start = result@;
                assert(start + Seq::<char>::empty() =~= start);
                let ghost width = name@.len();
                while length < FIELD_WIDTH
                    invariant
                        width <= length,
                        length <= FIELD_WIDTH || length == width,
                        result@ == start + Seq::new(
                            (length - width) as nat,
                            |index: int| ' ',
                        ),
                    decreases FIELD_WIDTH - length,
                {
                    result.push(' ');
                    length = length + 1;
                    assert(result@ =~= start + Seq::new((length - width) as nat, |index: int| ' '));
                }
                assert(result@ =~= start + padding(width as int));
                result.append(value.as_str());
                result
            },
            Line::Success(message) => joined("  OK  ", message.as_str()),
            Line::Warning(message) => joined("  WARN  ", message.as_str()),
            Line::Failure(message) => joined("  ERROR  ", message.as_str()),
            Line::Done(message) => joined("DONE  ", message.as_str()),
            Line::Partial(message) => joined("PARTIAL  ", message.as_str()),
            Line::Blank => String::new(),
        }
    }
}

/// The report grows by some lines.
pub open spec fn grows(before: Seq<Line>, after: Seq<Line>, lines: Seq<LineView>) -> bool {
    line_views(after) == line_views(before) + lines
}

fn show(lines: &mut Vec<Line>, line: Line)
    ensures
        grows(old(lines)@, final(lines)@, seq![line@]),
{
    lines.push(line);
    assert(line_views(lines@) =~= line_views(old(lines)@) + seq![line@]);
}

fn section(lines: &mut Vec<Line>, name: &str)
    ensures
        grows(old(lines)@, final(lines)@, seq![LineView::Section(name@)]),
{
    show(lines, Line::Section(name.to_owned()));
}

fn field(lines: &mut Vec<Line>, name: &str, value: String)
    ensures
        grows(old(lines)@, final(lines)@, seq![LineView::Field(name@, value@)]),
{
    show(lines, Line::Field(name.to_owned(), value));
}

/// A number before a text.
pub open spec fn counted(count: int, message: Seq<char>) -> Seq<char> {
    text::decimal(count as nat) + message
}

fn with_count(count: usize, message: &str) -> (result: String)
    ensures
        result@ == counted(count as int, message@),
{
    let mut result: String = with_decimal("", count as u64);
    proof {
        reveal_strlit("");
        assert(""@ + text::decimal(count as nat) =~= text::decimal(count as nat));
    }
    result.append(message);
    result
}

/// An address with all its digits.
pub open spec fn address_text(address: u64) -> Seq<char> {
    "0x"@ + text::wide_hex(address as nat, 16)
}

/// The lines on the target. `size` is the size of its main image, in words.
pub open spec fn target_lines(target: TargetProcess, size: Seq<char>) -> Seq<LineView> {
    seq![
        LineView::Section("TARGET"@),
        LineView::Field("Name"@, target.name@),
        LineView::Field("PID"@, text::decimal(target.pid@ as nat)),
        LineView::Field("Arch"@, target.architecture.name()),
        LineView::Field(
            "Image"@,
            address_text(target.main_module.base) + " ("@ + size + ")"@,
        ),
        LineView::Blank,
    ]
}

fn push_address(string: &mut String, address: u64)
    ensures
        final(string)@ == old(string)@ + address_text(address),
{
    string.append("0x");
    push_wide_hex(string, address, 16);
    assert(string@ =~= old(string)@ + address_text(address));
}

fn number_text(value: u64) -> (result: String)
    ensures
        result@ == text::decimal(value as nat),
{
    let mut result: String = String::new();
    push_decimal(&mut result, value);
    assert(result@ =~= text::decimal(value as nat));
    result
}

/// Shows the target. `size` is the size of its main image, in words.
pub fn render_target(lines: &mut Vec<Line>, target: &TargetProcess, size: &str)
    ensures
        grows(old(lines)@, final(lines)@, target_lines(*target, size@)),
{
    section(lines, "TARGET");
    field(lines, "Name", target.name.clone());
    field(lines, "PID", number_text(target.pid.get() as u64));
    field(lines, "Arch", target.architecture.text().to_owned());
    let mut image: String = String::new();
    push_address(&mut image, target.main_module.base);
    image.append(" (");
    image.append(size);
    image.append(")");
    assert(image@ =~= address_text(target.main_module.base) + " ("@ + size@ + ")"@);
    field(lines, "Image", image);
    show(lines, Line::Blank);
    assert(line_views(lines@) =~= line_views(old(lines)@) + target_lines(*target, size@));
}

/// The line on the wait for stable memory.
pub open spec fn stability_line(outcome: AppResult<StabilityInfo>) -> LineView {
    match outcome {
        Ok(info) => if info.settled {
            LineView::Success(
                "Memory was stable after "@ + text::decimal(info.elapsed_milliseconds as nat)
                    + " ms"@,
            )
        } else {
            LineView::Warning(
                "Memory did not settle after "@ + text::decimal(info.elapsed_milliseconds as nat)
                    + " ms; using the latest state"@,
            )
        },
        Err(error) => LineView::Warning("Could not check memory stability: "@ + error@),
    }
}

/// Shows how the wait for stable memory ended.
pub fn render_stability(lines: &mut Vec<Line>, outcome: &AppResult<StabilityInfo>)
    ensures
        grows(old(lines)@, final(lines)@, seq![stability_line(*outcome)]),
{
    match outcome {
        Ok(info) => if info.settled {
            let mut message: String = with_decimal(
                "Memory was stable after ",
                info.elapsed_milliseconds,
            );
            message.append(" ms");
            show(lines, Line::Success(message));
        } else {
            let mut message: String = with_decimal(
                "Memory did not settle after ",
                info.elapsed_milliseconds,
            );
            message.append(" ms; using the latest state");
            show(lines, Line::Warning(message));
        },
        Err(error) => {
            show(
                lines,
                Line::Warning(joined("Could not check memory stability: ", error.message())),
            );
        },
    }
}

/// The lines on the watch for a process.
pub open spec fn watch_lines(name: Seq<char>) -> Seq<LineView> {
    seq![
        LineView::Section("WATCH"@),
        LineView::Field("Process"@, name),
        LineView::Field("Status"@, "Waiting for a new process"@),
        LineView::Blank,
    ]
}

/// Shows what is waited for before the target is found.
pub fn find_target(lines: &mut Vec<Line>, command: &Command)
    ensures
        match command {
            Command::Pid(_) => grows(old(lines)@, final(lines)@, Seq::empty()),
            Command::Watch(name) => grows(old(lines)@, final(lines)@, watch_lines(name@)),
        },
{
    match command {
        Command::Pid(_) => {
            assert(line_views(lines@) =~= line_views(old(lines)@) + Seq::empty());
        },
        Command::Watch(name) => {
            section(lines, "WATCH");
            field(lines, "Process", name.clone());
            field(lines, "Status", "Waiting for a new process".to_owned());
            show(lines, Line::Blank);
            assert(line_views(lines@) =~= line_views(old(lines)@) + watch_lines(name@));
        },
    }
}

/// The lines on what was captured.
pub open spec fn capture_lines(capture: Capture) -> Seq<LineView> {
    let fields = seq![
        LineView::Section("CAPTURE"@),
        LineView::Field("Method"@, capture.mode.name()),
        LineView::Field("Setup"@, text::decimal(capture.setup_milliseconds as nat) + " ms"@),
        LineView::Field("Images"@, text::decimal(capture.images@.len())),
    ];
    let warned = match capture.fallback_reason {
        Some(reason) => fields.push(
            LineView::Warning(
                "PSS was unavailable ("@ + reason@ + "); live memory may have changed"@,
            ),
        ),
        None => fields,
    };
    warned.push(LineView::Blank)
}

/// Shows what was captured.
pub fn render_capture(lines: &mut Vec<Line>, capture: &Capture)
    ensures
        grows(old(lines)@, final(lines)@, capture_lines(*capture)),
{
    section(lines, "CAPTURE");
    field(lines, "Method", capture.mode.text().to_owned());
    let mut setup: String = number_text(capture.setup_milliseconds);
    setup.append(" ms");
    field(lines, "Setup", setup);
    field(lines, "Images", number_text(capture.images.len() as u64));
    if let Some(reason) = &capture.fallback_reason {
        let mut message: String = joined("PSS was unavailable (", reason.as_str());
        message.append("); live memory may have changed");
        show(lines, Line::Warning(message));
    }
    show(lines, Line::Blank);
    assert(line_views(lines@) =~= line_views(old(lines)@) + capture_lines(*capture));
}

/// The first file of a main image is at this place.
pub open spec fn is_first_main(artifacts: Seq<WrittenFile<ArtifactInfo>>, place: int) -> bool {
    &&& 0 <= place < artifacts.len()
    &&& artifacts[place].context.is_main
    &&& forall|earlier: int|
        0 <= earlier < place ==> !(#[trigger] artifacts[earlier]).context.is_main
}

/// The lines on the file of the main image.
pub open spec fn main_lines(main: WrittenFile<ArtifactInfo>) -> Seq<LineView> {
    seq![
        LineView::Field("Main"@, main.path@),
        LineView::Field(
            "Layout"@,
            main.context.kind.name() + ", "@ + text::decimal(main.context.sections as nat)
                + " sections, base "@ + address_text(main.context.base),
        ),
    ]
}

/// The lines on the files that were written.
pub open spec fn output_lines(directory: Seq<char>, outcome: DumpOutcome) -> Seq<LineView> {
    let main = if exists|place: int| is_first_main(outcome.artifacts@, place) {
        main_lines(
            outcome.artifacts@[choose|place: int| is_first_main(outcome.artifacts@, place)],
        )
    } else {
        Seq::empty()
    };
    seq![LineView::Section("OUTPUT"@)] + main + seq![
        LineView::Field("DLLs"@, text::decimal(outcome.summary.dlls as nat)),
        LineView::Field("Hidden PEs"@, text::decimal(outcome.summary.hidden_images as nat)),
        LineView::Field("Folder"@, directory),
        LineView::Blank,
    ]
}

fn find_main(artifacts: &Vec<WrittenFile<ArtifactInfo>>) -> (place: Option<usize>)
    ensures
        match place {
            Some(place) => is_first_main(artifacts@, place as int),
            None => forall|other: int| !is_first_main(artifacts@, other),
        },
{
    let mut index: usize = 0;
    while index < artifacts.len()
        invariant
            index <= artifacts@.len(),
            forall|earlier: int|
                0 <= earlier < index ==> !(#[trigger] artifacts@[earlier]).context.is_main,
        decreases artifacts@.len() - index,
    {
        if artifacts[index].context.is_main {
            return Some(index);
        }
        index = index + 1;
    }
    None
}

/// Shows the files that were written.
pub fn render_output(lines: &mut Vec<Line>, output: &OutputPlan, outcome: &DumpOutcome)
    ensures
        grows(old(lines)@, final(lines)@, output_lines(output.spec_directory(), *outcome)),
{
    section(lines, "OUTPUT");
    if let Some(place) = find_main(&outcome.artifacts) {
        let main: &WrittenFile<ArtifactInfo> = &outcome.artifacts[place];
        field(lines, "Main", main.path.clone());
        let mut layout: String = main.context.kind.text().to_owned();
        layout.append(", ");
        push_decimal(&mut layout, main.context.sections as u64);
        layout.append(" sections, base ");
        push_address(&mut layout, main.context.base);
        field(lines, "Layout", layout);
        proof {
            let chosen = choose|place: int| is_first_main(outcome.artifacts@, place);
            assert(is_first_main(outcome.artifacts@, place as int));
            assert(is_first_main(outcome.artifacts@, chosen));
            assert(chosen == place);
        }
    }
    field(lines, "DLLs", number_text(outcome.summary.dlls as u64));
    field(lines, "Hidden PEs", number_text(outcome.summary.hidden_images as u64));
    field(lines, "Folder", output.directory().to_owned());
    show(lines, Line::Blank);
    assert(line_views(lines@) =~= line_views(old(lines)@) + output_lines(
        output.spec_directory(),
        *outcome,
    ));
}

/// The lines on exports, imports and memory outside of images.
pub open spec fn analysis_lines(outcome: DumpOutcome) -> Seq<LineView> {
    seq![
        LineView::Section("ANALYSIS"@),
        LineView::Field(
            "Exports"@,
            counted(outcome.export_stats.modules as int, " modules, "@) + counted(
                outcome.export_stats.addresses as int,
                " addresses"@,
            ),
        ),
        LineView::Field("Forwarders"@, text::decimal(outcome.export_stats.forwarders as nat)),
        LineView::Field("Imports"@, counted(outcome.summary.imports_rebuilt as int, " recovered"@)),
        LineView::Field(
            "Non-image"@,
            counted(
                outcome.executable_non_image_allocations as int,
                " executable allocations"@,
            ),
        ),
    ]
}

/// Shows what was found of exports, imports and memory outside of images.
pub fn render_analysis(lines: &mut Vec<Line>, outcome: &DumpOutcome)
    ensures
        grows(old(lines)@, final(lines)@, analysis_lines(*outcome)),
{
    section(lines, "ANALYSIS");
    let mut exports: String = with_count(outcome.export_stats.modules, " modules, ");
    let addresses: String = with_count(outcome.export_stats.addresses, " addresses");
    exports.append(addresses.as_str());
    field(lines, "Exports", exports);
    field(lines, "Forwarders", number_text(outcome.export_stats.forwarders as u64));
    field(lines, "Imports", with_count(outcome.summary.imports_rebuilt, " recovered"));
    field(
        lines,
        "Non-image",
        with_count(outcome.executable_non_image_allocations, " executable allocations"),
    );
    assert(line_views(lines@) =~= line_views(old(lines)@) + analysis_lines(*outcome));
}

/// A warning with a count, if there is anything to count.
pub open spec fn warned(count: usize, message: Seq<char>) -> Seq<LineView> {
    if count > 0 {
        seq![LineView::Warning(counted(count as int, message))]
    } else {
        Seq::empty()
    }
}

fn warn(lines: &mut Vec<Line>, count: usize, message: &str)
    ensures
        grows(old(lines)@, final(lines)@, warned(count, message@)),
{
    if count > 0 {
        show(lines, Line::Warning(with_count(count, message)));
    } else {
        assert(line_views(lines@) =~= line_views(old(lines)@) + Seq::empty());
    }
}

/// The warnings on what had to be repaired.
pub open spec fn repair_warnings(outcome: DumpOutcome) -> Seq<LineView> {
    let summary = outcome.summary;
    warned(summary.unreadable_pages, " unreadable pages were zero-filled"@) + warned(
        summary.cleared_directories,
        " invalid or file-only directories were cleared"@,
    ) + warned(summary.repaired_headers, " damaged PE headers were repaired"@) + warned(
        summary.disk_header_repairs,
        " images used disk headers; section data came from memory"@,
    )
}

/// Shows what had to be repaired.
pub fn render_repair_warnings(lines: &mut Vec<Line>, outcome: &DumpOutcome)
    ensures
        grows(old(lines)@, final(lines)@, repair_warnings(*outcome)),
{
    let summary: &DumpSummary = &outcome.summary;
    warn(lines, summary.unreadable_pages, " unreadable pages were zero-filled");
    warn(lines, summary.cleared_directories, " invalid or file-only directories were cleared");
    warn(lines, summary.repaired_headers, " damaged PE headers were repaired");
    warn(
        lines,
        summary.disk_header_repairs,
        " images used disk headers; section data came from memory",
    );
    assert(line_views(lines@) =~= line_views(old(lines)@) + repair_warnings(*outcome));
}

/// The warnings on imports and exports.
pub open spec fn import_warnings(outcome: DumpOutcome) -> Seq<LineView> {
    let summary = outcome.summary;
    warned(summary.ambiguous_imports, " ambiguous import pointers were skipped"@) + warned(
        summary.invalid_unwind_entries,
        " invalid x64 unwind entries were removed"@,
    ) + warned(
        outcome.export_stats.unresolved_forwarders,
        " forwarded exports did not match a loaded image"@,
    )
}

/// Shows what imports and exports could not be told.
pub fn render_import_warnings(lines: &mut Vec<Line>, outcome: &DumpOutcome)
    ensures
        grows(old(lines)@, final(lines)@, import_warnings(*outcome)),
{
    let summary: &DumpSummary = &outcome.summary;
    warn(lines, summary.ambiguous_imports, " ambiguous import pointers were skipped");
    warn(lines, summary.invalid_unwind_entries, " invalid x64 unwind entries were removed");
    warn(
        lines,
        outcome.export_stats.unresolved_forwarders,
        " forwarded exports did not match a loaded image",
    );
    assert(line_views(lines@) =~= line_views(old(lines)@) + import_warnings(*outcome));
}

/// The warning on an image that could not be rebuilt.
pub open spec fn failure_line(failure: BuildFailure) -> LineView {
    LineView::Warning(
        "Could not rebuild "@ + failure.name@ + " at "@ + address_text(failure.base) + ": "@
            + failure.error@,
    )
}

/// The warnings on images that could not be rebuilt.
pub open spec fn failure_lines(failures: Seq<BuildFailure>) -> Seq<LineView> {
    failures.map_values(|failure: BuildFailure| failure_line(failure))
}

/// Shows the images that could not be rebuilt.
pub fn render_build_failures(lines: &mut Vec<Line>, outcome: &DumpOutcome)
    ensures
        grows(old(lines)@, final(lines)@, failure_lines(outcome.failures@)),
{
    let mut index: usize = 0;
    assert(line_views(lines@) =~= line_views(old(lines)@) + failure_lines(
        outcome.failures@.take(0),
    ));
    while index < outcome.failures.len()
        invariant
            index <= outcome.failures@.len(),
            grows(old(lines)@, lines@, failure_lines(outcome.failures@.take(index as int))),
        decreases outcome.failures@.len() - index,
    {
        let failure: &BuildFailure = &outcome.failures[index];
        let mut message: String = joined("Could not rebuild ", failure.name.as_str());
        message.append(" at ");
        push_address(&mut message, failure.base);
        message.append(": ");
        message.append(failure.error.message());
        let ghost before = lines@;
        show(lines, Line::Warning(message));
        proof {
            let earlier = failure_lines(outcome.failures@.take(index as int));
            assert(failure_lines(outcome.failures@.take(index + 1)) =~= earlier.push(
                failure_line(*failure),
            ));
            assert(line_views(lines@) =~= line_views(old(lines)@) + earlier.push(
                failure_line(*failure),
            ));
        }
        index = index + 1;
    }
    assert(outcome.failures@.take(outcome.failures@.len() as int) =~= outcome.failures@);
}

/// The allocations that held no full PE.
pub open spec fn unmatched(outcome: DumpOutcome) -> usize {
    if outcome.executable_non_image_allocations > outcome.hidden_non_image_images {
        (outcome.executable_non_image_allocations - outcome.hidden_non_image_images) as usize
    } else {
        0
    }
}

/// The warnings: none, or a section of them.
pub open spec fn warning_lines(outcome: DumpOutcome) -> Seq<LineView> {
    if outcome.warns() {
        seq![LineView::Blank, LineView::Section("WARNINGS"@)] + repair_warnings(outcome)
            + import_warnings(outcome) + failure_lines(outcome.failures@) + warned(
            unmatched(outcome),
            " executable non-image allocations did not contain a full PE"@,
        )
    } else {
        Seq::empty()
    }
}

/// Shows everything that may affect the use of the files.
pub fn render_warnings(lines: &mut Vec<Line>, outcome: &DumpOutcome)
    ensures
        grows(old(lines)@, final(lines)@, warning_lines(*outcome)),
{
    if !outcome.has_warnings() {
        assert(line_views(lines@) =~= line_views(old(lines)@) + Seq::empty());
        return ;
    }
    show(lines, Line::Blank);
    section(lines, "WARNINGS");
    render_repair_warnings(lines, outcome);
    render_import_warnings(lines, outcome);
    render_build_failures(lines, outcome);
    let unmatched: usize = outcome.executable_non_image_allocations.saturating_sub(
        outcome.hidden_non_image_images,
    );
    warn(lines, unmatched, " executable non-image allocations did not contain a full PE");
    assert(line_views(lines@) =~= line_views(old(lines)@) + warning_lines(*outcome));
}

/// A section of warnings is never empty: there is a warning in it for each reason to warn.
pub proof fn warnings_say_something(outcome: DumpOutcome)
    requires
        outcome.warns(),
    ensures
        warning_lines(outcome).len() > 2,
        forall|place: int|
            #![trigger warning_lines(outcome)[place]]
            2 <= place < warning_lines(outcome).len() ==> warning_lines(outcome)[place] is Warning,
{
    let repairs = repair_warnings(outcome);
    let imports = import_warnings(outcome);
    let failures = failure_lines(outcome.failures@);
    let last = warned(
        unmatched(outcome),
        " executable non-image allocations did not contain a full PE"@,
    );
    assert forall|place: int|
        #![trigger repairs[place]]
        0 <= place < repairs.len() implies repairs[place] is Warning by {}
    assert forall|place: int|
        #![trigger imports[place]]
        0 <= place < imports.len() implies imports[place] is Warning by {}
    let all = warning_lines(outcome);
    let first = repairs.len() + 2;
    let second = first + imports.len();
    let third = second + failures.len();
    assert forall|place: int| #![trigger all[place]] 2 <= place < all.len() implies all[place] is Warning by {
        if place < first {
            assert(all[place] == repairs[place - 2]);
        } else if place < second {
            assert(all[place] == imports[place - first]);
        } else if place < third {
            assert(all[place] == failures[place - second]);
        } else {
            assert(all[place] == last[place - third]);
        }
    }
}

/// How the program ends.
#[derive(Clone, Copy, Debug, PartialEq, Eq, Structural)]
pub enum Ending {
    /// Help was shown.
    Help,
    /// The arguments were not understood.
    BadArguments,
    /// The folder could not be used, or the user cancelled.
    NoOutput,
    /// The target could not be found or queried.
    NoTarget,
    /// The target could not be captured.
    NoCapture,
    /// The files could not be written.
    NotWritten,
    /// The main image and all known DLLs were rebuilt.
    Complete,
    /// Some images were written, but the main image or a known DLL failed.
    Partial,
}

impl Ending {
    /// The exit code: zero for success, one for what went wrong before the target was looked at,
    /// two for a target that could not be dumped, three for a dump with gaps.
    pub open spec fn code(self) -> u8 {
        match self {
            Ending::Help => 0,
            Ending::Complete => 0,
            Ending::BadArguments => 1,
            Ending::NoOutput => 1,
            Ending::NoTarget => 2,
            Ending::NoCapture => 2,
            Ending::NotWritten => 2,
            Ending::Partial => 3,
        }
    }

    /// The exit code.
    pub fn exit_code(self) -> (code: u8)
        ensures
            code == self.code(),
    {
        match self {
            Ending::Help => 0,
            Ending::Complete => 0,
            Ending::BadArguments => 1,
            Ending::NoOutput => 1,
            Ending::NoTarget => 2,
            Ending::NoCapture => 2,
            Ending::NotWritten => 2,
            Ending::Partial => 3,
        }
    }
}

/// A step of the program that can fail.
#[derive(Clone, Copy, Debug, PartialEq, Eq, Structural)]
pub enum Step {
    /// The arguments are read.
    Arguments,
    /// The folder for the files is made ready.
    Output,
    /// The target is found.
    Target,
    /// The target is captured.
    Capture,
    /// The files are written.
    Writing,
}

impl Step {
    /// How the program ends where the step fails.
    pub open spec fn ending(self) -> Ending {
        match self {
            Step::Arguments => Ending::BadArguments,
            Step::Output => Ending::NoOutput,
            Step::Target => Ending::NoTarget,
            Step::Capture => Ending::NoCapture,
            Step::Writing => Ending::NotWritten,
        }
    }

    /// What comes before the message of a failure.
    pub open spec fn failure_text(self) -> Seq<char> {
        match self {
            Step::Capture => "Capture failed: "@,
            Step::Writing => "Could not write mempe: "@,
            _ => ""@,
        }
    }

    /// How the program ends where the step fails, or where the user cancels it.
    pub fn stopped(self) -> (ending: Ending)
        ensures
            ending == self.ending(),
    {
        match self {
            Step::Arguments => Ending::BadArguments,
            Step::Output => Ending::NoOutput,
            Step::Target => Ending::NoTarget,
            Step::Capture => Ending::NoCapture,
            Step::Writing => Ending::NotWritten,
        }
    }
}

/// A program that ends with a step that failed has no exit code of success: it is one before the
/// target is looked for, and two from there on.
pub proof fn failed_steps_have_their_codes(step: Step)
    ensures
        step.ending().code() == if step == Step::Arguments || step == Step::Output {
            1u8
        } else {
            2u8
        },
{
}

/// The text of a truth value.
pub open spec fn truth(value: bool) -> Seq<char> {
    if value {
        "true"@
    } else {
        "false"@
    }
}

/// The last line on a dump.
pub open spec fn last_line(outcome: DumpOutcome) -> LineView {
    if outcome.complete() {
        LineView::Done("Analysis-ready memory images"@)
    } else {
        LineView::Partial(
            "Main rebuilt: "@ + truth(outcome.main_rebuilt) + "; DLL failures: "@ + text::decimal(
                outcome.dll_failures as nat,
            ),
        )
    }
}

/// All lines on a dump that was written.
pub open spec fn dump_lines(directory: Seq<char>, outcome: DumpOutcome) -> Seq<LineView> {
    output_lines(directory, outcome) + analysis_lines(outcome) + warning_lines(outcome) + seq![
        last_line(outcome),
    ]
}

/// Shows a dump that was written, and tells how the program ends.
pub fn finish_dump(lines: &mut Vec<Line>, output: &OutputPlan, outcome: &DumpOutcome) -> (ending:
    Ending)
    ensures
        grows(old(lines)@, final(lines)@, dump_lines(output.spec_directory(), *outcome)),
        ending == (if outcome.complete() {
            Ending::Complete
        } else {
            Ending::Partial
        }),
{
    render_output(lines, output, outcome);
    render_analysis(lines, outcome);
    render_warnings(lines, outcome);
    let ending: Ending = if outcome.is_complete() {
        show(lines, Line::Done("Analysis-ready memory images".to_owned()));
        Ending::Complete
    } else {
        let mut message: String = "Main rebuilt: ".to_owned();
        if outcome.main_rebuilt() {
            message.append("true");
        } else {
            message.append("false");
        }
        message.append("; DLL failures: ");
        push_decimal(&mut message, outcome.dll_failures() as u64);
        show(lines, Line::Partial(message));
        Ending::Partial
    };
    assert(line_views(lines@) =~= line_views(old(lines)@) + dump_lines(
        output.spec_directory(),
        *outcome,
    ));
    ending
}

/// Shows the failure of a step, and tells how the program ends.
pub fn render_failure(lines: &mut Vec<Line>, step: Step, error: &AppError) -> (ending: Ending)
    ensures
        grows(old(lines)@, final(lines)@, seq![LineView::Failure(step.failure_text() + error@)]),
        ending == step.ending(),
{
    let what: &str = match step {
        Step::Capture => "Capture failed: ",
        Step::Writing => "Could not write mempe: ",
        _ => "",
    };
    show(lines, Line::Failure(joined(what, error.message())));
    step.stopped()
}

} // verus!
