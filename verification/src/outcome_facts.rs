//! Which images become files, under which names, and what is told of them.

use vstd::prelude::*;

use crate::dump;
use crate::dump::{ArtifactInfo, DumpOutcome, RebuildingView, ReportView};
use crate::error::AppResult;
use crate::memory::{Capture, CapturedView, StabilityInfo};
use crate::name_facts;
use crate::path;
use crate::pe::rebuild::RebuiltImage;
use crate::pe::EntryPointRva;
use crate::process::{ModuleView, TargetProcess};
use crate::report;
use crate::report::{Ending, LineView, Step};
use crate::text;

verus! {

/// Another file adds to the numbers of a dump: one to the DLLs if it is not the main image, one to
/// the hidden images, the repaired headers and the headers from disk if it is such, and its own
/// numbers to the rest.
pub proof fn files_add_to_the_summary(infos: Seq<ArtifactInfo>, info: ArtifactInfo)
    requires
        ({
            let after = dump::summary_of(infos.push(info));
            &&& after.dlls < usize::MAX
            &&& after.hidden_images < usize::MAX
            &&& after.unreadable_pages < usize::MAX
            &&& after.cleared_directories < usize::MAX
            &&& after.repaired_headers < usize::MAX
            &&& after.disk_header_repairs < usize::MAX
            &&& after.imports_rebuilt < usize::MAX
            &&& after.ambiguous_imports < usize::MAX
            &&& after.invalid_unwind_entries < usize::MAX
        }),
    ensures
        ({
            let before = dump::summary_of(infos);
            let after = dump::summary_of(infos.push(info));
            &&& after.dlls == before.dlls + if info.is_main {
                0int
            } else {
                1
            }
            &&& after.hidden_images == before.hidden_images + if info.hidden {
                1int
            } else {
                0
            }
            &&& after.repaired_headers == before.repaired_headers + if info.salvaged_headers {
                1int
            } else {
                0
            }
            &&& after.disk_header_repairs == before.disk_header_repairs
                + if info.disk_headers_used {
                1int
            } else {
                0
            }
            &&& after.unreadable_pages == before.unreadable_pages + info.unreadable_pages
            &&& after.cleared_directories == before.cleared_directories + info.cleared_directories
            &&& after.imports_rebuilt == before.imports_rebuilt + info.imports_rebuilt
            &&& after.ambiguous_imports == before.ambiguous_imports + info.ambiguous_imports
            &&& after.invalid_unwind_entries == before.invalid_unwind_entries
                + info.invalid_unwind_entries
        }),
        ({
            let none = dump::summary_of(Seq::empty());
            none.dlls == 0 && none.hidden_images == 0 && none.unreadable_pages == 0
                && none.cleared_directories == 0 && none.repaired_headers == 0
                && none.disk_header_repairs == 0 && none.imports_rebuilt == 0
                && none.ambiguous_imports == 0 && none.invalid_unwind_entries == 0
        }),
{
    dump::summaries_grow_by_one(infos, info);
}

/// The main image comes first, and the others follow by their addresses. All keep their name, and
/// one without a name gets the one from its own exports.
pub proof fn images_are_put_in_order(images: Seq<CapturedView>, first: int, second: int)
    requires
        0 <= first < second < images.len(),
    ensures
        ({
            let prepared = dump::prepared(images);
            &&& prepared.len() == images.len()
            &&& prepared[second].is_main ==> prepared[first].is_main
            &&& prepared[first].is_main == prepared[second].is_main ==> prepared[first].base
                <= prepared[second].base
        }),
{
    dump::order_is_right(images, images.len());
    let ordered = dump::in_order(images, images.len());
    assert(!dump::comes_before(ordered[second], ordered[first]));
}

/// Every image is rebuilt from its own bytes at its own address; only its name may be filled in.
pub proof fn images_keep_what_was_captured(image: CapturedView)
    ensures
        ({
            let named = dump::named(image);
            &&& named.base == image.base
            &&& named.bytes == image.bytes
            &&& named.regions == image.regions
            &&& named.unreadable_pages == image.unreadable_pages
            &&& named.path == image.path
            &&& named.is_main == image.is_main
            &&& named.hidden == image.hidden
            &&& image.name is Some ==> named.name == image.name
            &&& image.name is None ==> named.name == crate::pe::exports::embedded_name(image.bytes)
        }),
{
}

/// A chosen entry point is for the main image alone.
pub proof fn entry_points_are_for_the_main_image(
    image: CapturedView,
    entry_point: EntryPointRva,
)
    ensures
        image.is_main ==> dump::entry_point_of(image, Some(entry_point)) == Some(entry_point@),
        !image.is_main ==> dump::entry_point_of(image, Some(entry_point)) is None,
        dump::entry_point_of(image, None) is None,
{
}

/// A rebuilt image becomes a file exactly if it is the main image, hidden, a DLL, or known by a
/// name. The file holds its bytes, and nothing else of the report changes but that the main image
/// was rebuilt.
pub proof fn rebuilt_images_become_files(
    before: ReportView,
    target: Seq<char>,
    image: CapturedView,
    rebuilt: RebuiltImage,
)
    ensures
        ({
            let result: AppResult<RebuiltImage> = Ok(rebuilt);
            let after = dump::with_image(before, target, image, result);
            let written = image.is_main || image.hidden || rebuilt.is_dll || image.name is Some;
            &&& after.files.len() == before.files.len() + if written {
                1int
            } else {
                0
            }
            &&& written ==> {
                let file = after.files.last();
                &&& after.files.drop_last() == before.files
                &&& file.bytes == rebuilt.bytes@
                &&& file.context.base == image.base
                &&& file.context.is_main == image.is_main
                &&& file.context.hidden == image.hidden
                &&& file.context.kind == rebuilt.kind
                &&& file.context.sections == rebuilt.section_count
                &&& file.context.salvaged_headers == rebuilt.salvaged_headers
                &&& file.context.disk_headers_used == rebuilt.disk_headers_used
                &&& file.context.cleared_directories == rebuilt.cleared_directories
                &&& file.context.invalid_unwind_entries == rebuilt.invalid_unwind_entries
                &&& file.context.imports_rebuilt == rebuilt.imports_rebuilt
                &&& file.context.ambiguous_imports == rebuilt.ambiguous_imports
            }
            &&& !written ==> after.files == before.files
            &&& after.main_rebuilt <==> before.main_rebuilt || image.is_main
            &&& after.failures == before.failures
            &&& after.dll_failures == before.dll_failures
        }),
{
    let result: AppResult<RebuiltImage> = Ok(rebuilt);
    let after = dump::with_image(before, target, image, result);
    if image.is_main || image.hidden || rebuilt.is_dll || image.name is Some {
        assert(after.files.drop_last() =~= before.files);
    }
}

/// An image that could not be rebuilt is told of if it is the main image, hidden, or known by a
/// name, with its address and the reason. It counts as a DLL that failed if it is known by a name
/// and neither main nor hidden.
pub proof fn failed_images_are_told_of(
    before: ReportView,
    target: Seq<char>,
    image: CapturedView,
    known: bool,
    reason: Seq<char>,
)
    requires
        before.dll_failures < usize::MAX,
    ensures
        ({
            let after = dump::with_failure(before, target, image, known, reason);
            let told = image.is_main || image.hidden || known;
            &&& after.files == before.files
            &&& after.main_rebuilt == before.main_rebuilt
            &&& told ==> after.failures.len() == before.failures.len() + 1
                && after.failures.last().base == image.base && after.failures.last().error == reason
                && after.failures.drop_last() == before.failures
            &&& image.is_main ==> after.failures.last().name == target
            &&& !told ==> after.failures == before.failures
            &&& after.dll_failures == before.dll_failures + if known && !image.is_main
                && !image.hidden {
                1int
            } else {
                0
            }
        }),
{
    let after = dump::with_failure(before, target, image, known, reason);
    if image.is_main || image.hidden || known {
        assert(after.failures.drop_last() =~= before.failures);
    }
}

/// The main image has the name of the target. A DLL has the file name of its path.
pub proof fn files_are_named_after_their_images(
    target: Seq<char>,
    image: CapturedView,
    folder: Seq<char>,
    name: Seq<char>,
    is_dll: bool,
)
    requires
        name_facts::file_part(name),
        name.last() != '.',
        name.last() != ' ',
        folder.len() >= 2,
        'A' <= folder[0] <= 'Z' || 'a' <= folder[0] <= 'z',
        folder[1] == ':',
    ensures
        image.is_main ==> dump::preferred_name(target, image, is_dll) == target,
        !image.is_main && is_dll && image.name == Some(folder.push('\\') + name)
            ==> dump::preferred_name(target, image, is_dll) == name,
        !image.is_main && is_dll && image.name == Some(name) ==> dump::preferred_name(
            target,
            image,
            is_dll,
        ) == name,
{
    name_facts::file_names_follow_the_last_separator(folder, '\\', name);
    name_facts::lemma_plain_name(name);
    assert(dump::tells_something(name)) by {
        assert(name[name.len() - 1] == name.last());
    }
}

/// An image that is no DLL gets the extension of a program in place of its own.
pub proof fn programs_get_their_extension(
    target: Seq<char>,
    image: CapturedView,
    stem: Seq<char>,
    extension: Seq<char>,
)
    requires
        !image.is_main,
        stem.len() > 0,
        name_facts::file_part(stem.push('.') + extension),
        forall|i: int| 0 <= i < extension.len() ==> #[trigger] extension[i] != '.',
        image.name == Some(stem.push('.') + extension),
    ensures
        dump::preferred_name(target, image, false) == stem + seq!['.', 'e', 'x', 'e'],
{
    let name = stem.push('.') + extension;
    let changed = stem + seq!['.', 'e', 'x', 'e'];
    name_facts::lemma_plain_name(name);
    name_facts::stems_end_at_the_last_dot(stem, extension);
    reveal_strlit("exe");
    assert("exe"@ =~= seq!['e', 'x', 'e']);
    assert(name.subrange(0, name.len() as int) =~= name);
    assert(name.take(path::stem_length(name)) == stem);
    assert(path::stem_length(name) == stem.len()) by {
        assert(name.take(path::stem_length(name)).len() == path::stem_length(name)) by {
            name_facts::last_marks_are_found(name, seq!['.']);
        }
    }
    assert(path::with_extension_of(name, "exe"@) =~= changed);
    assert(name_facts::file_part(changed)) by {
        assert forall|i: int|
            #![trigger changed[i]]
            0 <= i < changed.len() implies changed[i] != '/' && changed[i] != '\\' && changed[i]
            != ':' by {
            if i < stem.len() {
                assert(changed[i] == name[i]);
            }
        }
    }
    name_facts::lemma_plain_name(changed);
}

/// An image without a name is named by the 16 digits of its address.
pub proof fn nameless_images_are_named_by_address(target: Seq<char>, image: CapturedView)
    requires
        !image.is_main,
        image.name is None,
    ensures
        dump::preferred_name(target, image, true) == seq!['m', 'o', 'd', 'u', 'l', 'e', '-']
            + text::wide_hex(image.base as nat, 16) + seq!['.', 'd', 'l', 'l'],
{
    dump::unnamed_modules_get_their_address(target, image);
    reveal_strlit("module-");
    reveal_strlit(".dll");
    assert("module-"@ =~= seq!['m', 'o', 'd', 'u', 'l', 'e', '-']);
    assert(".dll"@ =~= seq!['.', 'd', 'l', 'l']);
}

/// The digits of a number of fixed width stand for its rests, the lowest last.
pub proof fn wide_numbers_are_written_by_place(value: nat, width: nat)
    requires
        width > 0,
    ensures
        text::wide_hex(value, width).len() == width,
        text::wide_hex(value, width).last() as int == if value % 16 < 10 {
            0x30 + value % 16
        } else {
            0x37 + value % 16
        },
        text::wide_hex(value, width).drop_last() == text::wide_hex(value / 16, (width - 1) as nat),
{
    text::wide_hex_holds_digits(value, width);
    assert(text::wide_hex(value, width).drop_last() =~= text::wide_hex(
        value / 16,
        (width - 1) as nat,
    ));
}

/// A dump is complete exactly if the main image was rebuilt and no DLL failed, and the program then
/// ends with 0. It ends with 3 where only part was rebuilt, with 1 where it was not begun, and with
/// 2 where the target could not be had or written.
pub proof fn endings_have_their_codes(outcome: DumpOutcome)
    ensures
        outcome.complete() <==> outcome.main_rebuilt && outcome.dll_failures == 0,
        Ending::Help.code() == 0,
        Ending::Complete.code() == 0,
        Ending::Partial.code() == 3,
        Ending::BadArguments.code() == 1,
        Ending::NoOutput.code() == 1,
        Ending::NoTarget.code() == 2,
        Ending::NoCapture.code() == 2,
        Ending::NotWritten.code() == 2,
        Step::Arguments.ending() == Ending::BadArguments,
        Step::Output.ending() == Ending::NoOutput,
        Step::Target.ending() == Ending::NoTarget,
        Step::Capture.ending() == Ending::NoCapture,
        Step::Writing.ending() == Ending::NotWritten,
{
}

/// There is something to warn of exactly if one of the counts is not zero, something could not be
/// rebuilt, or executable memory outside images held no image.
pub proof fn warnings_have_their_reasons(outcome: DumpOutcome)
    ensures
        !outcome.warns() <==> {
            &&& outcome.summary.unreadable_pages == 0
            &&& outcome.summary.cleared_directories == 0
            &&& outcome.summary.repaired_headers == 0
            &&& outcome.summary.disk_header_repairs == 0
            &&& outcome.summary.ambiguous_imports == 0
            &&& outcome.summary.invalid_unwind_entries == 0
            &&& outcome.export_stats.unresolved_forwarders == 0
            &&& outcome.failures@.len() == 0
            &&& outcome.executable_non_image_allocations <= outcome.hidden_non_image_images
        },
{
}

/// The lines have a warning with the count and the message.
pub open spec fn warned_of(lines: Seq<LineView>, count: nat, message: Seq<char>) -> bool {
    exists|i: int|
        0 <= i < lines.len() && #[trigger] lines[i] == LineView::Warning(
            text::decimal(count) + message,
        )
}

proof fn lemma_warned(count: usize, message: Seq<char>)
    requires
        count > 0,
    ensures
        warned_of(report::warned(count, message), count as nat, message),
{
    assert(report::warned(count, message)[0] == LineView::Warning(
        text::decimal(count as nat) + message,
    ));
}

proof fn lemma_still_warned(
    left: Seq<LineView>,
    right: Seq<LineView>,
    count: nat,
    message: Seq<char>,
)
    requires
        warned_of(left, count, message) || warned_of(right, count, message),
    ensures
        warned_of(left + right, count, message),
{
    let all = left + right;
    let line = LineView::Warning(text::decimal(count) + message);
    if warned_of(left, count, message) {
        let i = choose|i: int| 0 <= i < left.len() && #[trigger] left[i] == line;
        assert(all[i] == line);
    } else {
        let i = choose|i: int| 0 <= i < right.len() && #[trigger] right[i] == line;
        assert(all[left.len() + i] == line);
    }
}

/// The lines of one of four parts are among those of all.
proof fn lemma_part_warned(
    first: Seq<LineView>,
    second: Seq<LineView>,
    third: Seq<LineView>,
    fourth: Seq<LineView>,
    count: nat,
    message: Seq<char>,
)
    requires
        warned_of(first, count, message) || warned_of(second, count, message) || warned_of(
            third,
            count,
            message,
        ) || warned_of(fourth, count, message),
    ensures
        warned_of(first + second + third + fourth, count, message),
{
    if warned_of(first, count, message) || warned_of(second, count, message) {
        lemma_still_warned(first, second, count, message);
    }
    if warned_of(first + second, count, message) || warned_of(third, count, message) {
        lemma_still_warned(first + second, third, count, message);
    }
    lemma_still_warned(first + second + third, fourth, count, message);
}

/// A warning of one of the parts stands among all warnings.
proof fn lemma_among_all(outcome: DumpOutcome, count: nat, message: Seq<char>)
    requires
        outcome.warns(),
        warned_of(report::repair_warnings(outcome), count, message) || warned_of(
            report::import_warnings(outcome),
            count,
            message,
        ) || warned_of(
            report::warned(
                report::unmatched(outcome),
                " executable non-image allocations did not contain a full PE"@,
            ),
            count,
            message,
        ),
    ensures
        warned_of(report::warning_lines(outcome), count, message),
{
    let head = seq![LineView::Blank, LineView::Section("WARNINGS"@)];
    let repairs = report::repair_warnings(outcome);
    let imports = report::import_warnings(outcome);
    let failures = report::failure_lines(outcome.failures@);
    let rest = report::warned(
        report::unmatched(outcome),
        " executable non-image allocations did not contain a full PE"@,
    );
    if warned_of(repairs, count, message) || warned_of(imports, count, message) {
        lemma_part_warned(head, repairs, imports, failures, count, message);
    }
    lemma_still_warned(head + repairs + imports + failures, rest, count, message);
}

proof fn lemma_repairs_shown(outcome: DumpOutcome, count: usize, message: Seq<char>)
    requires
        count > 0,
        (count == outcome.summary.unreadable_pages && message
            == " unreadable pages were zero-filled"@) || (count
            == outcome.summary.cleared_directories && message
            == " invalid or file-only directories were cleared"@) || (count
            == outcome.summary.repaired_headers && message == " damaged PE headers were repaired"@)
            || (count == outcome.summary.disk_header_repairs && message
            == " images used disk headers; section data came from memory"@),
    ensures
        warned_of(report::repair_warnings(outcome), count as nat, message),
{
    let summary = outcome.summary;
    lemma_warned(count, message);
    lemma_part_warned(
        report::warned(summary.unreadable_pages, " unreadable pages were zero-filled"@),
        report::warned(
            summary.cleared_directories,
            " invalid or file-only directories were cleared"@,
        ),
        report::warned(summary.repaired_headers, " damaged PE headers were repaired"@),
        report::warned(
            summary.disk_header_repairs,
            " images used disk headers; section data came from memory"@,
        ),
        count as nat,
        message,
    );
}

proof fn lemma_imports_shown(outcome: DumpOutcome, count: usize, message: Seq<char>)
    requires
        count > 0,
        (count == outcome.summary.ambiguous_imports && message
            == " ambiguous import pointers were skipped"@) || (count
            == outcome.summary.invalid_unwind_entries && message
            == " invalid x64 unwind entries were removed"@) || (count
            == outcome.export_stats.unresolved_forwarders && message
            == " forwarded exports did not match a loaded image"@),
    ensures
        warned_of(report::import_warnings(outcome), count as nat, message),
{
    let summary = outcome.summary;
    let first = report::warned(
        summary.ambiguous_imports,
        " ambiguous import pointers were skipped"@,
    );
    let second = report::warned(
        summary.invalid_unwind_entries,
        " invalid x64 unwind entries were removed"@,
    );
    let third = report::warned(
        outcome.export_stats.unresolved_forwarders,
        " forwarded exports did not match a loaded image"@,
    );
    lemma_warned(count, message);
    if warned_of(first, count as nat, message) || warned_of(second, count as nat, message) {
        lemma_still_warned(first, second, count as nat, message);
    }
    lemma_still_warned(first + second, third, count as nat, message);
}

/// Each count that is not zero is shown in a warning of its own, with its message.
pub proof fn counts_are_shown_with_their_message(outcome: DumpOutcome)
    ensures
        ({
            let lines = report::warning_lines(outcome);
            let summary = outcome.summary;
            &&& summary.unreadable_pages > 0 ==> warned_of(
                lines,
                summary.unreadable_pages as nat,
                " unreadable pages were zero-filled"@,
            )
            &&& summary.cleared_directories > 0 ==> warned_of(
                lines,
                summary.cleared_directories as nat,
                " invalid or file-only directories were cleared"@,
            )
            &&& summary.repaired_headers > 0 ==> warned_of(
                lines,
                summary.repaired_headers as nat,
                " damaged PE headers were repaired"@,
            )
            &&& summary.disk_header_repairs > 0 ==> warned_of(
                lines,
                summary.disk_header_repairs as nat,
                " images used disk headers; section data came from memory"@,
            )
            &&& summary.ambiguous_imports > 0 ==> warned_of(
                lines,
                summary.ambiguous_imports as nat,
                " ambiguous import pointers were skipped"@,
            )
            &&& summary.invalid_unwind_entries > 0 ==> warned_of(
                lines,
                summary.invalid_unwind_entries as nat,
                " invalid x64 unwind entries were removed"@,
            )
            &&& outcome.export_stats.unresolved_forwarders > 0 ==> warned_of(
                lines,
                outcome.export_stats.unresolved_forwarders as nat,
                " forwarded exports did not match a loaded image"@,
            )
            &&& outcome.executable_non_image_allocations > outcome.hidden_non_image_images
                ==> warned_of(
                lines,
                (outcome.executable_non_image_allocations - outcome.hidden_non_image_images) as nat,
                " executable non-image allocations did not contain a full PE"@,
            )
        }),
{
    let summary = outcome.summary;
    if summary.unreadable_pages > 0 {
        lemma_repairs_shown(
            outcome,
            summary.unreadable_pages,
            " unreadable pages were zero-filled"@,
        );
        lemma_among_all(
            outcome,
            summary.unreadable_pages as nat,
            " unreadable pages were zero-filled"@,
        );
    }
    if summary.cleared_directories > 0 {
        lemma_repairs_shown(
            outcome,
            summary.cleared_directories,
            " invalid or file-only directories were cleared"@,
        );
        lemma_among_all(
            outcome,
            summary.cleared_directories as nat,
            " invalid or file-only directories were cleared"@,
        );
    }
    if summary.repaired_headers > 0 {
        lemma_repairs_shown(
            outcome,
            summary.repaired_headers,
            " damaged PE headers were repaired"@,
        );
        lemma_among_all(
            outcome,
            summary.repaired_headers as nat,
            " damaged PE headers were repaired"@,
        );
    }
    if summary.disk_header_repairs > 0 {
        lemma_repairs_shown(
            outcome,
            summary.disk_header_repairs,
            " images used disk headers; section data came from memory"@,
        );
        lemma_among_all(
            outcome,
            summary.disk_header_repairs as nat,
            " images used disk headers; section data came from memory"@,
        );
    }
    if summary.ambiguous_imports > 0 {
        lemma_imports_shown(
            outcome,
            summary.ambiguous_imports,
            " ambiguous import pointers were skipped"@,
        );
        lemma_among_all(
            outcome,
            summary.ambiguous_imports as nat,
            " ambiguous import pointers were skipped"@,
        );
    }
    if summary.invalid_unwind_entries > 0 {
        lemma_imports_shown(
            outcome,
            summary.invalid_unwind_entries,
            " invalid x64 unwind entries were removed"@,
        );
        lemma_among_all(
            outcome,
            summary.invalid_unwind_entries as nat,
            " invalid x64 unwind entries were removed"@,
        );
    }
    if outcome.export_stats.unresolved_forwarders > 0 {
        lemma_imports_shown(
            outcome,
            outcome.export_stats.unresolved_forwarders,
            " forwarded exports did not match a loaded image"@,
        );
        lemma_among_all(
            outcome,
            outcome.export_stats.unresolved_forwarders as nat,
            " forwarded exports did not match a loaded image"@,
        );
    }
    if outcome.executable_non_image_allocations > outcome.hidden_non_image_images {
        lemma_warned(
            report::unmatched(outcome),
            " executable non-image allocations did not contain a full PE"@,
        );
        lemma_among_all(
            outcome,
            report::unmatched(outcome) as nat,
            " executable non-image allocations did not contain a full PE"@,
        );
    }
}

/// A field is shown behind two spaces, and its value starts 13 letters into the line.
pub proof fn fields_are_shown_in_columns(name: Seq<char>, value: Seq<char>)
    requires
        name.len() <= 11,
    ensures
        ({
            let shown = report::line_text(LineView::Field(name, value));
            &&& shown.len() == 13 + value.len()
            &&& shown[0] == ' '
            &&& shown[1] == ' '
            &&& shown.subrange(2, 2 + name.len() as int) == name
            &&& forall|i: int| 2 + name.len() <= i < 13 ==> #[trigger] shown[i] == ' '
            &&& shown.skip(13) == value
        }),
{
    reveal_strlit("  ");
    let shown = report::line_text(LineView::Field(name, value));
    assert(shown.subrange(2, 2 + name.len() as int) =~= name);
    assert(shown.skip(13) =~= value);
}

proof fn lemma_kept_items<A>(list: Seq<A>, kept: spec_fn(A) -> bool, item: A)
    ensures
        list.filter(kept).contains(item) <==> list.contains(item) && kept(item),
    decreases list.len(),
{
    reveal(Seq::filter);
    if list.len() > 0 {
        let fewer = list.drop_last();
        let last = list.last();
        let shorter = fewer.filter(kept);
        lemma_kept_items(fewer, kept, item);
        assert(fewer.push(last) =~= list);
        lemma_pushed_item(fewer, last, item);
        lemma_pushed_item(shorter, last, item);
        if kept(last) {
            assert(list.filter(kept) == shorter.push(last));
        }
    }
}

proof fn lemma_pushed_item<A>(list: Seq<A>, last: A, item: A)
    ensures
        list.push(last).contains(item) <==> list.contains(item) || item == last,
{
    let all = list.push(last);
    if list.contains(item) {
        let i = choose|i: int| 0 <= i < list.len() && list[i] == item;
        assert(all[i] == item);
    }
    assert(all[list.len() as int] == last);
    if all.contains(item) {
        let i = choose|i: int| 0 <= i < all.len() && all[i] == item;
        if i < list.len() {
            assert(list[i] == item);
        }
    }
}

/// A module is missing exactly if the process has it, it is not the main one, and no captured
/// image starts at its address.
pub proof fn modules_without_image_are_missing(
    modules: Seq<ModuleView>,
    main_base: u64,
    images: Seq<CapturedView>,
    module: ModuleView,
)
    ensures
        dump::missing_modules(modules, main_base, images).contains(module) <==> modules.contains(
            module,
        ) && module.base != main_base && forall|i: int|
            0 <= i < images.len() ==> (#[trigger] images[i]).base != module.base,
{
    lemma_kept_items(
        modules,
        |module: ModuleView| dump::is_missing(module, main_base, images),
        module,
    );
}

/// Exactly the images that were found outside of mapped images count as hidden.
pub proof fn hidden_images_are_counted(images: Seq<CapturedView>, image: CapturedView)
    ensures
        dump::hidden_images(images).contains(image) <==> images.contains(image) && image.hidden,
{
    lemma_kept_items(images, |image: CapturedView| image.hidden, image);
}

/// The lines have this one.
pub open spec fn shows(lines: Seq<LineView>, line: LineView) -> bool {
    exists|i: int| 0 <= i < lines.len() && #[trigger] lines[i] == line
}

proof fn lemma_shown(left: Seq<LineView>, right: Seq<LineView>, line: LineView)
    requires
        shows(left, line) || shows(right, line),
    ensures
        shows(left + right, line),
{
    let all = left + right;
    if shows(left, line) {
        let i = choose|i: int| 0 <= i < left.len() && #[trigger] left[i] == line;
        assert(all[i] == line);
    } else {
        let i = choose|i: int| 0 <= i < right.len() && #[trigger] right[i] == line;
        assert(all[left.len() + i] == line);
    }
}

proof fn lemma_shown_in_dump(directory: Seq<char>, outcome: DumpOutcome, line: LineView)
    requires
        shows(report::output_lines(directory, outcome), line) || shows(
            report::analysis_lines(outcome),
            line,
        ),
    ensures
        shows(report::dump_lines(directory, outcome), line),
{
    let first = report::output_lines(directory, outcome);
    let second = report::analysis_lines(outcome);
    let third = report::warning_lines(outcome);
    lemma_shown(first, second, line);
    lemma_shown(first + second, third, line);
    lemma_shown(first + second + third, seq![report::last_line(outcome)], line);
}

/// What a dump came to is shown: how many DLLs and hidden images were written, where, how many
/// exports and forwarders were found, how many imports were recovered, and how much executable
/// memory lies outside of images. The last line says whether it is complete.
pub proof fn numbers_are_shown_under_their_names(directory: Seq<char>, outcome: DumpOutcome)
    ensures
        ({
            let lines = report::dump_lines(directory, outcome);
            &&& shows(
                lines,
                LineView::Field("DLLs"@, text::decimal(outcome.summary.dlls as nat)),
            )
            &&& shows(
                lines,
                LineView::Field(
                    "Hidden PEs"@,
                    text::decimal(outcome.summary.hidden_images as nat),
                ),
            )
            &&& shows(lines, LineView::Field("Folder"@, directory))
            &&& shows(
                lines,
                LineView::Field(
                    "Forwarders"@,
                    text::decimal(outcome.export_stats.forwarders as nat),
                ),
            )
            &&& shows(
                lines,
                LineView::Field(
                    "Imports"@,
                    text::decimal(outcome.summary.imports_rebuilt as nat) + " recovered"@,
                ),
            )
            &&& shows(
                lines,
                LineView::Field(
                    "Non-image"@,
                    text::decimal(outcome.executable_non_image_allocations as nat)
                        + " executable allocations"@,
                ),
            )
            &&& shows(
                lines,
                LineView::Field(
                    "Exports"@,
                    text::decimal(outcome.export_stats.modules as nat) + " modules, "@ + (
                    text::decimal(outcome.export_stats.addresses as nat) + " addresses"@),
                ),
            )
            &&& lines.last() is Done <==> outcome.main_rebuilt && outcome.dll_failures == 0
            &&& lines.last() is Partial <==> !(outcome.main_rebuilt && outcome.dll_failures == 0)
        }),
{
    let lines = report::dump_lines(directory, outcome);
    let output = report::output_lines(directory, outcome);
    let analysis = report::analysis_lines(outcome);
    let count = output.len() as int;
    assert(output[count - 4] == LineView::Field(
        "DLLs"@,
        text::decimal(outcome.summary.dlls as nat),
    ));
    assert(output[count - 3] == LineView::Field(
        "Hidden PEs"@,
        text::decimal(outcome.summary.hidden_images as nat),
    ));
    assert(output[count - 2] == LineView::Field("Folder"@, directory));
    assert(analysis[1] is Field && analysis[2] is Field && analysis[3] is Field && analysis[4]
        is Field);
    lemma_shown_in_dump(directory, outcome, output[count - 4]);
    lemma_shown_in_dump(directory, outcome, output[count - 3]);
    lemma_shown_in_dump(directory, outcome, output[count - 2]);
    lemma_shown_in_dump(directory, outcome, analysis[1]);
    lemma_shown_in_dump(directory, outcome, analysis[2]);
    lemma_shown_in_dump(directory, outcome, analysis[3]);
    lemma_shown_in_dump(directory, outcome, analysis[4]);
}

/// Every image that could not be rebuilt is shown with its name, its address in 16 digits and the
/// reason.
pub proof fn failures_are_shown(outcome: DumpOutcome, index: int)
    requires
        0 <= index < outcome.failures@.len(),
    ensures
        ({
            let failure = outcome.failures@[index];
            shows(
                report::warning_lines(outcome),
                LineView::Warning(
                    "Could not rebuild "@ + failure.name@ + " at "@ + ("0x"@ + text::wide_hex(
                        failure.base as nat,
                        16,
                    )) + ": "@ + failure.error@,
                ),
            )
        }),
{
    let head = seq![LineView::Blank, LineView::Section("WARNINGS"@)];
    let repairs = report::repair_warnings(outcome);
    let imports = report::import_warnings(outcome);
    let failures = report::failure_lines(outcome.failures@);
    let rest = report::warned(
        report::unmatched(outcome),
        " executable non-image allocations did not contain a full PE"@,
    );
    let line = failures[index];
    assert(shows(failures, line));
    lemma_shown(head + repairs + imports, failures, line);
    lemma_shown(head + repairs + imports + failures, rest, line);
}

/// The target is shown with its name, its number, its architecture and the address of its image.
pub proof fn targets_are_shown(target: TargetProcess, size: Seq<char>)
    ensures
        ({
            let lines = report::target_lines(target, size);
            &&& shows(lines, LineView::Field("Name"@, target.name@))
            &&& shows(lines, LineView::Field("PID"@, text::decimal(target.pid@ as nat)))
            &&& shows(lines, LineView::Field("Arch"@, target.architecture.name()))
            &&& shows(
                lines,
                LineView::Field(
                    "Image"@,
                    "0x"@ + text::wide_hex(target.main_module.base as nat, 16) + " ("@ + size
                        + ")"@,
                ),
            )
        }),
{
    let lines = report::target_lines(target, size);
    assert(lines[1] is Field && lines[2] is Field && lines[3] is Field && lines[4] is Field);
}

/// Memory that settled is a success; memory that did not, and memory that could not be looked at,
/// is warned of.
pub proof fn unsettled_memory_is_warned_of(outcome: AppResult<StabilityInfo>)
    ensures
        report::stability_line(outcome) is Success <==> outcome is Ok && outcome->Ok_0.settled,
        report::stability_line(outcome) is Warning <==> !(outcome is Ok && outcome->Ok_0.settled),
{
}

/// An image is done once memory gives it. One that memory does not give waits for the file on disk
/// if it has one, and is done without it otherwise; and the file ends the waiting.
pub proof fn images_wait_for_their_file(
    before: RebuildingView,
    result: AppResult<RebuiltImage>,
)
    ensures
        ({
            let after = dump::memory_tried(before, result);
            let waits = result is Err && dump::next_image(before).path is Some;
            &&& waits ==> after.results == before.results && after.pending == Some(
                result->Err_0@,
            )
            &&& !waits ==> after.results == before.results.push(result) && after.pending
                == before.pending
            &&& after.images == before.images
            &&& after.exports == before.exports
            &&& after.entry_point == before.entry_point
        }),
        ({
            let after = dump::disk_tried(before, result);
            &&& after.results == before.results.push(result)
            &&& after.pending is None
            &&& after.images == before.images
            &&& after.exports == before.exports
            &&& after.entry_point == before.entry_point
        }),
        dump::next_image(before) == before.images[before.results.len() as int],
{
}

/// A capture without a snapshot is warned of, with the reason; one with a snapshot is not.
pub proof fn live_captures_are_warned_of(capture: Capture)
    ensures
        ({
            let lines = report::capture_lines(capture);
            &&& capture.fallback_reason matches Some(reason) ==> shows(
                lines,
                LineView::Warning(
                    "PSS was unavailable ("@ + reason@ + "); live memory may have changed"@,
                ),
            )
            &&& capture.fallback_reason is None ==> forall|i: int|
                0 <= i < lines.len() ==> !(#[trigger] lines[i] is Warning)
            &&& shows(lines, LineView::Field("Method"@, capture.mode.name()))
            &&& shows(lines, LineView::Field("Images"@, text::decimal(capture.images@.len())))
        }),
{
    let lines = report::capture_lines(capture);
    assert(lines[1] is Field && lines[3] is Field);
    if capture.fallback_reason is Some {
        assert(lines[4] is Warning);
    }
}

/// The main file is shown with its path, its format, its sections and its base.
pub proof fn main_files_are_shown(directory: Seq<char>, outcome: DumpOutcome, place: int)
    requires
        0 <= place < outcome.artifacts@.len(),
        outcome.artifacts@[place].context.is_main,
        forall|earlier: int|
            0 <= earlier < place ==> !(#[trigger] outcome.artifacts@[earlier]).context.is_main,
    ensures
        ({
            let lines = report::dump_lines(directory, outcome);
            let main = outcome.artifacts@[place];
            &&& shows(lines, LineView::Field("Main"@, main.path@))
            &&& shows(
                lines,
                LineView::Field(
                    "Layout"@,
                    main.context.kind.name() + ", "@ + text::decimal(main.context.sections as nat)
                        + " sections, base "@ + ("0x"@ + text::wide_hex(
                        main.context.base as nat,
                        16,
                    )),
                ),
            )
        }),
{
    let artifacts = outcome.artifacts@;
    assert(report::is_first_main(artifacts, place));
    let found = choose|found: int| report::is_first_main(artifacts, found);
    assert(report::is_first_main(artifacts, found));
    assert(found == place) by {
        if found < place {
            assert(!artifacts[found].context.is_main);
        } else if place < found {
            assert(!artifacts[place].context.is_main);
        }
    }
    let lines = report::output_lines(directory, outcome);
    let main = report::main_lines(artifacts[place]);
    assert(lines[1] == main[0]);
    assert(lines[2] == main[1]);
    lemma_shown_in_dump(directory, outcome, lines[1]);
    lemma_shown_in_dump(directory, outcome, lines[2]);
}

} // verus!
