//! Rebuilding all captured images, and what is reported of them.

use vstd::prelude::*;

use crate::error::{AppError, AppResult};
use crate::error;
use crate::memory::{Capture, CapturedImage, CapturedView};
use crate::output::{OutputFile, WrittenFile};
use crate::output;
use crate::path::{file_name, replace_extension};
use crate::path;
use crate::pe::exports::{embedded_module_name, AddressMap, ExportIndex, ExportStats, IndexView, SourceView};
use crate::pe::exports;
use crate::pe::headers;
use crate::pe::rebuild::{rebuild, RebuiltImage};
use crate::pe::rebuild;
use crate::pe::{EntryPointRva, PeKind};
use crate::process::{ModuleView, TargetProcess};
use crate::process;
use crate::text::{chars_of, joined, with_wide_hex};
use crate::text;

verus! {

/// The most bytes of a file that are read for its headers.
pub const MAX_DISK_HEADER_BYTES: u64 = 1_048_576;

/// What is known of an image that is written.
#[derive(Clone, Copy, Debug, PartialEq, Eq, Structural)]
pub struct ArtifactInfo {
    pub base: u64,
    pub kind: PeKind,
    pub sections: usize,
    pub unreadable_pages: usize,
    pub salvaged_headers: bool,
    pub disk_headers_used: bool,
    pub cleared_directories: usize,
    pub invalid_unwind_entries: usize,
    pub imports_rebuilt: usize,
    pub ambiguous_imports: usize,
    pub hidden: bool,
    pub is_main: bool,
}

/// An image that could not be rebuilt.
#[derive(Debug)]
pub struct BuildFailure {
    pub name: String,
    pub base: u64,
    pub error: AppError,
}

/// An image that could not be rebuilt, seen mathematically.
pub struct FailureView {
    pub name: Seq<char>,
    pub base: u64,
    pub error: Seq<char>,
}

impl View for BuildFailure {
    type V = FailureView;

    open spec fn view(&self) -> FailureView {
        FailureView { name: self.name@, base: self.base, error: self.error@ }
    }
}

/// What was done to the images that were written, in numbers.
#[derive(Clone, Copy, Debug, PartialEq, Eq, Structural)]
pub struct DumpSummary {
    pub dlls: usize,
    pub hidden_images: usize,
    pub unreadable_pages: usize,
    pub cleared_directories: usize,
    pub repaired_headers: usize,
    pub disk_header_repairs: usize,
    pub imports_rebuilt: usize,
    pub ambiguous_imports: usize,
    pub invalid_unwind_entries: usize,
}

/// A count that stops at the largest number.
pub open spec fn capped(count: int) -> usize {
    if count > usize::MAX {
        usize::MAX
    } else {
        count as usize
    }
}

/// One for what holds, zero for what does not.
pub open spec fn one_if(holds: bool) -> int {
    if holds {
        1
    } else {
        0
    }
}

/// The sum of a number over all written images.
pub open spec fn total(infos: Seq<ArtifactInfo>, number: spec_fn(ArtifactInfo) -> int) -> int
    decreases infos.len(),
{
    if infos.len() == 0 {
        0
    } else {
        total(infos.drop_last(), number) + number(infos.last())
    }
}

/// The summary of written images: each number is a sum, as far as it can be counted.
pub open spec fn summary_of(infos: Seq<ArtifactInfo>) -> DumpSummary {
    DumpSummary {
        dlls: capped(total(infos, |info: ArtifactInfo| one_if(!info.is_main))),
        hidden_images: capped(total(infos, |info: ArtifactInfo| one_if(info.hidden))),
        unreadable_pages: capped(total(infos, |info: ArtifactInfo| info.unreadable_pages as int)),
        cleared_directories: capped(
            total(infos, |info: ArtifactInfo| info.cleared_directories as int),
        ),
        repaired_headers: capped(total(infos, |info: ArtifactInfo| one_if(info.salvaged_headers))),
        disk_header_repairs: capped(
            total(infos, |info: ArtifactInfo| one_if(info.disk_headers_used)),
        ),
        imports_rebuilt: capped(total(infos, |info: ArtifactInfo| info.imports_rebuilt as int)),
        ambiguous_imports: capped(total(infos, |info: ArtifactInfo| info.ambiguous_imports as int)),
        invalid_unwind_entries: capped(
            total(infos, |info: ArtifactInfo| info.invalid_unwind_entries as int),
        ),
    }
}

/// What is known of the images of written files.
pub open spec fn contexts(artifacts: Seq<WrittenFile<ArtifactInfo>>) -> Seq<ArtifactInfo> {
    artifacts.map_values(|artifact: WrittenFile<ArtifactInfo>| artifact.context)
}

proof fn lemma_total_grows(infos: Seq<ArtifactInfo>, info: ArtifactInfo, number: spec_fn(ArtifactInfo) -> int)
    ensures
        total(infos.push(info), number) == total(infos, number) + number(info),
{
    assert(infos.push(info).drop_last() =~= infos);
}

proof fn lemma_total_is_not_negative(infos: Seq<ArtifactInfo>, number: spec_fn(ArtifactInfo) -> int)
    requires
        forall|info: ArtifactInfo| #[trigger] number(info) >= 0,
    ensures
        total(infos, number) >= 0,
    decreases infos.len(),
{
    if infos.len() > 0 {
        lemma_total_is_not_negative(infos.drop_last(), number);
    }
}

proof fn lemma_capped_sum(infos: Seq<ArtifactInfo>, info: ArtifactInfo, number: spec_fn(ArtifactInfo) -> int)
    requires
        forall|other: ArtifactInfo| #[trigger] number(other) >= 0,
    ensures
        capped(total(infos.push(info), number)) == capped(capped(total(infos, number)) + number(info)),
{
    lemma_total_grows(infos, info, number);
    lemma_total_is_not_negative(infos, number);
    assert(number(info) >= 0);
}

/// The summary with one more image.
pub open spec fn summary_with(before: DumpSummary, info: ArtifactInfo) -> DumpSummary {
    DumpSummary {
        dlls: capped(before.dlls + one_if(!info.is_main)),
        hidden_images: capped(before.hidden_images + one_if(info.hidden)),
        unreadable_pages: capped(before.unreadable_pages + info.unreadable_pages),
        cleared_directories: capped(before.cleared_directories + info.cleared_directories),
        repaired_headers: capped(before.repaired_headers + one_if(info.salvaged_headers)),
        disk_header_repairs: capped(before.disk_header_repairs + one_if(info.disk_headers_used)),
        imports_rebuilt: capped(before.imports_rebuilt + info.imports_rebuilt),
        ambiguous_imports: capped(before.ambiguous_imports + info.ambiguous_imports),
        invalid_unwind_entries: capped(
            before.invalid_unwind_entries + info.invalid_unwind_entries,
        ),
    }
}

/// To add one image to a summary gives the summary of the images with that one.
pub proof fn summaries_grow_by_one(infos: Seq<ArtifactInfo>, info: ArtifactInfo)
    ensures
        summary_of(infos.push(info)) == summary_with(summary_of(infos), info),
{
    lemma_capped_sum(infos, info, |info: ArtifactInfo| one_if(!info.is_main));
    lemma_capped_sum(infos, info, |info: ArtifactInfo| one_if(info.hidden));
    lemma_capped_sum(infos, info, |info: ArtifactInfo| info.unreadable_pages as int);
    lemma_capped_sum(infos, info, |info: ArtifactInfo| info.cleared_directories as int);
    lemma_capped_sum(infos, info, |info: ArtifactInfo| one_if(info.salvaged_headers));
    lemma_capped_sum(infos, info, |info: ArtifactInfo| one_if(info.disk_headers_used));
    lemma_capped_sum(infos, info, |info: ArtifactInfo| info.imports_rebuilt as int);
    lemma_capped_sum(infos, info, |info: ArtifactInfo| info.ambiguous_imports as int);
    lemma_capped_sum(infos, info, |info: ArtifactInfo| info.invalid_unwind_entries as int);
}

fn count_of(holds: bool) -> (count: usize)
    ensures
        count == one_if(holds),
{
    if holds {
        1
    } else {
        0
    }
}

impl Default for DumpSummary {
    fn default() -> (summary: Self)
        ensures
            summary == summary_of(Seq::empty()),
    {
        DumpSummary {
            dlls: 0,
            hidden_images: 0,
            unreadable_pages: 0,
            cleared_directories: 0,
            repaired_headers: 0,
            disk_header_repairs: 0,
            imports_rebuilt: 0,
            ambiguous_imports: 0,
            invalid_unwind_entries: 0,
        }
    }
}

impl DumpSummary {
    /// The summary of written images.
    pub fn from_artifacts(artifacts: &[WrittenFile<ArtifactInfo>]) -> (summary: Self)
        ensures
            summary == summary_of(contexts(artifacts@)),
    {
        let mut summary: DumpSummary = DumpSummary::default();
        let mut index: usize = 0;
        assert(contexts(artifacts@.take(0)) =~= Seq::empty());
        while index < artifacts.len()
            invariant
                index <= artifacts@.len(),
                summary == summary_of(contexts(artifacts@.take(index as int))),
            decreases artifacts@.len() - index,
        {
            let info: ArtifactInfo = artifacts[index].context;
            proof {
                summaries_grow_by_one(contexts(artifacts@.take(index as int)), info);
                assert(contexts(artifacts@.take(index + 1)) =~= contexts(
                    artifacts@.take(index as int),
                ).push(info));
            }
            summary.add(&info);
            index = index + 1;
        }
        assert(artifacts@.take(artifacts@.len() as int) =~= artifacts@);
        summary
    }

    /// Adds one image.
    pub fn add(&mut self, info: &ArtifactInfo)
        ensures
            *final(self) == summary_with(*old(self), *info),
    {
        self.dlls = self.dlls.saturating_add(count_of(!info.is_main));
        self.hidden_images = self.hidden_images.saturating_add(count_of(info.hidden));
        self.unreadable_pages = self.unreadable_pages.saturating_add(info.unreadable_pages);
        self.cleared_directories =
        self.cleared_directories.saturating_add(info.cleared_directories);
        self.repaired_headers = self.repaired_headers.saturating_add(count_of(info.salvaged_headers));
        self.disk_header_repairs =
        self.disk_header_repairs.saturating_add(count_of(info.disk_headers_used));
        self.imports_rebuilt = self.imports_rebuilt.saturating_add(info.imports_rebuilt);
        self.ambiguous_imports = self.ambiguous_imports.saturating_add(info.ambiguous_imports);
        self.invalid_unwind_entries =
        self.invalid_unwind_entries.saturating_add(info.invalid_unwind_entries);
    }
}

/// The main image comes first, the others by their addresses.
pub open spec fn comes_before(left: CapturedView, right: CapturedView) -> bool {
    if left.is_main != right.is_main {
        left.is_main
    } else {
        left.base < right.base
    }
}

/// The place of an image among images in order: behind those that do not come after it.
pub open spec fn place_of(images: Seq<CapturedView>, image: CapturedView) -> int
    decreases images.len(),
{
    if images.len() == 0 || !comes_before(image, images.last()) {
        images.len() as int
    } else {
        place_of(images.drop_last(), image)
    }
}

/// The first `count` images in order.
pub open spec fn in_order(images: Seq<CapturedView>, count: nat) -> Seq<CapturedView>
    decreases count,
{
    if count == 0 {
        Seq::empty()
    } else {
        let before = in_order(images, (count - 1) as nat);
        before.insert(place_of(before, images[count - 1]), images[count - 1])
    }
}

/// The image with the name that it has for itself, if it has no other.
pub open spec fn named(image: CapturedView) -> CapturedView {
    CapturedView {
        name: match image.name {
            Some(name) => Some(name),
            None => exports::embedded_name(image.bytes),
        },
        ..image
    }
}

/// The images in order and with names.
pub open spec fn prepared(images: Seq<CapturedView>) -> Seq<CapturedView> {
    in_order(images, images.len()).map_values(|image: CapturedView| named(image))
}

/// Images, seen mathematically.
pub open spec fn image_views(images: Seq<CapturedImage>) -> Seq<CapturedView> {
    images.map_values(|image: CapturedImage| image@)
}

proof fn lemma_place_bounds(images: Seq<CapturedView>, image: CapturedView)
    ensures
        0 <= place_of(images, image) <= images.len(),
    decreases images.len(),
{
    if images.len() > 0 && comes_before(image, images.last()) {
        lemma_place_bounds(images.drop_last(), image);
    }
}

/// No image comes before one that stands before it.
pub open spec fn ordered(images: Seq<CapturedView>) -> bool {
    forall|first: int, second: int|
        #![trigger images[first], images[second]]
        0 <= first < second < images.len() ==> !comes_before(images[second], images[first])
}

proof fn lemma_place_splits(images: Seq<CapturedView>, image: CapturedView)
    requires
        ordered(images),
    ensures
        forall|index: int|
            #![trigger images[index]]
            0 <= index < place_of(images, image) ==> !comes_before(image, images[index]),
        forall|index: int|
            #![trigger images[index]]
            place_of(images, image) <= index < images.len() ==> comes_before(image, images[index]),
    decreases images.len(),
{
    lemma_place_bounds(images, image);
    if images.len() > 0 {
        let shorter = images.drop_last();
        if comes_before(image, images.last()) {
            assert(ordered(shorter)) by {
                assert forall|first: int, second: int|
                    #![trigger shorter[first], shorter[second]]
                    0 <= first < second < shorter.len() implies !comes_before(
                    shorter[second],
                    shorter[first],
                ) by {
                    assert(shorter[first] == images[first] && shorter[second] == images[second]);
                }
            }
            lemma_place_splits(shorter, image);
            lemma_place_bounds(shorter, image);
            let place = place_of(shorter, image);
            assert(place_of(images, image) == place);
            assert forall|index: int|
                #![trigger images[index]]
                0 <= index < place implies !comes_before(image, images[index]) by {
                assert(shorter[index] == images[index]);
            }
            assert forall|index: int|
                #![trigger images[index]]
                place <= index < images.len() implies comes_before(image, images[index]) by {
                if index < shorter.len() {
                    assert(shorter[index] == images[index]);
                } else {
                    assert(images[index] == images.last());
                }
            }
        } else {
            assert forall|index: int|
                #![trigger images[index]]
                0 <= index < images.len() implies !comes_before(image, images[index]) by {
                assert(images[images.len() - 1] == images.last());
                if index < images.len() - 1 {
                    assert(!comes_before(images[images.len() - 1], images[index]));
                }
            }
        }
    }
}

/// The images come in order: the main image first, the others by their addresses. None is lost.
pub proof fn order_is_right(images: Seq<CapturedView>, count: nat)
    requires
        count <= images.len(),
    ensures
        ordered(in_order(images, count)),
        in_order(images, count).to_multiset() == images.take(count as int).to_multiset(),
        in_order(images, count).len() == count,
    decreases count,
{
    broadcast use vstd::seq_lib::group_to_multiset_ensures;

    if count == 0 {
        assert(images.take(0) =~= in_order(images, 0));
    } else {
        let before = in_order(images, (count - 1) as nat);
        let image = images[count - 1];
        let place = place_of(before, image);
        let after = in_order(images, count);
        order_is_right(images, (count - 1) as nat);
        lemma_place_bounds(before, image);
        lemma_place_splits(before, image);
        assert(images.take(count as int) =~= images.take(count - 1).push(image));
        assert forall|first: int, second: int|
            #![trigger after[first], after[second]]
            0 <= first < second < after.len() implies !comes_before(
            after[second],
            after[first],
        ) by {
            let first_before = if first < place {
                first
            } else {
                first - 1
            };
            let second_before = if second < place {
                second
            } else {
                second - 1
            };
            if first != place {
                assert(after[first] == before[first_before]);
            }
            if second != place {
                assert(after[second] == before[second_before]);
            }
        }
    }
}

fn is_before(left: &CapturedImage, right: &CapturedImage) -> (yes: bool)
    ensures
        yes == comes_before(left@, right@),
{
    if left.is_main != right.is_main {
        left.is_main
    } else {
        left.base < right.base
    }
}

fn place_in(images: &Vec<CapturedImage>, image: &CapturedImage) -> (place: usize)
    ensures
        place == place_of(image_views(images@), image@),
        place <= images@.len(),
{
    let ghost views = image_views(images@);
    let mut place: usize = images.len();
    assert(views.take(place as int) =~= views);
    while place > 0 && is_before(image, &images[place - 1])
        invariant
            place <= images@.len(),
            views == image_views(images@),
            place_of(views, image@) == place_of(views.take(place as int), image@),
        decreases place,
    {
        proof {
            assert(views.take(place as int).last() == images@[place - 1]@);
            assert(views.take(place as int).drop_last() =~= views.take(place - 1));
        }
        place = place - 1;
    }
    if place > 0 {
        assert(views.take(place as int).last() == images@[place - 1]@);
    }
    place
}

proof fn lemma_first_removed(rest: Seq<CapturedImage>, views: Seq<CapturedView>, count: int)
    requires
        0 <= count < views.len(),
        image_views(rest) == views.skip(count),
    ensures
        image_views(rest.remove(0)) == views.skip(count + 1),
{
    let after = rest.remove(0);
    assert(rest.len() == image_views(rest).len());
    assert forall|index: int| 0 <= index < after.len() implies image_views(after)[index]
        == #[trigger] views.skip(count + 1)[index] by {
        assert(after[index] == rest[index + 1]);
        assert(image_views(rest)[index + 1] == views.skip(count)[index + 1]);
    }
    assert(image_views(after) =~= views.skip(count + 1));
}

fn fill_name(image: CapturedImage) -> (result: CapturedImage)
    ensures
        result@ == named(image@),
{
    let name: Option<String> = match image.name {
        Some(name) => Some(name),
        None => embedded_module_name(image.bytes.as_slice()),
    };
    CapturedImage {
        base: image.base,
        bytes: image.bytes,
        regions: image.regions,
        unreadable_pages: image.unreadable_pages,
        name,
        path: image.path,
        is_main: image.is_main,
        hidden: image.hidden,
    }
}

fn sort_images(images: Vec<CapturedImage>) -> (sorted: Vec<CapturedImage>)
    ensures
        image_views(sorted@) == in_order(image_views(images@), images@.len()),
{
    let ghost views = image_views(images@);
    let mut rest: Vec<CapturedImage> = images;
    let mut sorted: Vec<CapturedImage> = Vec::with_capacity(rest.len());
    let ghost mut count: nat = 0;
    assert(image_views(sorted@) =~= Seq::empty());
    assert(views.skip(0) =~= views);
    while rest.len() > 0
        invariant
            count <= views.len(),
            image_views(rest@) == views.skip(count as int),
            image_views(sorted@) == in_order(views, count),
        decreases rest@.len(),
    {
        let ghost rest_before = rest@;
        let ghost sorted_before = sorted@;
        assert(rest@.len() == image_views(rest@).len());
        let image: CapturedImage = rest.remove(0);
        assert(image@ == image_views(rest_before)[0]);
        let place: usize = place_in(&sorted, &image);
        sorted.insert(place, image);
        proof {
            assert(image_views(sorted@) =~= image_views(sorted_before).insert(
                place as int,
                views[count as int],
            ));
            lemma_first_removed(rest_before, views, count as int);
            count = count + 1;
        }
    }
    assert(image_views(rest@).len() == 0);
    sorted
}

/// Puts the images in order and gives names to those that have none.
pub fn prepare_images(images: Vec<CapturedImage>) -> (result: Vec<CapturedImage>)
    ensures
        image_views(result@) == prepared(image_views(images@)),
{
    let ghost sorted_views = in_order(image_views(images@), images@.len());
    let mut rest: Vec<CapturedImage> = sort_images(images);
    let mut result: Vec<CapturedImage> = Vec::with_capacity(rest.len());
    let ghost mut count: int = 0;
    assert(sorted_views.skip(0) =~= sorted_views);
    while rest.len() > 0
        invariant
            0 <= count <= sorted_views.len(),
            image_views(rest@) == sorted_views.skip(count),
            image_views(result@) =~= sorted_views.take(count).map_values(
                |image: CapturedView| named(image),
            ),
        decreases rest@.len(),
    {
        let ghost rest_before = rest@;
        let ghost result_before = result@;
        assert(rest@.len() == image_views(rest@).len());
        let image: CapturedImage = rest.remove(0);
        assert(image@ == image_views(rest_before)[0]);
        result.push(fill_name(image));
        proof {
            assert(image_views(result@) =~= image_views(result_before).push(
                named(sorted_views[count]),
            ));
            lemma_first_removed(rest_before, sorted_views, count);
            count = count + 1;
        }
    }
    assert(image_views(rest@).len() == 0);
    assert(sorted_views.take(count) =~= sorted_views);
    result
}

/// A file to write, seen mathematically.
pub struct FileView {
    pub preferred_name: Seq<char>,
    pub bytes: Seq<u8>,
    pub context: ArtifactInfo,
}

/// Files to write, seen mathematically.
pub open spec fn file_views(files: Seq<OutputFile<ArtifactInfo>>) -> Seq<FileView> {
    files.map_values(
        |file: OutputFile<ArtifactInfo>|
            FileView {
                preferred_name: file.preferred_name@,
                bytes: file.bytes@,
                context: file.context,
            },
    )
}

/// Failures, seen mathematically.
pub open spec fn failure_views(failures: Seq<BuildFailure>) -> Seq<FailureView> {
    failures.map_values(|failure: BuildFailure| failure@)
}

/// The rebuilt images, before they are written.
#[derive(Debug)]
pub struct BuildReport {
    pub files: Vec<OutputFile<ArtifactInfo>>,
    pub failures: Vec<BuildFailure>,
    pub main_rebuilt: bool,
    pub dll_failures: usize,
    pub export_stats: ExportStats,
    pub executable_non_image_allocations: usize,
    pub hidden_non_image_images: usize,
}

/// The rebuilt images, seen mathematically.
pub struct ReportView {
    pub files: Seq<FileView>,
    pub failures: Seq<FailureView>,
    pub main_rebuilt: bool,
    pub dll_failures: usize,
    pub export_stats: ExportStats,
    pub executable_non_image_allocations: usize,
    pub hidden_non_image_images: usize,
}

impl View for BuildReport {
    type V = ReportView;

    open spec fn view(&self) -> ReportView {
        ReportView {
            files: file_views(self.files@),
            failures: failure_views(self.failures@),
            main_rebuilt: self.main_rebuilt,
            dll_failures: self.dll_failures,
            export_stats: self.export_stats,
            executable_non_image_allocations: self.executable_non_image_allocations,
            hidden_non_image_images: self.hidden_non_image_images,
        }
    }
}

/// An image was captured at `base`.
pub open spec fn captured_at(images: Seq<CapturedView>, base: u64) -> bool {
    exists|index: int| 0 <= index < images.len() && (#[trigger] images[index]).base == base
}

/// The module is none of those that were captured, and not the main one.
pub open spec fn is_missing(module: ModuleView, main_base: u64, images: Seq<CapturedView>) -> bool {
    module.base != main_base && !captured_at(images, module.base)
}

/// The modules that were not captured.
pub open spec fn missing_modules(
    modules: Seq<ModuleView>,
    main_base: u64,
    images: Seq<CapturedView>,
) -> Seq<ModuleView> {
    modules.filter(|module: ModuleView| is_missing(module, main_base, images))
}

/// The report before any image is rebuilt: modules that were not captured have failed.
pub open spec fn nothing_built(
    target: TargetProcess,
    images: Seq<CapturedView>,
    export_stats: ExportStats,
    executable_non_image_allocations: usize,
    hidden_non_image_images: usize,
) -> ReportView {
    ReportView {
        files: Seq::empty(),
        failures: Seq::empty(),
        main_rebuilt: false,
        dll_failures: missing_modules(
            process::module_views(target.modules@),
            target.main_module.base,
            images,
        ).len() as usize,
        export_stats,
        executable_non_image_allocations,
        hidden_non_image_images,
    }
}

fn is_captured(images: &Vec<CapturedImage>, base: u64) -> (yes: bool)
    ensures
        yes == captured_at(image_views(images@), base),
{
    let ghost views = image_views(images@);
    let mut index: usize = 0;
    while index < images.len()
        invariant
            index <= images@.len(),
            views == image_views(images@),
            forall|earlier: int| 0 <= earlier < index ==> (#[trigger] views[earlier]).base != base,
        decreases images@.len() - index,
    {
        assert(views[index as int] == images@[index as int]@);
        if images[index].base == base {
            return true;
        }
        index = index + 1;
    }
    false
}

/// The report before any image is rebuilt.
pub fn empty_report(
    target: &TargetProcess,
    images: &Vec<CapturedImage>,
    export_stats: ExportStats,
    executable_non_image_allocations: usize,
    hidden_non_image_images: usize,
) -> (report: BuildReport)
    ensures
        report@ == nothing_built(
            *target,
            image_views(images@),
            export_stats,
            executable_non_image_allocations,
            hidden_non_image_images,
        ),
{
    let ghost modules = process::module_views(target.modules@);
    let ghost views = image_views(images@);
    let ghost missing = |module: ModuleView| is_missing(module, target.main_module.base, views);
    let mut dll_failures: usize = 0;
    let mut index: usize = 0;
    assert(modules.take(0) =~= Seq::empty());
    assert(modules.take(0).filter(missing).len() == 0) by {
        reveal(Seq::filter);
    }
    while index < target.modules.len()
        invariant
            index <= target.modules@.len(),
            modules == process::module_views(target.modules@),
            views == image_views(images@),
            missing == (|module: ModuleView|
                is_missing(module, target.main_module.base, views)),
            dll_failures == modules.take(index as int).filter(missing).len(),
            dll_failures <= index,
        decreases target.modules@.len() - index,
    {
        let base: u64 = target.modules[index].base;
        proof {
            assert(modules[index as int] == target.modules@[index as int]@);
            assert(modules.take(index + 1).drop_last() =~= modules.take(index as int));
            reveal(Seq::filter);
        }
        if base != target.main_module.base && !is_captured(images, base) {
            dll_failures = dll_failures + 1;
        }
        index = index + 1;
    }
    assert(modules.take(modules.len() as int) =~= modules);
    let files: Vec<OutputFile<ArtifactInfo>> = Vec::with_capacity(images.len());
    let failures: Vec<BuildFailure> = Vec::new();
    assert(file_views(files@) =~= Seq::empty());
    assert(failure_views(failures@) =~= Seq::empty());
    BuildReport {
        files,
        failures,
        main_rebuilt: false,
        dll_failures,
        export_stats,
        executable_non_image_allocations,
        hidden_non_image_images,
    }
}

/// The image is written: the main image, a hidden one, a DLL, and one with a name.
pub open spec fn is_written(image: CapturedView, is_dll: bool, known_module: bool) -> bool {
    image.is_main || image.hidden || is_dll || known_module
}

/// Tests whether a rebuilt image is written.
pub fn should_write(image: &CapturedImage, rebuilt: &RebuiltImage, known_module: bool) -> (yes: bool)
    ensures
        yes == is_written(image@, rebuilt.is_dll, known_module),
{
    image.is_main || image.hidden || rebuilt.is_dll || known_module
}

/// What is known of an image after it was rebuilt.
pub open spec fn info_of(image: CapturedView, rebuilt: RebuiltImage) -> ArtifactInfo {
    ArtifactInfo {
        base: image.base,
        kind: rebuilt.kind,
        sections: rebuilt.section_count,
        unreadable_pages: image.unreadable_pages as usize,
        salvaged_headers: rebuilt.salvaged_headers,
        disk_headers_used: rebuilt.disk_headers_used,
        cleared_directories: rebuilt.cleared_directories,
        invalid_unwind_entries: rebuilt.invalid_unwind_entries,
        imports_rebuilt: rebuilt.imports_rebuilt,
        ambiguous_imports: rebuilt.ambiguous_imports,
        hidden: image.hidden,
        is_main: image.is_main,
    }
}

/// What is known of an image after it was rebuilt.
pub fn artifact_info(image: &CapturedImage, rebuilt: &RebuiltImage) -> (info: ArtifactInfo)
    ensures
        info == info_of(image@, *rebuilt),
{
    ArtifactInfo {
        base: image.base,
        kind: rebuilt.kind,
        sections: rebuilt.section_count,
        unreadable_pages: image.unreadable_pages,
        salvaged_headers: rebuilt.salvaged_headers,
        disk_headers_used: rebuilt.disk_headers_used,
        cleared_directories: rebuilt.cleared_directories,
        invalid_unwind_entries: rebuilt.invalid_unwind_entries,
        imports_rebuilt: rebuilt.imports_rebuilt,
        ambiguous_imports: rebuilt.ambiguous_imports,
        hidden: image.hidden,
        is_main: image.is_main,
    }
}

/// The file name that a name gets with another extension.
pub open spec fn renamed(name: Seq<char>, extension: Seq<char>) -> Seq<char> {
    match path::file_name_of(path::with_extension_of(name, extension)) {
        Some(result) => result,
        None => "dump."@ + extension,
    }
}

/// The file name that a name gets with another extension.
pub fn with_extension(name: &str, extension: &str) -> (result: String)
    ensures
        result@ == renamed(name@, extension@),
{
    let replaced: String = replace_extension(name, extension);
    match file_name(replaced.as_str()) {
        Some(result) => result,
        None => joined("dump.", extension),
    }
}

/// The name of an image that has none.
pub open spec fn address_name(base: u64) -> Seq<char> {
    "module-"@ + text::wide_hex(base as nat, 16) + ".dll"@
}

/// The name holds more than spaces and dots.
pub open spec fn tells_something(name: Seq<char>) -> bool {
    exists|index: int|
        0 <= index < name.len() && #[trigger] name[index] != ' ' && name[index] != '.'
}

/// The file name of a module: its own name, unless that is no file name or holds nothing but
/// spaces and dots.
pub open spec fn module_file_name(name: Seq<char>) -> Seq<char> {
    match path::file_name_of(name) {
        Some(result) => if tells_something(result) {
            result
        } else {
            renamed(name, "dll"@)
        },
        None => renamed(name, "dll"@),
    }
}

/// The name that the file of an image should have. The main image keeps the name of the target. A
/// DLL keeps the name of its module, or the one in its export directory, and another image gets
/// the extension of a program. An image without a name is named by its address.
pub open spec fn preferred_name(target: Seq<char>, image: CapturedView, is_dll: bool) -> Seq<char> {
    if image.is_main {
        target
    } else {
        let name = match image.name {
            Some(name) => name,
            None => address_name(image.base),
        };
        if is_dll {
            module_file_name(name)
        } else {
            renamed(name, "exe"@)
        }
    }
}

/// A DLL whose name is a plain file name keeps it, letter by letter and with its extension.
pub proof fn modules_keep_their_names(target: Seq<char>, image: CapturedView)
    requires
        !image.is_main,
        image.name matches Some(name) && path::file_name_of(name) == Some(name) && tells_something(
            name,
        ),
    ensures
        preferred_name(target, image, true) == image.name->0,
{
}

/// The file of a DLL without a name is named by its address.
pub proof fn unnamed_modules_get_their_address(target: Seq<char>, image: CapturedView)
    requires
        !image.is_main,
        image.name is None,
    ensures
        preferred_name(target, image, true) == address_name(image.base),
{
    let name = address_name(image.base);
    reveal_strlit("module-");
    reveal_strlit(".dll");
    text::wide_hex_holds_digits(image.base as nat, 16);
    let digits = text::wide_hex(image.base as nat, 16);
    assert forall|index: int| #![trigger name[index]] 0 <= index < name.len() implies name[index]
        != '\\' && name[index] != '/' && name[index] != ':' by {
        if 7 <= index < 7 + digits.len() {
            assert(name[index] == digits[index - 7]);
        }
    }
    path::plain_name_is_file_name(name);
    assert(name[0] == 'm');
}

/// Tests for a name that holds more than spaces and dots.
fn is_telling(name: &str) -> (yes: bool)
    ensures
        yes == tells_something(name@),
{
    let letters: Vec<char> = chars_of(name);
    let mut index: usize = 0;
    while index < letters.len()
        invariant
            index <= letters@.len(),
            letters@ == name@,
            forall|i: int| 0 <= i < index ==> #[trigger] name@[i] == ' ' || name@[i] == '.',
        decreases letters@.len() - index,
    {
        if letters[index] != ' ' && letters[index] != '.' {
            assert(name@[index as int] == letters@[index as int]);
            return true;
        }
        index = index + 1;
    }
    false
}

/// The file name of a module.
fn name_of_module(name: &str) -> (result: String)
    ensures
        result@ == module_file_name(name@),
{
    match file_name(name) {
        Some(result) => if is_telling(result.as_str()) {
            result
        } else {
            with_extension(name, "dll")
        },
        None => with_extension(name, "dll"),
    }
}

/// The name that the file of an image should have.
pub fn output_name(target: &TargetProcess, image: &CapturedImage, rebuilt: &RebuiltImage) -> (name:
    String)
    ensures
        image.is_main ==> name@ == target.name@,
        name@ == preferred_name(target.name@, image@, rebuilt.is_dll),
{
    if image.is_main {
        return target.name.clone();
    }
    let name: String = match &image.name {
        Some(name) => name.clone(),
        None => {
            let mut name: String = with_wide_hex("module-", image.base, 16);
            name.append(".dll");
            name
        },
    };
    if rebuilt.is_dll {
        name_of_module(name.as_str())
    } else {
        with_extension(name.as_str(), "exe")
    }
}

/// The name under which the failure of an image is reported; `None`, if it is not.
pub open spec fn failure_name(
    target: Seq<char>,
    image: CapturedView,
    known_module: bool,
) -> Option<Seq<char>> {
    if image.is_main {
        Some(target)
    } else if image.hidden {
        Some("hidden PE"@)
    } else if known_module {
        match image.name {
            Some(name) => Some(name),
            None => Some("unknown.dll"@),
        }
    } else {
        None
    }
}

/// The report after an image could not be rebuilt.
pub open spec fn with_failure(
    before: ReportView,
    target: Seq<char>,
    image: CapturedView,
    known_module: bool,
    message: Seq<char>,
) -> ReportView {
    match failure_name(target, image, known_module) {
        None => before,
        Some(name) => ReportView {
            dll_failures: if known_module && !image.is_main && !image.hidden {
                capped(before.dll_failures + 1)
            } else {
                before.dll_failures
            },
            failures: before.failures.push(FailureView { name, base: image.base, error: message }),
            ..before
        },
    }
}

/// Reports an image that could not be rebuilt, unless it is not known to be a module.
pub fn record_failure(
    target: &TargetProcess,
    image: &CapturedImage,
    known_module: bool,
    error: AppError,
    report: &mut BuildReport,
)
    ensures
        final(report)@ == with_failure(old(report)@, target.name@, image@, known_module, error@),
{
    let name: String = if image.is_main {
        target.name.clone()
    } else if image.hidden {
        "hidden PE".to_owned()
    } else if known_module {
        match &image.name {
            Some(name) => name.clone(),
            None => "unknown.dll".to_owned(),
        }
    } else {
        return ;
    };
    if known_module && !image.is_main && !image.hidden {
        report.dll_failures = report.dll_failures.saturating_add(1);
    }
    let failure: BuildFailure = BuildFailure { name, base: image.base, error };
    report.failures.push(failure);
    assert(failure_views(report.failures@) =~= failure_views(old(report).failures@).push(failure@));
}

/// The report after an image was rebuilt, or could not be.
pub open spec fn with_image(
    before: ReportView,
    target: Seq<char>,
    image: CapturedView,
    result: AppResult<RebuiltImage>,
) -> ReportView {
    match result {
        Err(error) => with_failure(before, target, image, image.name is Some, error@),
        Ok(rebuilt) => if is_written(image, rebuilt.is_dll, image.name is Some) {
            ReportView {
                main_rebuilt: before.main_rebuilt || image.is_main,
                files: before.files.push(
                    FileView {
                        preferred_name: preferred_name(target, image, rebuilt.is_dll),
                        bytes: rebuilt.bytes@,
                        context: info_of(image, rebuilt),
                    },
                ),
                ..before
            }
        } else {
            before
        },
    }
}

/// Adds an image to the report, given what it was rebuilt as.
pub fn build_image(
    target: &TargetProcess,
    image: &CapturedImage,
    result: AppResult<RebuiltImage>,
    report: &mut BuildReport,
)
    ensures
        final(report)@ == with_image(old(report)@, target.name@, image@, result),
{
    let known_module: bool = image.name.is_some();
    match result {
        Ok(rebuilt) => if should_write(image, &rebuilt, known_module) {
            let preferred_name: String = output_name(target, image, &rebuilt);
            let context: ArtifactInfo = artifact_info(image, &rebuilt);
            let file: OutputFile<ArtifactInfo> = OutputFile {
                preferred_name,
                bytes: rebuilt.bytes,
                context,
            };
            report.main_rebuilt = report.main_rebuilt || image.is_main;
            report.files.push(file);
            assert(file_views(report.files@) =~= with_image(
                old(report)@,
                target.name@,
                image@,
                result,
            ).files);
        },
        Err(error) => record_failure(target, image, known_module, error, report),
    }
}

/// The entry point that an image gets: only the main image gets the chosen one.
pub open spec fn entry_point_of(image: CapturedView, entry_point: Option<EntryPointRva>) -> Option<
    u32,
> {
    if image.is_main {
        headers::chosen_entry_point(entry_point)
    } else {
        None
    }
}

/// `result` is what a captured image is rebuilt as, with the headers of its file if those are at
/// hand.
pub open spec fn image_rebuilds(
    result: AppResult<RebuiltImage>,
    image: CapturedView,
    addresses: AddressMap,
    entry_point: Option<EntryPointRva>,
    disk: Option<Seq<u8>>,
) -> bool {
    match rebuild::repaired_source(image.bytes, disk) {
        Err(message) => error::fails(result, message),
        Ok(source) => rebuild::rebuilds_source(
            result,
            source,
            image.regions,
            image.base,
            addresses,
            entry_point_of(image, entry_point),
        ),
    }
}

/// Rebuilds an image from what was captured alone.
pub fn rebuild_image(
    image: &CapturedImage,
    exports: &ExportIndex,
    entry_point: Option<EntryPointRva>,
) -> (result: AppResult<RebuiltImage>)
    ensures
        image_rebuilds(result, image@, exports@.addresses, entry_point, None),
{
    let chosen: Option<EntryPointRva> = if image.is_main {
        entry_point
    } else {
        None
    };
    rebuild(
        image.bytes.as_slice(),
        image.regions.as_slice(),
        image.base,
        None,
        exports,
        chosen,
    )
}

/// What is said when neither what was captured nor the file gives headers.
pub open spec fn unreadable_disk(
    memory_error: Seq<char>,
    path: Seq<char>,
    disk_error: Seq<char>,
) -> Seq<char> {
    memory_error + "; could not read disk headers from "@ + path + ": "@ + disk_error
}

/// `result` is what an image is rebuilt as after what was captured did not do: with the start of
/// its file, if that can be read.
pub open spec fn image_rebuilds_from_disk(
    result: AppResult<RebuiltImage>,
    image: CapturedView,
    addresses: AddressMap,
    entry_point: Option<EntryPointRva>,
    memory_error: Seq<char>,
    disk: AppResult<Vec<u8>>,
) -> bool {
    match image.path {
        None => error::fails(result, memory_error),
        Some(path) => match disk {
            Err(disk_error) => error::fails(
                result,
                unreadable_disk(memory_error, path, disk_error@),
            ),
            Ok(bytes) => image_rebuilds(result, image, addresses, entry_point, Some(bytes@)),
        },
    }
}

/// Rebuilds an image that what was captured alone did not suffice for. `disk` is the start of
/// its file, or why that cannot be read.
pub fn rebuild_with_disk_headers(
    image: &CapturedImage,
    exports: &ExportIndex,
    entry_point: Option<EntryPointRva>,
    memory_error: AppError,
    disk: AppResult<Vec<u8>>,
) -> (result: AppResult<RebuiltImage>)
    ensures
        image_rebuilds_from_disk(
            result,
            image@,
            exports@.addresses,
            entry_point,
            memory_error@,
            disk,
        ),
{
    match &image.path {
        None => Err(memory_error),
        Some(path) => match disk {
            Err(disk_error) => {
                let mut message: String = memory_error.message().to_owned();
                message.append("; could not read disk headers from ");
                message.append(path.as_str());
                message.append(": ");
                message.append(disk_error.message());
                Err(AppError::new(message))
            },
            Ok(bytes) => {
                let chosen: Option<EntryPointRva> = if image.is_main {
                    entry_point
                } else {
                    None
                };
                rebuild(
                    image.bytes.as_slice(),
                    image.regions.as_slice(),
                    image.base,
                    Some(bytes.as_slice()),
                    exports,
                    chosen,
                )
            },
        },
    }
}

/// The hidden images.
pub open spec fn hidden_images(images: Seq<CapturedView>) -> Seq<CapturedView> {
    images.filter(|image: CapturedView| image.hidden)
}

fn count_hidden(images: &Vec<CapturedImage>) -> (count: usize)
    ensures
        count == hidden_images(image_views(images@)).len(),
{
    let ghost views = image_views(images@);
    let mut count: usize = 0;
    let mut index: usize = 0;
    assert(hidden_images(views.take(0)).len() == 0) by {
        reveal(Seq::filter);
    }
    while index < images.len()
        invariant
            index <= images@.len(),
            count <= index,
            views == image_views(images@),
            count == hidden_images(views.take(index as int)).len(),
        decreases images@.len() - index,
    {
        proof {
            assert(views[index as int] == images@[index as int]@);
            assert(views.take(index + 1).drop_last() =~= views.take(index as int));
            reveal(Seq::filter);
        }
        if images[index].hidden {
            count = count + 1;
        }
        index = index + 1;
    }
    assert(views.take(views.len() as int) =~= views);
    count
}

/// What the export index is built from.
pub open spec fn sources(images: Seq<CapturedView>) -> Seq<SourceView> {
    images.map_values(
        |image: CapturedView|
            SourceView { base: image.base, bytes: image.bytes, name: image.name },
    )
}

/// The index of what all captured images export.
fn index_exports(images: &Vec<CapturedImage>) -> (index: ExportIndex)
    ensures
        index@ == exports::index_of(sources(image_views(images@))),
{
    let mut list: Vec<(u64, &[u8], Option<&str>)> = Vec::with_capacity(images.len());
    let mut index: usize = 0;
    while index < images.len()
        invariant
            index <= images@.len(),
            list@.len() == index,
            forall|i: int|
                0 <= i < index ==> exports::source_view(#[trigger] list@[i]) == sources(
                    image_views(images@),
                )[i],
        decreases images@.len() - index,
    {
        let image: &CapturedImage = &images[index];
        let name: Option<&str> = match &image.name {
            Some(name) => Some(name.as_str()),
            None => None,
        };
        list.push((image.base, image.bytes.as_slice(), name));
        index = index + 1;
    }
    assert(list@.map_values(|image: (u64, &[u8], Option<&str>)| exports::source_view(image))
        =~= sources(image_views(images@)));
    ExportIndex::build(list.as_slice())
}

/// The rebuilding of all captured images, one after another.
pub struct Rebuilding {
    images: Vec<CapturedImage>,
    exports: ExportIndex,
    entry_point: Option<EntryPointRva>,
    executable_non_image_allocations: usize,
    hidden_non_image_images: usize,
    results: Vec<AppResult<RebuiltImage>>,
    /// Why the next image could not be rebuilt from what was captured alone.
    pending: Option<AppError>,
}

/// The rebuilding of all captured images, seen mathematically.
pub ghost struct RebuildingView {
    pub images: Seq<CapturedView>,
    pub exports: IndexView,
    pub entry_point: Option<EntryPointRva>,
    pub executable_non_image_allocations: usize,
    pub hidden_non_image_images: usize,
    pub results: Seq<AppResult<RebuiltImage>>,
    pub pending: Option<Seq<char>>,
}

impl View for Rebuilding {
    type V = RebuildingView;

    closed spec fn view(&self) -> RebuildingView {
        RebuildingView {
            images: image_views(self.images@),
            exports: self.exports@,
            entry_point: self.entry_point,
            executable_non_image_allocations: self.executable_non_image_allocations,
            hidden_non_image_images: self.hidden_non_image_images,
            results: self.results@,
            pending: match self.pending {
                Some(error) => Some(error@),
                None => None,
            },
        }
    }
}

/// The rebuilding before the first image.
pub open spec fn rebuilding_of(capture: Capture, entry_point: Option<EntryPointRva>) -> RebuildingView {
    let images = prepared(image_views(capture.images@));
    RebuildingView {
        images,
        exports: exports::index_of(sources(images)),
        entry_point,
        executable_non_image_allocations: capture.executable_non_image_allocations,
        hidden_non_image_images: hidden_images(image_views(capture.images@)).len() as usize,
        results: Seq::empty(),
        pending: None,
    }
}

/// The image whose turn it is.
pub open spec fn next_image(state: RebuildingView) -> CapturedView {
    state.images[state.results.len() as int]
}

/// The rebuilding after the next image was tried with what was captured alone. A failure waits
/// for the file of the image, if that is known.
pub open spec fn memory_tried(before: RebuildingView, result: AppResult<RebuiltImage>) -> RebuildingView {
    match result {
        Err(error) => if next_image(before).path is Some {
            RebuildingView { pending: Some(error@), ..before }
        } else {
            RebuildingView { results: before.results.push(result), ..before }
        },
        Ok(_) => RebuildingView { results: before.results.push(result), ..before },
    }
}

/// The rebuilding after the next image was tried with the start of its file.
pub open spec fn disk_tried(before: RebuildingView, result: AppResult<RebuiltImage>) -> RebuildingView {
    RebuildingView { results: before.results.push(result), pending: None, ..before }
}

/// The report on the first `count` images.
pub open spec fn report_on(target: TargetProcess, state: RebuildingView, count: nat) -> ReportView
    decreases count,
{
    if count == 0 {
        nothing_built(
            target,
            state.images,
            state.exports.stats,
            state.executable_non_image_allocations,
            state.hidden_non_image_images,
        )
    } else {
        with_image(
            report_on(target, state, (count - 1) as nat),
            target.name@,
            state.images[count - 1],
            state.results[count - 1],
        )
    }
}

/// The image is a DLL that is known by name.
pub open spec fn known_dll(image: CapturedView) -> bool {
    !image.is_main && !image.hidden && image.name is Some
}

/// One of the first `count` images is the main one, and was rebuilt.
pub open spec fn main_was_rebuilt(state: RebuildingView, count: nat) -> bool {
    exists|index: int|
        #![trigger state.images[index]]
        0 <= index < count && state.images[index].is_main && state.results[index] is Ok
}

/// Those of the first `count` images that are known DLLs were rebuilt.
pub open spec fn dlls_were_rebuilt(state: RebuildingView, count: nat) -> bool {
    forall|index: int|
        #![trigger state.images[index]]
        0 <= index < count && known_dll(state.images[index]) ==> state.results[index] is Ok
}

proof fn lemma_filter_is_short<A>(list: Seq<A>, test: spec_fn(A) -> bool)
    ensures
        list.filter(test).len() <= list.len(),
    decreases list.len(),
{
    reveal(Seq::filter);
    if list.len() > 0 {
        lemma_filter_is_short(list.drop_last(), test);
    }
}

/// A dump is complete if and only if the main image was rebuilt, every module was captured, and
/// every known DLL was rebuilt.
pub proof fn complete_means_all_were_rebuilt(
    target: TargetProcess,
    state: RebuildingView,
    count: nat,
)
    requires
        count <= state.images.len(),
        count <= state.results.len(),
    ensures
        report_on(target, state, count).main_rebuilt == main_was_rebuilt(state, count),
        report_on(target, state, count).dll_failures == 0 <==> missing_modules(
            process::module_views(target.modules@),
            target.main_module.base,
            state.images,
        ).len() == 0 && dlls_were_rebuilt(state, count),
    decreases count,
{
    if count == 0 {
        let modules = process::module_views(target.modules@);
        lemma_filter_is_short(
            modules,
            |module: ModuleView| is_missing(module, target.main_module.base, state.images),
        );
        assert(target.modules.len() == target.modules@.len());
    } else {
        let earlier = (count - 1) as nat;
        let image = state.images[count - 1];
        let result = state.results[count - 1];
        complete_means_all_were_rebuilt(target, state, earlier);
        if main_was_rebuilt(state, earlier) {
            let index = choose|index: int|
                #![trigger state.images[index]]
                0 <= index < earlier && state.images[index].is_main && state.results[index] is Ok;
            assert(state.images[index].is_main);
        }
        if main_was_rebuilt(state, count) && !(image.is_main && result is Ok) {
            let index = choose|index: int|
                #![trigger state.images[index]]
                0 <= index < count && state.images[index].is_main && state.results[index] is Ok;
            assert(index < earlier);
            assert(main_was_rebuilt(state, earlier));
        }
        if dlls_were_rebuilt(state, count) {
            assert(dlls_were_rebuilt(state, earlier));
        } else if dlls_were_rebuilt(state, earlier) {
            assert(known_dll(image) && result is Err);
        }
    }
}

/// The image has its place in the report: among the files if it was rebuilt, among the failures if
/// not.
pub open spec fn accounted_for(
    report: ReportView,
    image: CapturedView,
    result: AppResult<RebuiltImage>,
) -> bool {
    match result {
        Ok(rebuilt) => exists|index: int|
            0 <= index < report.files.len() && (#[trigger] report.files[index]).context == info_of(
                image,
                rebuilt,
            ) && report.files[index].bytes == rebuilt.bytes@,
        Err(error) => exists|index: int|
            0 <= index < report.failures.len() && (#[trigger] report.failures[index]).base
                == image.base && report.failures[index].error == error@,
    }
}

/// An image that is the main one, hidden or known by name is never dropped in silence: it is
/// among the files, or among the failures with its error.
pub proof fn known_images_are_accounted_for(
    target: TargetProcess,
    state: RebuildingView,
    count: nat,
    place: int,
)
    requires
        0 <= place < count <= state.images.len(),
        count <= state.results.len(),
        state.images[place].is_main || state.images[place].hidden || state.images[place].name is Some,
    ensures
        accounted_for(report_on(target, state, count), state.images[place], state.results[place]),
    decreases count,
{
    let earlier = report_on(target, state, (count - 1) as nat);
    let report = report_on(target, state, count);
    let image = state.images[place];
    if place < count - 1 {
        known_images_are_accounted_for(target, state, (count - 1) as nat, place);
        match state.results[place] {
            Ok(rebuilt) => {
                let index = choose|index: int|
                    0 <= index < earlier.files.len() && (#[trigger] earlier.files[index]).context
                        == info_of(image, rebuilt) && earlier.files[index].bytes == rebuilt.bytes@;
                assert(report.files[index] == earlier.files[index]);
            },
            Err(error) => {
                let index = choose|index: int|
                    0 <= index < earlier.failures.len() && (#[trigger] earlier.failures[index]).base
                        == image.base && earlier.failures[index].error == error@;
                assert(report.failures[index] == earlier.failures[index]);
            },
        }
    } else {
        match state.results[place] {
            Ok(_) => {
                assert(report.files[earlier.files.len() as int] == report.files.last());
            },
            Err(_) => {
                assert(report.failures[earlier.failures.len() as int] == report.failures.last());
            },
        }
    }
}

impl Rebuilding {
    #[verifier::type_invariant]
    spec fn is_sound(self) -> bool {
        &&& self.results@.len() <= self.images@.len()
        &&& self.pending is Some ==> self.results@.len() < self.images@.len()
            && self.images@[self.results@.len() as int].path is Some
    }

    /// Prepares the captured images.
    pub fn start(capture: Capture, entry_point: Option<EntryPointRva>) -> (rebuilding: Self)
        ensures
            rebuilding@ == rebuilding_of(capture, entry_point),
    {
        let executable_non_image_allocations: usize = capture.executable_non_image_allocations;
        let hidden_non_image_images: usize = count_hidden(&capture.images);
        let images: Vec<CapturedImage> = prepare_images(capture.images);
        let exports: ExportIndex = index_exports(&images);
        Rebuilding {
            images,
            exports,
            entry_point,
            executable_non_image_allocations,
            hidden_non_image_images,
            results: Vec::new(),
            pending: None,
        }
    }

    /// Tests whether all images have had their turn.
    pub fn is_done(&self) -> (done: bool)
        ensures
            done == (self@.results.len() >= self@.images.len()),
    {
        assert(self@.images.len() == self.images@.len());
        self.results.len() >= self.images.len()
    }

    /// The file whose start is needed to go on.
    pub fn wanted_file(&self) -> (path: Option<String>)
        ensures
            text::seen(path) == (if self@.pending is Some {
                next_image(self@).path
            } else {
                None
            }),
    {
        proof {
            use_type_invariant(self);
        }
        match &self.pending {
            None => None,
            Some(_) => {
                assert(next_image(self@) == self.images@[self.results@.len() as int]@);
                match &self.images[self.results.len()].path {
                    Some(path) => Some(path.clone()),
                    None => None,
                }
            },
        }
    }

    /// Tries the next image with what was captured alone.
    pub fn try_memory(self) -> (after: Self)
        requires
            self@.results.len() < self@.images.len(),
            self@.pending is None,
        ensures
            exists|result: AppResult<RebuiltImage>| #[trigger]
                image_rebuilds(
                    result,
                    next_image(self@),
                    self@.exports.addresses,
                    self@.entry_point,
                    None,
                ) && after@ == memory_tried(self@, result),
    {
        proof {
            use_type_invariant(&self);
        }
        let Rebuilding {
            images,
            exports,
            entry_point,
            executable_non_image_allocations,
            hidden_non_image_images,
            mut results,
            pending: _,
        } = self;
        let result: AppResult<RebuiltImage> = rebuild_image(
            &images[results.len()],
            &exports,
            entry_point,
        );
        assert(next_image(self@) == images@[results@.len() as int]@);
        assert(image_rebuilds(
            result,
            next_image(self@),
            self@.exports.addresses,
            self@.entry_point,
            None,
        ));
        let has_file: bool = images[results.len()].path.is_some();
        let mut pending: Option<AppError> = None;
        match result {
            Err(error) => if has_file {
                pending = Some(error);
            } else {
                results.push(Err(error));
            },
            Ok(rebuilt) => results.push(Ok(rebuilt)),
        }
        Rebuilding {
            images,
            exports,
            entry_point,
            executable_non_image_allocations,
            hidden_non_image_images,
            results,
            pending,
        }
    }

    /// Tries the next image with the start of its file, or with why that cannot be read.
    pub fn try_disk(self, disk: AppResult<Vec<u8>>) -> (after: Self)
        requires
            self@.pending is Some,
        ensures
            exists|result: AppResult<RebuiltImage>| #[trigger]
                image_rebuilds_from_disk(
                    result,
                    next_image(self@),
                    self@.exports.addresses,
                    self@.entry_point,
                    self@.pending->0,
                    disk,
                ) && after@ == disk_tried(self@, result),
    {
        proof {
            use_type_invariant(&self);
        }
        let Rebuilding {
            images,
            exports,
            entry_point,
            executable_non_image_allocations,
            hidden_non_image_images,
            mut results,
            pending,
        } = self;
        assert(next_image(self@) == images@[results@.len() as int]@);
        if let Some(memory_error) = pending {
            let result: AppResult<RebuiltImage> = rebuild_with_disk_headers(
                &images[results.len()],
                &exports,
                entry_point,
                memory_error,
                disk,
            );
            assert(image_rebuilds_from_disk(
                result,
                next_image(self@),
                self@.exports.addresses,
                self@.entry_point,
                self@.pending->0,
                disk,
            ));
            results.push(result);
        }
        Rebuilding {
            images,
            exports,
            entry_point,
            executable_non_image_allocations,
            hidden_non_image_images,
            results,
            pending: None,
        }
    }
}

/// The report on all captured images.
pub fn build(target: &TargetProcess, rebuilding: Rebuilding) -> (report: BuildReport)
    requires
        rebuilding@.results.len() >= rebuilding@.images.len(),
    ensures
        report@ == report_on(*target, rebuilding@, rebuilding@.images.len()),
{
    let ghost state = rebuilding@;
    let Rebuilding {
        images,
        exports,
        entry_point: _,
        executable_non_image_allocations,
        hidden_non_image_images,
        results,
        pending: _,
    } = rebuilding;
    let mut report: BuildReport = empty_report(
        target,
        &images,
        exports.stats(),
        executable_non_image_allocations,
        hidden_non_image_images,
    );
    let mut rest: Vec<AppResult<RebuiltImage>> = results;
    let mut index: usize = 0;
    assert(state.results.skip(0) =~= state.results);
    while index < images.len()
        invariant
            index <= images@.len(),
            image_views(images@) == state.images,
            state.results.len() >= images@.len(),
            rest@ == state.results.skip(index as int),
            report@ == report_on(*target, state, index as nat),
        decreases images@.len() - index,
    {
        let ghost before = rest@;
        let result: AppResult<RebuiltImage> = rest.remove(0);
        proof {
            assert(before.remove(0) =~= state.results.skip(index + 1));
            assert(result == state.results[index as int]);
            assert(state.images[index as int] == images@[index as int]@);
        }
        build_image(target, &images[index], result, &mut report);
        index = index + 1;
    }
    assert(images@.len() == image_views(images@).len());
    report
}

/// What was written of the target.
#[derive(Debug)]
pub struct DumpOutcome {
    pub artifacts: Vec<WrittenFile<ArtifactInfo>>,
    pub failures: Vec<BuildFailure>,
    pub summary: DumpSummary,
    pub export_stats: ExportStats,
    pub executable_non_image_allocations: usize,
    pub hidden_non_image_images: usize,
    pub main_rebuilt: bool,
    pub dll_failures: usize,
}

/// The paths of written files.
pub open spec fn paths_of(artifacts: Seq<WrittenFile<ArtifactInfo>>) -> Seq<Seq<char>> {
    artifacts.map_values(|artifact: WrittenFile<ArtifactInfo>| artifact.path@)
}

/// What is known of the images of files to write.
pub open spec fn planned_contexts(files: Seq<OutputFile<ArtifactInfo>>) -> Seq<ArtifactInfo> {
    files.map_values(|file: OutputFile<ArtifactInfo>| file.context)
}

impl BuildReport {
    /// The outcome after the files were written to these paths, in this order.
    pub fn write(self, paths: Vec<String>) -> (outcome: DumpOutcome)
        requires
            paths@.len() == self.files@.len(),
        ensures
            paths_of(outcome.artifacts@) == output::texts(paths@),
            contexts(outcome.artifacts@) == planned_contexts(self.files@),
            outcome.failures == self.failures,
            outcome.summary == summary_of(planned_contexts(self.files@)),
            outcome.export_stats == self.export_stats,
            outcome.executable_non_image_allocations == self.executable_non_image_allocations,
            outcome.hidden_non_image_images == self.hidden_non_image_images,
            outcome.main_rebuilt == self.main_rebuilt,
            outcome.dll_failures == self.dll_failures,
    {
        let mut artifacts: Vec<WrittenFile<ArtifactInfo>> = Vec::with_capacity(paths.len());
        let mut index: usize = 0;
        while index < paths.len()
            invariant
                index <= paths@.len(),
                paths@.len() == self.files@.len(),
                artifacts@.len() == index,
                forall|i: int|
                    #![trigger artifacts@[i]]
                    0 <= i < index ==> artifacts@[i].path@ == paths@[i]@ && artifacts@[i].context
                        == self.files@[i].context,
            decreases paths@.len() - index,
        {
            artifacts.push(
                WrittenFile {
                    path: paths[index].clone(),
                    context: self.files[index].context,
                },
            );
            index = index + 1;
        }
        assert(paths_of(artifacts@) =~= output::texts(paths@));
        assert(contexts(artifacts@) =~= planned_contexts(self.files@));
        let summary: DumpSummary = DumpSummary::from_artifacts(artifacts.as_slice());
        DumpOutcome {
            artifacts,
            failures: self.failures,
            summary,
            export_stats: self.export_stats,
            executable_non_image_allocations: self.executable_non_image_allocations,
            hidden_non_image_images: self.hidden_non_image_images,
            main_rebuilt: self.main_rebuilt,
            dll_failures: self.dll_failures,
        }
    }
}

impl DumpOutcome {
    /// The main image and all known DLLs were rebuilt.
    pub open spec fn complete(self) -> bool {
        self.main_rebuilt && self.dll_failures == 0
    }

    /// Something may affect the use of the files.
    pub open spec fn warns(self) -> bool {
        ||| self.summary.unreadable_pages > 0
        ||| self.summary.cleared_directories > 0
        ||| self.summary.repaired_headers > 0
        ||| self.summary.disk_header_repairs > 0
        ||| self.summary.ambiguous_imports > 0
        ||| self.summary.invalid_unwind_entries > 0
        ||| self.export_stats.unresolved_forwarders > 0
        ||| self.failures@.len() > 0
        ||| self.executable_non_image_allocations > self.hidden_non_image_images
    }

    pub fn is_complete(&self) -> (complete: bool)
        ensures
            complete == self.complete(),
    {
        self.main_rebuilt && self.dll_failures == 0
    }

    pub fn main_rebuilt(&self) -> (rebuilt: bool)
        ensures
            rebuilt == self.main_rebuilt,
    {
        self.main_rebuilt
    }

    pub fn dll_failures(&self) -> (count: usize)
        ensures
            count == self.dll_failures,
    {
        self.dll_failures
    }

    pub fn has_warnings(&self) -> (warnings: bool)
        ensures
            warnings == self.warns(),
    {
        self.summary.unreadable_pages > 0 || self.summary.cleared_directories > 0
            || self.summary.repaired_headers > 0 || self.summary.disk_header_repairs > 0
            || self.summary.ambiguous_imports > 0 || self.summary.invalid_unwind_entries > 0
            || self.export_stats.unresolved_forwarders > 0 || self.failures.len() > 0
            || self.executable_non_image_allocations > self.hidden_non_image_images
    }
}

} // verus!
