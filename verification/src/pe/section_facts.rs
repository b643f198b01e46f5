//! What the memory of a section says of its flags and its length, byte by byte.

use vstd::prelude::*;

use crate::pe::layout;
use crate::pe::recover;
use crate::pe::RegionEvidence;

verus! {

/// Some region that `kept` takes has a byte from `start` up to `end`.
pub open spec fn some_byte(
    regions: Seq<RegionEvidence>,
    kept: spec_fn(RegionEvidence) -> bool,
    start: int,
    end: int,
) -> bool {
    exists|i: int, at: int|
        #![trigger byte_of(regions[i], at)]
        0 <= i < regions.len() && kept(regions[i]) && start <= at < end && byte_of(regions[i], at)
}

/// The region has the byte at an offset of the image.
pub open spec fn byte_of(region: RegionEvidence, at: int) -> bool {
    region.offset <= at && at < region.offset + region.size
}

proof fn lemma_bytes_shared(
    regions: Seq<RegionEvidence>,
    kept: spec_fn(RegionEvidence) -> bool,
    start: int,
    end: int,
)
    requires
        0 <= start,
    ensures
        recover::committed_bytes(regions.filter(kept), start, end) >= 0,
        recover::committed_bytes(regions.filter(kept), start, end) > 0 <==> some_byte(
            regions,
            kept,
            start,
            end,
        ),
    decreases regions.len(),
{
    if regions.len() == 0 {
        reveal(Seq::filter);
        assert(regions.filter(kept).len() == 0);
    } else {
        let fewer = regions.drop_last();
        let last = regions.last();
        lemma_bytes_shared(fewer, kept, start, end);
        recover::lemma_filter_step(regions, kept, start, end);
        let shared = recover::shared_bytes(last, start, end);
        let first = recover::greatest(start, last.offset as int);
        if some_byte(fewer, kept, start, end) {
            let (i, at) = choose|i: int, at: int|
                #![trigger byte_of(fewer[i], at)]
                0 <= i < fewer.len() && kept(fewer[i]) && start <= at < end && byte_of(
                    fewer[i],
                    at,
                );
            assert(byte_of(regions[i], at));
        }
        if kept(last) && shared > 0 {
            assert(byte_of(regions[regions.len() - 1], first));
        }
        if some_byte(regions, kept, start, end) {
            let (i, at) = choose|i: int, at: int|
                #![trigger byte_of(regions[i], at)]
                0 <= i < regions.len() && kept(regions[i]) && start <= at < end && byte_of(
                    regions[i],
                    at,
                );
            if i < fewer.len() {
                assert(byte_of(fewer[i], at));
            } else {
                assert(regions[i] == last);
                assert(shared > 0);
            }
        }
    }
}

/// A section can be executed exactly if it is declared so or some executable region has a byte of
/// it, and can be read exactly if it is declared so or some readable region has a byte of it. It
/// gets no flag but those two and the one for writing.
pub proof fn recovered_access_is_shown_by_regions(
    flags: u32,
    regions: Seq<RegionEvidence>,
    start: int,
    end: int,
)
    requires
        0 <= start,
    ensures
        ({
            let recovered = recover::recovered_flags(flags, regions, start, end);
            &&& recovered & 0x2000_0000 != 0 <==> (flags & 0x2000_0000 != 0 || some_byte(
                regions,
                |region: RegionEvidence| region.executable,
                start,
                end,
            ))
            &&& recovered & 0x4000_0000 != 0 <==> (flags & 0x4000_0000 != 0 || some_byte(
                regions,
                |region: RegionEvidence| region.readable,
                start,
                end,
            ))
            &&& recovered & 0x8000_0000 != 0 ==> (flags & 0x8000_0000 != 0 || some_byte(
                regions,
                |region: RegionEvidence| region.writable,
                start,
                end,
            ))
            &&& flags & 0x8000_0000 != 0 ==> recovered & 0x8000_0000 != 0
            &&& recovered & 0x1FFF_FFFF == flags & 0x1FFF_FFFF
        }),
{
    lemma_bytes_shared(regions, |region: RegionEvidence| region.executable, start, end);
    lemma_bytes_shared(regions, |region: RegionEvidence| region.readable, start, end);
    lemma_bytes_shared(regions, |region: RegionEvidence| region.writable, start, end);
    lemma_added_bits(flags);
    lemma_added_bits(flags | 0x2000_0000);
    lemma_added_bits(flags | 0x4000_0000);
    lemma_added_bits((flags | 0x2000_0000) | 0x4000_0000);
}

proof fn lemma_added_bits(flags: u32)
    ensures
        (flags | 0x2000_0000) & 0x2000_0000 != 0,
        (flags | 0x4000_0000) & 0x4000_0000 != 0,
        (flags | 0x8000_0000) & 0x8000_0000 != 0,
        (flags | 0x2000_0000) & 0x4000_0000 == flags & 0x4000_0000,
        (flags | 0x2000_0000) & 0x8000_0000 == flags & 0x8000_0000,
        (flags | 0x4000_0000) & 0x2000_0000 == flags & 0x2000_0000,
        (flags | 0x4000_0000) & 0x8000_0000 == flags & 0x8000_0000,
        (flags | 0x8000_0000) & 0x2000_0000 == flags & 0x2000_0000,
        (flags | 0x8000_0000) & 0x4000_0000 == flags & 0x4000_0000,
        (flags | 0x2000_0000) & 0x1FFF_FFFF == flags & 0x1FFF_FFFF,
        (flags | 0x4000_0000) & 0x1FFF_FFFF == flags & 0x1FFF_FFFF,
        (flags | 0x8000_0000) & 0x1FFF_FFFF == flags & 0x1FFF_FFFF,
{
    assert((flags | 0x2000_0000) & 0x2000_0000 != 0 && (flags | 0x4000_0000) & 0x4000_0000 != 0 && (
    flags | 0x8000_0000) & 0x8000_0000 != 0) by (bit_vector);
    assert((flags | 0x2000_0000) & 0x4000_0000 == flags & 0x4000_0000 && (flags | 0x2000_0000)
        & 0x8000_0000 == flags & 0x8000_0000 && (flags | 0x2000_0000) & 0x1FFF_FFFF == flags
        & 0x1FFF_FFFF) by (bit_vector);
    assert((flags | 0x4000_0000) & 0x2000_0000 == flags & 0x2000_0000 && (flags | 0x4000_0000)
        & 0x8000_0000 == flags & 0x8000_0000 && (flags | 0x4000_0000) & 0x1FFF_FFFF == flags
        & 0x1FFF_FFFF) by (bit_vector);
    assert((flags | 0x8000_0000) & 0x2000_0000 == flags & 0x2000_0000 && (flags | 0x8000_0000)
        & 0x4000_0000 == flags & 0x4000_0000 && (flags | 0x8000_0000) & 0x1FFF_FFFF == flags
        & 0x1FFF_FFFF) by (bit_vector);
}

/// The bytes that a region has from `start` up to `end`.
pub open spec fn bytes_between(region: RegionEvidence, start: int, end: int) -> int {
    let from = if region.offset > start {
        region.offset as int
    } else {
        start
    };
    let to = if region.offset + region.size < end {
        region.offset + region.size
    } else {
        end
    };
    if from < to {
        to - from
    } else {
        0
    }
}

proof fn lemma_only_region(
    regions: Seq<RegionEvidence>,
    kept: spec_fn(RegionEvidence) -> bool,
    only: int,
    start: int,
    end: int,
)
    requires
        0 <= only < regions.len(),
        kept(regions[only]),
        forall|i: int| 0 <= i < regions.len() && i != only ==> !kept(#[trigger] regions[i]),
    ensures
        recover::committed_bytes(regions.filter(kept), start, end) == bytes_between(
            regions[only],
            start,
            end,
        ),
    decreases regions.len(),
{
    let fewer = regions.drop_last();
    recover::lemma_filter_step(regions, kept, start, end);
    if only < fewer.len() {
        assert(fewer[only] == regions[only]);
        assert(!kept(regions[regions.len() - 1]));
        lemma_only_region(fewer, kept, only, start, end);
    } else {
        assert(recover::committed_bytes(fewer.filter(kept), start, end) == 0) by {
            lemma_none_kept(fewer, kept, start, end);
        }
    }
}

proof fn lemma_none_kept(
    regions: Seq<RegionEvidence>,
    kept: spec_fn(RegionEvidence) -> bool,
    start: int,
    end: int,
)
    requires
        forall|i: int| 0 <= i < regions.len() ==> !kept(#[trigger] regions[i]),
    ensures
        recover::committed_bytes(regions.filter(kept), start, end) == 0,
    decreases regions.len(),
{
    reveal(Seq::filter);
    if regions.len() > 0 {
        assert(!kept(regions[regions.len() - 1]));
        lemma_none_kept(regions.drop_last(), kept, start, end);
        recover::lemma_filter_step(regions, kept, start, end);
    }
}

proof fn lemma_committed_includes(
    regions: Seq<RegionEvidence>,
    index: int,
    start: int,
    end: int,
)
    requires
        0 <= index < regions.len(),
    ensures
        recover::committed_bytes(regions, start, end) >= bytes_between(
            regions[index],
            start,
            end,
        ),
    decreases regions.len(),
{
    if index < regions.len() - 1 {
        lemma_committed_includes(regions.drop_last(), index, start, end);
    } else {
        lemma_committed_nonnegative(regions.drop_last(), start, end);
    }
}

proof fn lemma_committed_nonnegative(regions: Seq<RegionEvidence>, start: int, end: int)
    ensures
        recover::committed_bytes(regions, start, end) >= 0,
    decreases regions.len(),
{
    if regions.len() > 0 {
        lemma_committed_nonnegative(regions.drop_last(), start, end);
    }
}

/// Where one region alone can be written, a section becomes writable exactly if it is declared so,
/// or the region has all of it, or at least half of it and two pages.
pub proof fn much_written_memory_makes_writable(
    flags: u32,
    regions: Seq<RegionEvidence>,
    only: int,
    start: int,
    end: int,
)
    requires
        0 <= start < end <= usize::MAX,
        0 <= only < regions.len(),
        regions[only].writable,
        forall|i: int| 0 <= i < regions.len() && i != only ==> !(#[trigger] regions[i]).writable,
    ensures
        ({
            let count = bytes_between(regions[only], start, end);
            recover::recovered_flags(flags, regions, start, end) & 0x8000_0000 != 0 <==> flags
                & 0x8000_0000 != 0 || count == end - start || (count >= 0x2000 && 2 * count >= end
                - start)
        }),
{
    lemma_only_region(regions, |region: RegionEvidence| region.writable, only, start, end);
    lemma_committed_includes(regions, only, start, end);
    lemma_added_bits(flags);
    lemma_added_bits(flags | 0x2000_0000);
    lemma_added_bits(flags | 0x4000_0000);
    lemma_added_bits((flags | 0x2000_0000) | 0x4000_0000);
}

/// Another region adds its bytes to those that count as writable, if it can be written.
pub proof fn written_regions_add_up(
    regions: Seq<RegionEvidence>,
    region: RegionEvidence,
    start: int,
    end: int,
)
    ensures
        recover::writable_bytes(regions.push(region), start, end) == recover::writable_bytes(
            regions,
            start,
            end,
        ) + if region.writable {
            bytes_between(region, start, end)
        } else {
            0
        },
{
    let kept = |region: RegionEvidence| region.writable;
    recover::lemma_filter_step(regions.push(region), kept, start, end);
    assert(regions.push(region).drop_last() =~= regions);
}

/// The byte is not zero, and some readable region has it.
pub open spec fn shown_in_use(memory: Seq<u8>, regions: Seq<RegionEvidence>, at: int) -> bool {
    memory[at] != 0 && exists|i: int|
        0 <= i < regions.len() && (#[trigger] regions[i]).readable && regions[i].offset <= at
            < regions[i].offset + regions[i].size
}

proof fn lemma_use_end_shown(
    memory: Seq<u8>,
    regions: Seq<RegionEvidence>,
    from: int,
    to: int,
)
    requires
        from <= to,
    ensures
        ({
            let end = recover::use_end(memory, regions, from, to);
            &&& from <= end <= to
            &&& end > from ==> shown_in_use(memory, regions, end - 1)
            &&& forall|at: int|
                end <= at < to ==> !#[trigger] shown_in_use(memory, regions, at)
        }),
    decreases to - from,
{
    if to > from {
        assert(recover::in_use(memory, regions, to - 1) <==> shown_in_use(
            memory,
            regions,
            to - 1,
        )) by {
            if shown_in_use(memory, regions, to - 1) {
                let i = choose|i: int|
                    0 <= i < regions.len() && (#[trigger] regions[i]).readable && regions[i].offset
                        <= to - 1 < regions[i].offset + regions[i].size;
                assert(recover::region_holds(regions[i], to - 1));
            }
        }
        if !shown_in_use(memory, regions, to - 1) {
            lemma_use_end_shown(memory, regions, from, to - 1);
        }
    }
}

/// A section reaches up to the last byte that is shown to be in use: none behind its end is in
/// use up to the limit, and if it got longer, the last byte that it has is in use.
pub proof fn sections_reach_to_the_last_byte_in_use(
    memory: Seq<u8>,
    regions: Seq<RegionEvidence>,
    start: int,
    limit: int,
    declared: int,
)
    requires
        0 <= start < limit <= memory.len(),
        0 <= declared,
    ensures
        ({
            let length = recover::expanded_length(memory, regions, start, limit, declared);
            &&& length >= declared
            &&& length > declared ==> start + length <= limit && shown_in_use(
                memory,
                regions,
                start + length - 1,
            )
            &&& forall|at: int|
                start + length <= at < limit ==> !#[trigger] shown_in_use(memory, regions, at)
        }),
{
    let from = layout::least(start + declared, limit);
    lemma_use_end_shown(memory, regions, from, limit);
}

} // verus!
