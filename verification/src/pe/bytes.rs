//! Little-endian fields in byte sequences, and what it means to write one.

use vstd::prelude::*;

verus! {

/// The 16-bit field at `at`.
pub open spec fn le16(bytes: Seq<u8>, at: int) -> u16 {
    (bytes[at] + 0x100 * bytes[at + 1]) as u16
}

/// The 32-bit field at `at`.
pub open spec fn le32(bytes: Seq<u8>, at: int) -> u32 {
    (bytes[at] + 0x100 * bytes[at + 1] + 0x1_0000 * bytes[at + 2] + 0x100_0000 * bytes[at + 3])
        as u32
}

/// The 64-bit field at `at`.
pub open spec fn le64(bytes: Seq<u8>, at: int) -> u64 {
    (le32(bytes, at) + 0x1_0000_0000 * le32(bytes, at + 4)) as u64
}

/// The bytes of a 16-bit field.
pub open spec fn bytes16(value: u16) -> Seq<u8> {
    seq![(value % 0x100) as u8, (value / 0x100) as u8]
}

/// The bytes of a 32-bit field.
pub open spec fn bytes32(value: u32) -> Seq<u8> {
    seq![
        (value % 0x100) as u8,
        (value / 0x100 % 0x100) as u8,
        (value / 0x1_0000 % 0x100) as u8,
        (value / 0x100_0000) as u8,
    ]
}

/// The bytes of a 64-bit field.
pub open spec fn bytes64(value: u64) -> Seq<u8> {
    bytes32((value % 0x1_0000_0000) as u32) + bytes32((value / 0x1_0000_0000) as u32)
}

/// `bytes` with `part` written over it from `at` on.
pub open spec fn splice(bytes: Seq<u8>, at: int, part: Seq<u8>) -> Seq<u8> {
    Seq::new(
        bytes.len(),
        |i: int|
            if at <= i < at + part.len() {
                part[i - at]
            } else {
                bytes[i]
            },
    )
}

/// Reading a 16-bit field gives back what was written there.
pub proof fn written_u16_reads_back(bytes: Seq<u8>, at: int, value: u16)
    requires
        0 <= at,
        at + 2 <= bytes.len(),
    ensures
        le16(splice(bytes, at, bytes16(value)), at) == value,
{
}

/// Reading a 32-bit field gives back what was written there.
pub proof fn written_u32_reads_back(bytes: Seq<u8>, at: int, value: u32)
    requires
        0 <= at,
        at + 4 <= bytes.len(),
    ensures
        le32(splice(bytes, at, bytes32(value)), at) == value,
{
}

/// Reading a 64-bit field gives back what was written there.
pub proof fn written_u64_reads_back(bytes: Seq<u8>, at: int, value: u64)
    requires
        0 <= at,
        at + 8 <= bytes.len(),
    ensures
        le64(splice(bytes, at, bytes64(value)), at) == value,
{
    let low = (value % 0x1_0000_0000) as u32;
    let high = (value / 0x1_0000_0000) as u32;
    let first = splice(bytes, at, bytes32(low));
    let both = splice(first, at + 4, bytes32(high));
    assert(both =~= splice(bytes, at, bytes64(value)));
    written_u32_reads_back(bytes, at, low);
    written_u32_reads_back(first, at + 4, high);
    write_keeps_other_fields(first, at + 4, bytes32(high), at);
}

/// A write leaves every field that it does not touch as it was.
pub proof fn write_keeps_other_fields(bytes: Seq<u8>, at: int, part: Seq<u8>, field: int)
    requires
        0 <= at,
        0 <= field,
        at + part.len() <= bytes.len(),
        field + 4 <= bytes.len(),
        field + 4 <= at || at + part.len() <= field,
    ensures
        le32(splice(bytes, at, part), field) == le32(bytes, field),
{
}

} // verus!
