use mempe::error::AppError;
use mempe::pe::layout::{align_up, align_up_u64};
use mempe::pe::parse::{memory_image_size, parse_disk_image, parse_memory_image};
use mempe::pe::PeKind;

fn put_u16(bytes: &mut [u8], offset: usize, value: u16) {
    bytes[offset..offset + 2].copy_from_slice(&value.to_le_bytes());
}

fn put_u32(bytes: &mut [u8], offset: usize, value: u32) {
    bytes[offset..offset + 4].copy_from_slice(&value.to_le_bytes());
}

fn image() -> Vec<u8> {
    image_at(0x80)
}

fn image_at(nt: usize) -> Vec<u8> {
    let mut image = vec![0u8; 0x3000];
    put_u16(&mut image, 0, 0x5A4D);
    put_u32(&mut image, 0x3C, nt as u32);
    put_u32(&mut image, nt, 0x4550);
    put_u16(&mut image, nt + 4, 0x8664);
    put_u16(&mut image, nt + 6, 2);
    put_u16(&mut image, nt + 20, 0xF0);
    put_u16(&mut image, nt + 22, 0x2022);
    let optional = nt + 24;
    put_u16(&mut image, optional, 0x20B);
    put_u32(&mut image, optional + 16, 0x1000);
    put_u32(&mut image, optional + 32, 0x1000);
    put_u32(&mut image, optional + 36, 0x200);
    put_u32(&mut image, optional + 56, 0x3000);
    put_u32(&mut image, optional + 60, 0x400);
    put_u32(&mut image, optional + 108, 16);
    for index in 0..2usize {
        let section = optional + 0xF0 + 40 * index;
        put_u32(&mut image, section + 8, 0x1000);
        put_u32(&mut image, section + 12, 0x1000 * (index as u32 + 1));
        put_u32(&mut image, section + 36, 0x6000_0020);
    }
    image
}

fn refusal(image: &[u8]) -> String {
    parse_disk_image(image).err().unwrap().message().to_string()
}

#[test]
fn reads_headers() -> Result<(), AppError> {
    let bytes = image();
    let parsed = parse_memory_image(&bytes)?;
    let model = parsed.model();
    assert_eq!(model.kind(), PeKind::Pe32Plus);
    assert!(model.is_dll() && !model.salvaged());
    assert_eq!(model.image_size(), 0x3000);
    assert_eq!(model.directory_count(), 16);
    assert_eq!(model.sections().len(), 2);
    assert_eq!(model.sections()[1].virtual_address().get(), 0x2000);
    assert_eq!(model.section_table_end(), 0x98 + 0xF0 + 80);
    assert_eq!(PeKind::Pe32Plus.text(), "PE32+");
    assert_eq!(PeKind::Pe32.text(), "PE32");
    Ok(())
}

#[test]
fn finds_headers_without_a_pointer() -> Result<(), AppError> {
    let mut bytes = image_at(0x104);
    put_u16(&mut bytes, 0, 0);
    let parsed = parse_memory_image(&bytes)?;
    assert_eq!(parsed.model().nt_offset(), 0x104);
    assert!(parsed.model().salvaged());
    let error = parse_memory_image(&[0u8; 64]).err().unwrap();
    assert_eq!(
        error.message(),
        "PE header is not valid: DOS MZ signature is missing; scan found no valid header"
    );
    let error = parse_memory_image(&[0u8; 63]).err().unwrap();
    assert_eq!(error.message(), "captured image is smaller than a DOS header");
    Ok(())
}

#[test]
fn says_why_headers_are_refused() {
    let mut bytes = image();
    put_u32(&mut bytes, 0x80, 0);
    assert_eq!(refusal(&bytes), "NT signature is missing");
    let mut bytes = image();
    put_u16(&mut bytes, 0x86, 129);
    assert_eq!(refusal(&bytes), "invalid section count 129");
    let mut bytes = image();
    put_u16(&mut bytes, 0x84, 0x014C);
    assert_eq!(refusal(&bytes), "PE32+ optional header conflicts with machine 0x014C");
    let mut bytes = image();
    put_u16(&mut bytes, 0x98, 0x107);
    assert_eq!(refusal(&bytes), "unknown PE magic 0x0107");
    let mut bytes = image();
    put_u16(&mut bytes, 0x94, 0x6F);
    assert_eq!(refusal(&bytes), "optional header is truncated");
    let mut bytes = image();
    put_u32(&mut bytes, 0x98 + 36, 0x300);
    assert_eq!(refusal(&bytes), "invalid file alignment 0x300");
    let mut bytes = image();
    put_u32(&mut bytes, 0x98 + 32, 0x100);
    assert_eq!(refusal(&bytes), "invalid section alignment 0x100");
    let mut bytes = image();
    put_u32(&mut bytes, 0x98 + 56, 0);
    assert_eq!(refusal(&bytes), "declared image size 0 is outside the safety limit");
    let mut bytes = image();
    put_u32(&mut bytes, 0x98 + 56, 0x2800);
    assert_eq!(refusal(&bytes), "section ending at RVA 0x3000 exceeds SizeOfImage");
    let mut bytes = image();
    put_u32(&mut bytes, 0x98 + 0xF0 + 12, 0x1800);
    assert_eq!(refusal(&bytes), "section virtual ranges overlap");
    assert_eq!(refusal(&[0u8; 64]), "DOS MZ signature is missing");
    let bytes = image();
    assert_eq!(refusal(&bytes[..0x1A0]), "PE structure lies outside the captured image");
    assert_eq!(refusal(&bytes[..0x82]), "PE field lies outside the captured image");
}

#[test]
fn captured_images_must_be_complete() -> Result<(), AppError> {
    let bytes = image();
    assert_eq!(memory_image_size(&bytes[..0x400])?, 0x3000);
    let error = parse_memory_image(&bytes[..0x400]).err().unwrap();
    assert_eq!(
        error.message(),
        "PE header is not valid: declared image size 12288 does not fit the captured memory; \
         scan found no valid header"
    );
    Ok(())
}

#[test]
fn aligns_up() -> Result<(), AppError> {
    assert_eq!(align_up(0, 0x200)?, 0);
    assert_eq!(align_up(1, 0x200)?, 0x200);
    assert_eq!(align_up(align_up(0x201, 0x200)?, 0x200)?, 0x400);
    assert_eq!(align_up_u64(0xFFFF_FFFF, 0x1000)?, 0x1_0000_0000);
    assert_eq!(align_up(1, 0).unwrap_err().message(), "PE alignment is invalid");
    assert_eq!(align_up(1, 3).unwrap_err().message(), "PE alignment is invalid");
    assert_eq!(align_up(usize::MAX, 2).unwrap_err().message(), "PE alignment overflowed");
    Ok(())
}
