use mempe::pe::exports::{
    embedded_module_name, is_api_set, normalize_module, parse_forward_target, ExportIndex,
};
use mempe::pe::symbols::ExportKey;

#[test]
fn parses_named_and_ordinal_forwarders() {
    assert!(parse_forward_target("KERNELBASE.CreateFileW").is_some());
    assert!(parse_forward_target("NTDLL.#42").is_some());
    assert!(parse_forward_target("broken").is_none());
}

fn put_u16(bytes: &mut [u8], offset: usize, value: u16) {
    bytes[offset..offset + 2].copy_from_slice(&value.to_le_bytes());
}

fn put_u32(bytes: &mut [u8], offset: usize, value: u32) {
    bytes[offset..offset + 4].copy_from_slice(&value.to_le_bytes());
}

fn put_text(bytes: &mut [u8], offset: usize, text: &str) {
    bytes[offset..offset + text.len()].copy_from_slice(text.as_bytes());
}

/// A module with one named symbol, at `function` or as a forwarder to `target`.
fn library(name: &str, symbol: &str, function: u32, target: &str) -> Vec<u8> {
    let mut image = vec![0u8; 0x3000];
    put_u16(&mut image, 0, 0x5A4D);
    put_u32(&mut image, 0x3C, 0x80);
    put_u32(&mut image, 0x80, 0x4550);
    put_u16(&mut image, 0x84, 0x8664);
    put_u16(&mut image, 0x86, 1);
    put_u16(&mut image, 0x94, 0xF0);
    put_u16(&mut image, 0x98, 0x20B);
    put_u32(&mut image, 0x98 + 32, 0x1000);
    put_u32(&mut image, 0x98 + 36, 0x200);
    put_u32(&mut image, 0x98 + 56, 0x3000);
    put_u32(&mut image, 0x98 + 108, 16);
    put_u32(&mut image, 0x98 + 112, 0x2000);
    put_u32(&mut image, 0x98 + 116, 0x200);
    put_u32(&mut image, 0x188 + 8, 0x2000);
    put_u32(&mut image, 0x188 + 12, 0x1000);
    put_u32(&mut image, 0x2000 + 12, 0x2080);
    put_u32(&mut image, 0x2000 + 16, 7);
    put_u32(&mut image, 0x2000 + 20, 1);
    put_u32(&mut image, 0x2000 + 24, 1);
    put_u32(&mut image, 0x2000 + 28, 0x2040);
    put_u32(&mut image, 0x2000 + 32, 0x2048);
    put_u32(&mut image, 0x2000 + 36, 0x2050);
    put_u32(&mut image, 0x2040, if target.is_empty() { function } else { 0x2100 });
    put_u32(&mut image, 0x2048, 0x20C0);
    put_text(&mut image, 0x2080, name);
    put_text(&mut image, 0x20C0, symbol);
    put_text(&mut image, 0x2100, target);
    image
}

#[test]
fn finds_symbols_by_address() {
    let first = library("FIRST.DLL", "Alpha", 0x1010, "");
    let index = ExportIndex::build(&[(0x7000_0000, first.as_slice(), None)]);
    let (symbol, ambiguous) = index.resolve(0x7000_1010).unwrap();
    assert_eq!(symbol.module, "FIRST.DLL");
    assert_eq!(symbol.name.as_deref(), Some("Alpha"));
    assert_eq!(symbol.ordinal, 7);
    assert!(!ambiguous);
    assert!(index.resolve(0x7000_1011).is_none());
    let stats = index.stats();
    assert_eq!(stats.modules, 1);
    assert_eq!(stats.addresses, 1);
    assert_eq!(stats.forwarders, 0);
    assert_eq!(stats.unresolved_forwarders, 0);
}

#[test]
fn follows_forwarders_to_their_definition() {
    let first = library("first.dll", "Alpha", 0x1010, "");
    let by_name = library("second.dll", "Beta", 0, "FIRST.alpha");
    let by_ordinal = library("third.dll", "Gamma", 0, "second.#7");
    let lost = library("fourth.dll", "Delta", 0, "nowhere.Alpha");
    let index = ExportIndex::build(&[
        (0x1000_0000, lost.as_slice(), None),
        (0x2000_0000, by_ordinal.as_slice(), None),
        (0x3000_0000, by_name.as_slice(), None),
        (0x7000_0000, first.as_slice(), None),
    ]);
    let (symbol, ambiguous) = index.resolve(0x7000_1010).unwrap();
    assert_eq!(symbol.module, "first.dll");
    assert!(ambiguous);
    assert_eq!(index.stats().addresses, 1);
    assert_eq!(index.stats().forwarders, 3);
    assert_eq!(index.stats().unresolved_forwarders, 1);
}

#[test]
fn api_sets_stand_for_one_definition() {
    let first = library("first.dll", "Alpha", 0x1010, "");
    let other = library("other.dll", "Alpha", 0x1020, "");
    let set = library("second.dll", "Beta", 0, "api-ms-win-x.Alpha");
    let one = ExportIndex::build(&[
        (0x7000_0000, first.as_slice(), None),
        (0x3000_0000, set.as_slice(), None),
    ]);
    assert_eq!(one.stats().unresolved_forwarders, 0);
    let several = ExportIndex::build(&[
        (0x7000_0000, first.as_slice(), None),
        (0x6000_0000, other.as_slice(), None),
        (0x3000_0000, set.as_slice(), None),
    ]);
    assert_eq!(several.stats().unresolved_forwarders, 1);
    assert!(is_api_set("api-ms-win-x.dll") && is_api_set("ext-y") && !is_api_set("capi-"));
}

#[test]
fn modules_have_file_names() {
    assert_eq!(normalize_module("C:\\x/KERNEL32"), "KERNEL32.dll");
    assert_eq!(normalize_module("a.drv"), "a.drv");
    let (module, key) = parse_forward_target("NTDLL.#42").unwrap();
    assert_eq!(module, "NTDLL.dll");
    assert!(matches!(key, ExportKey::Ordinal(42)));
    assert!(parse_forward_target("NTDLL.#x").is_none());
    let first = library("Inner", "Alpha", 0x1010, "");
    assert_eq!(embedded_module_name(&first).as_deref(), Some("Inner.dll"));
    assert_eq!(embedded_module_name(&[0u8; 64]), None);
}

#[test]
fn images_without_a_name_use_the_given_one() {
    let mut image = library("x", "Alpha", 0x1010, "");
    put_u32(&mut image, 0x2000 + 12, 0x4000);
    let named = ExportIndex::build(&[(0x7000_0000, image.as_slice(), Some("given"))]);
    assert_eq!(named.resolve(0x7000_1010).unwrap().0.module, "given.dll");
    let unnamed = ExportIndex::build(&[(0x7000_0000, image.as_slice(), None)]);
    assert_eq!(unnamed.stats().modules, 1);
}

#[test]
fn each_forwarder_is_added_or_counted() {
    let first = library("first.dll", "Alpha", 0x1010, "");
    let found = library("second.dll", "Beta", 0, "first.Alpha");
    let lost = library("third.dll", "Gamma", 0, "nowhere.Alpha");
    let broken = library("fourth.dll", "Delta", 0, "nothing");
    let mut images = vec![(0x7000_0000u64, first.as_slice(), None)];
    for (count, (image, unresolved)) in [(&found, 0), (&lost, 1), (&broken, 2)].iter().enumerate() {
        images.push((0x1000_0000 * (count as u64 + 1), image.as_slice(), None));
        let index = ExportIndex::build(&images);
        assert_eq!(index.stats().forwarders, count + 1);
        assert_eq!(index.stats().unresolved_forwarders, *unresolved);
        assert_eq!(index.stats().addresses, 1);
        assert_eq!(index.resolve(0x7000_1010).unwrap().0.module, "first.dll");
    }
}
