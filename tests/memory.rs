use oskernel::config::{APP_BASE, PAGE_SIZE};
use oskernel::mm::{MapError, MapPermission, MemorySet};

const RW: MapPermission = MapPermission { r: true, w: true, x: false, u: false };

fn space() -> MemorySet {
    MemorySet::from_image(&vec![1u8, 2, 3]).unwrap().0
}

#[test]
fn insert_two_disjoint_then_repeat_overlaps() {
    let mut ms = space();
    assert_eq!(ms.insert_area(0x100000, 0x102000, RW), Ok(()));
    assert_eq!(ms.insert_area(0x102000, 0x104000, RW), Ok(()));
    assert_eq!(ms.insert_area(0x100000, 0x102000, RW), Err(MapError::Overlap));
    assert_eq!(ms.insert_area(0x101000, 0x103000, RW), Err(MapError::Overlap));
}

#[test]
fn insert_rejects_misaligned_and_empty() {
    let mut ms = space();
    assert_eq!(ms.insert_area(0x100001, 0x102000, RW), Err(MapError::Misaligned));
    assert_eq!(ms.insert_area(0x100000, 0x101001, RW), Err(MapError::Misaligned));
    assert_eq!(ms.insert_area(0x100000, 0x100000, RW), Err(MapError::BadRange));
    assert_eq!(ms.insert_area(0x102000, 0x100000, RW), Err(MapError::BadRange));
}

#[test]
fn inserted_area_is_user_accessible_and_zeroed() {
    let mut ms = space();
    ms.insert_area(0x100000, 0x101000, RW).unwrap();
    let last = ms.areas.last().unwrap();
    assert!(last.perm.u);
    assert_eq!(last.start_vpn, 0x100);
    assert_eq!(last.end_vpn, 0x101);
    let chunks = ms.translate_to_bytes(0x100000, 16).unwrap();
    assert_eq!(chunks.concat(), vec![0u8; 16]);
}

#[test]
fn remove_then_insert_round_trip() {
    let mut ms = space();
    ms.insert_area(0x100000, 0x102000, RW).unwrap();
    assert_eq!(ms.remove_area(0x100000, 0x102000), Ok(()));
    assert_eq!(ms.insert_area(0x100000, 0x102000, RW), Ok(()));
}

#[test]
fn partial_remove_is_rejected() {
    let mut ms = space();
    ms.insert_area(0x100000, 0x102000, RW).unwrap();
    assert_eq!(ms.remove_area(0x100000, 0x101000), Err(MapError::NotMapped));
    assert_eq!(ms.remove_area(0x100001, 0x102000), Err(MapError::Misaligned));
    assert_eq!(ms.remove_area(0x100000, 0x100000), Err(MapError::NotMapped));
    assert_eq!(ms.remove_area(0x100000, 0x102000), Ok(()));
    assert_eq!(ms.remove_area(0x100000, 0x102000), Err(MapError::NotMapped));
}

#[test]
fn translate_across_two_pages_concatenates() {
    let mut ms = space();
    ms.insert_area(0x100000, 0x102000, RW).unwrap();
    let data: Vec<u8> = (1..=12).collect();
    assert!(ms.write_bytes(0x100000 + PAGE_SIZE - 5, &data));
    let chunks = ms.translate_to_bytes(0x100000 + PAGE_SIZE - 5, 12).unwrap();
    assert_eq!(chunks.len(), 2);
    assert_eq!(chunks[0], vec![1, 2, 3, 4, 5]);
    assert_eq!(chunks.concat(), data);
}

#[test]
fn translate_every_split_point() {
    let mut ms = space();
    ms.insert_area(0x100000, 0x102000, RW).unwrap();
    let data: Vec<u8> = (0..8u8).map(|b| b + 100).collect();
    for split in 1..8usize {
        let va = 0x101000 - split;
        assert!(ms.write_bytes(va, &data));
        let chunks = ms.translate_to_bytes(va, 8).unwrap();
        assert_eq!(chunks.len(), 2);
        assert_eq!(chunks[0].len(), split);
        assert_eq!(chunks.concat(), data);
    }
}

#[test]
fn translate_fails_on_unmapped_page() {
    let ms = space();
    assert!(ms.translate_to_bytes(0x200000, 4).is_none());
    assert!(ms.translate_to_bytes(0x200000, 0).is_some());
}

#[test]
fn write_fails_on_read_only_page_and_changes_nothing() {
    let mut ms = space();
    assert!(!ms.write_bytes(APP_BASE, &vec![9u8, 9]));
    assert_eq!(ms.translate_to_bytes(APP_BASE, 3).unwrap().concat(), vec![1, 2, 3]);
}

#[test]
fn image_is_loaded_at_base() {
    let image: Vec<u8> = (0..5000u32).map(|i| (i % 251) as u8).collect();
    let (ms, sp) = MemorySet::from_image(&image).unwrap();
    assert_eq!(ms.translate_to_bytes(APP_BASE, image.len()).unwrap().concat(), image);
    assert_eq!(ms.heap_bottom, sp);
    assert!(ms.check_range(sp - 8192, 8192, true));
}

#[test]
fn string_is_read_up_to_nul() {
    let mut ms = space();
    ms.insert_area(0x100000, 0x102000, RW).unwrap();
    assert!(ms.write_bytes(0x100ffe, &b"hello\0world".to_vec()));
    assert_eq!(ms.translated_str(0x100ffe), Some(b"hello".to_vec()));
    assert_eq!(ms.translated_str(0x300000), None);
}

#[test]
fn brk_grows_and_shrinks_back() {
    let mut ms = space();
    let origin = ms.program_brk;
    assert_eq!(ms.change_program_brk(4096), Some(origin));
    assert_eq!(ms.program_brk, origin + 4096);
    assert!(ms.check_range(origin, 4096, true));
    assert_eq!(ms.change_program_brk(-4096), Some(origin + 4096));
    assert_eq!(ms.program_brk, origin);
    assert!(!ms.check_range(origin, 1, false));
}

#[test]
fn brk_below_origin_fails() {
    let mut ms = space();
    let origin = ms.program_brk;
    assert_eq!(ms.change_program_brk(-1), None);
    assert_eq!(ms.program_brk, origin);
}

#[test]
fn brk_growth_into_mapped_area_fails() {
    let mut ms = space();
    let origin = ms.program_brk;
    ms.insert_area(origin, origin + 4096, RW).unwrap();
    assert_eq!(ms.change_program_brk(10), None);
}

#[test]
fn duplicate_is_independent() {
    let mut ms = space();
    ms.insert_area(0x100000, 0x101000, RW).unwrap();
    let mut copy = ms.duplicate();
    assert!(copy.write_bytes(0x100000, &vec![5u8]));
    assert_eq!(ms.translate_to_bytes(0x100000, 1).unwrap().concat(), vec![0]);
    assert_eq!(copy.translate_to_bytes(0x100000, 1).unwrap().concat(), vec![5]);
}

#[test]
fn permission_from_port_bits() {
    let p = MapPermission::from_port(0b101);
    assert!(p.r && !p.w && p.x && p.u);
}

#[test]
fn removing_heap_span_empties_heap() {
    let mut ms = space();
    let origin = ms.program_brk;
    ms.change_program_brk(8192).unwrap();
    assert_eq!(ms.remove_area(origin, origin + 8192), Ok(()));
    assert_eq!(ms.program_brk, origin);
    assert!(!ms.check_range(origin, 1, false));
    assert_eq!(ms.insert_area(origin, origin + 8192, RW), Ok(()));
}
