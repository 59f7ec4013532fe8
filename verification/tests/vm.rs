use proc_core::mm::AddressSpace;

const PAGE: usize = 4096;

fn space() -> AddressSpace {
    AddressSpace::empty(0x100000)
}

#[test]
fn mmap_then_munmap_restores_the_mapping_set() {
    let mut s = space();
    assert_eq!(s.mmap(0x1000, 2 * PAGE, 3), 0);
    assert!(s.find_page(1).is_some());
    assert!(s.find_page(2).is_some());
    assert_eq!(s.munmap(0x1000, 2 * PAGE), 0);
    assert!(s.find_page(1).is_none());
    assert!(s.find_page(2).is_none());
    assert_eq!(s.pages.len(), 0);
}

#[test]
fn mmap_covers_partial_pages_by_ceiling() {
    let mut s = space();
    assert_eq!(s.mmap(0x1000, PAGE + 1, 3), 0);
    assert!(s.find_page(1).is_some());
    assert!(s.find_page(2).is_some());
    assert!(s.find_page(3).is_none());
}

#[test]
fn mmap_overlapping_fails() {
    let mut s = space();
    assert_eq!(s.mmap(0x1000, PAGE, 3), 0);
    assert_eq!(s.mmap(0x1000, PAGE, 3), -1);
    assert_eq!(s.mmap(0x0, 2 * PAGE, 3), -1);
    assert_eq!(s.pages.len(), 1);
}

#[test]
fn munmap_of_a_hole_fails() {
    let mut s = space();
    assert_eq!(s.mmap(0x1000, PAGE, 3), 0);
    assert_eq!(s.munmap(0x1000, 2 * PAGE), -1);
    assert_eq!(s.munmap(0x3000, PAGE), -1);
    assert!(s.find_page(1).is_some());
}

#[test]
fn zero_length_requests_are_noops() {
    let mut s = space();
    assert_eq!(s.mmap(0x4000, 0, 7), 0);
    assert_eq!(s.munmap(0x4000, 0), 0);
    assert_eq!(s.pages.len(), 0);
}

#[test]
fn bad_ports_fail_whatever_the_range() {
    let mut s = space();
    assert_eq!(s.mmap(0x1000, PAGE, 0), -1);
    assert_eq!(s.mmap(0x1000, PAGE, 8), -1);
    assert_eq!(s.mmap(0x1000, PAGE, 0x13), -1);
    assert_eq!(s.mmap(0x1000, 0, 0), -1);
    assert_eq!(s.pages.len(), 0);
}

#[test]
fn unaligned_start_fails() {
    let mut s = space();
    assert_eq!(s.mmap(0x1001, PAGE, 3), -1);
    assert_eq!(s.munmap(0x1001, PAGE), -1);
}

#[test]
fn fresh_pages_are_zeroed_with_requested_perm() {
    let mut s = space();
    assert_eq!(s.mmap(0x2000, PAGE, 5), 0);
    let bytes = s.read_bytes(0x2000, 16).unwrap();
    assert!(bytes.iter().all(|b| *b == 0));
    let i = s.find_page(2).unwrap();
    assert_eq!(s.pages[i].perm, 5);
}

#[test]
fn writes_split_across_page_boundaries() {
    let mut s = space();
    assert_eq!(s.mmap(0x1000, 2 * PAGE, 3), 0);
    let data: Vec<u8> = (0..8u8).collect();
    let addr = 0x2000 - 4;
    assert!(s.write_buffer(addr, &data));
    let back = s.read_bytes(addr, 8).unwrap();
    assert_eq!(back, data);
    // neighbours untouched
    assert_eq!(s.read_bytes(addr - 1, 1).unwrap(), vec![0]);
    assert_eq!(s.read_bytes(addr + 8, 1).unwrap(), vec![0]);
}

#[test]
fn permission_bits_gate_the_bridge() {
    let mut s = space();
    // execute-only page: neither read nor written through the bridge
    assert_eq!(s.mmap(0x1000, PAGE, 4), 0);
    assert!(s.read_bytes(0x1000, 1).is_none());
    assert!(!s.write_buffer(0x1000, &vec![1u8]));
    // read-only page: readable, not writable
    assert_eq!(s.mmap(0x2000, PAGE, 1), 0);
    assert_eq!(s.read_bytes(0x2000, 1).unwrap(), vec![0]);
    assert!(!s.write_buffer(0x2000, &vec![1u8]));
}

#[test]
fn writes_to_unmapped_memory_are_refused_whole() {
    let mut s = space();
    assert_eq!(s.mmap(0x1000, PAGE, 3), 0);
    let data = vec![1u8; 8];
    // the run would cross into the unmapped page
    assert!(!s.write_buffer(0x2000 - 4, &data));
    assert_eq!(s.read_bytes(0x2000 - 4, 4).unwrap(), vec![0, 0, 0, 0]);
    assert!(s.read_bytes(0x2000, 1).is_none());
}

#[test]
fn strings_walk_pages_and_stop_at_the_terminator() {
    let mut s = space();
    assert_eq!(s.mmap(0x1000, 2 * PAGE, 3), 0);
    let text = b"hello across".to_vec();
    let addr = 0x2000 - 5;
    assert!(s.write_buffer(addr, &text));
    // terminator already there: fresh pages are zeroed
    let got = s.translated_str(addr).unwrap();
    assert_eq!(got, text);
    // a string running into unmapped memory is refused
    let nonzero = vec![7u8; 5];
    assert!(s.write_buffer(0x3000 - 5, &nonzero));
    assert!(s.translated_str(0x3000 - 5).is_none());
}

#[test]
fn duplicate_copies_pages_independently() {
    let mut s = space();
    assert_eq!(s.mmap(0x1000, PAGE, 3), 0);
    let data = vec![9u8, 8, 7];
    assert!(s.write_buffer(0x1000, &data));
    let mut d = s.duplicate();
    assert_eq!(d.read_bytes(0x1000, 3).unwrap(), data);
    let other = vec![1u8, 2, 3];
    assert!(d.write_buffer(0x1000, &other));
    assert_eq!(s.read_bytes(0x1000, 3).unwrap(), data);
    assert_eq!(d.read_bytes(0x1000, 3).unwrap(), other);
}

#[test]
fn overflowing_ranges_are_refused() {
    let mut s = space();
    let top = usize::MAX - (PAGE - 1); // last page-aligned start
    assert_eq!(s.mmap(top, 2 * PAGE, 3), -1);
    assert_eq!(s.munmap(top, 2 * PAGE), -1);
    // a bad port fails regardless, overflowing range included
    assert_eq!(s.mmap(top, 2 * PAGE, 0), -1);
    assert_eq!(s.pages.len(), 0);
}

#[test]
fn mmap_keeps_off_the_heap_span() {
    let mut s = space();
    // grow the heap so its span occupies a page
    let origin = s.program_break;
    assert_eq!(s.change_program_brk(100), Some(origin));
    let heap_page_start = origin - origin % PAGE;
    assert_eq!(s.mmap(heap_page_start, PAGE, 3), -1);
    // an empty heap claims no page
    assert_eq!(s.change_program_brk(-100), Some(origin + 100));
    assert_eq!(s.mmap(heap_page_start, PAGE, 3), 0);
}

#[test]
fn sbrk_growth_stops_at_a_mapped_page() {
    let mut s = space();
    let origin = s.program_break;
    let next_page = origin - origin % PAGE + if origin % PAGE != 0 { PAGE } else { 0 };
    // map the page the heap would grow onto
    assert_eq!(s.mmap(next_page, PAGE, 3), 0);
    assert_eq!(s.change_program_brk(1), None);
    assert_eq!(s.program_break, origin);
    // with the obstacle gone the growth goes through
    assert_eq!(s.munmap(next_page, PAGE), 0);
    assert_eq!(s.change_program_brk(1), Some(origin));
}

#[test]
fn program_break_moves_and_comes_back() {
    let mut s = space();
    let origin = s.program_break;
    assert_eq!(s.change_program_brk(100), Some(origin));
    assert_eq!(s.program_break, origin + 100);
    assert_eq!(s.change_program_brk(-100), Some(origin + 100));
    assert_eq!(s.program_break, origin);
    // below the heap origin is refused
    assert_eq!(s.change_program_brk(-1), None);
    assert_eq!(s.program_break, origin);
}
